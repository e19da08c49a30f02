//! Attachment activity statistics for chat channels: paging through a
//! channel's history, bucketing attachment events per day and per week, and
//! laying out the time-series charts drawn from those buckets.

pub mod counter;
pub mod reduce;
pub mod clock;
pub mod chart;
pub mod naming;
pub mod select;
