//! Reduction of a channel's message history into daily and weekly counters.
//!
//! Days are numbered as chrono's `num_days_from_ce` numbers them: January 1
//! of year 1 is day 1, and it is a Monday.

use vstd::prelude::*;
use crate::counter::{Counter, total};
use crate::clock::{local_day, utc_day, SECS_MAX, SECS_MIN};

verus! {

/// Messages requested per page.
pub const BATCH: usize = 50;

/// Smallest day number the library buckets.
pub const DAY_MIN: i32 = -90_000_000;

/// Largest day number the library buckets.
pub const DAY_MAX: i32 = 90_000_000;

pub open spec fn day_in_range(d: int) -> bool {
    DAY_MIN <= d <= DAY_MAX
}

/// The last day (Sunday) of the Monday-start week holding `day`.
pub open spec fn week_end(day: int) -> int {
    day + 6 - (day - 1) % 7
}

/// Last day of the Monday-start week holding `day`.
pub fn week_end_of(day: i32) -> (r: i32)
    requires
        day_in_range(day as int),
    ensures
        r as int == week_end(day as int),
        day as int <= r as int <= day as int + 6,
{
    let shifted: u64 = (day as i64 - 1 + 7 * 20_000_000) as u64;
    let rem: u64 = shifted % 7;
    proof {
        let x = day as int - 1;
        assert((x + 7 * 20_000_000) % 7 == x % 7) by {
            vstd::arithmetic::div_mod::lemma_mod_multiples_vanish(20_000_000, x, 7);
        }
    }
    (day as i64 + 6 - rem as i64) as i32
}

/// Number of entries of `s` equal to `k`.
pub open spec fn tally(s: Seq<int>, k: int) -> nat
    decreases s.len(),
{
    if s.len() == 0 {
        0
    } else {
        tally(s.drop_last(), k) + if s.last() == k {
            1nat
        } else {
            0nat
        }
    }
}

/// The week key of each day of `s`.
pub open spec fn weeks_of(s: Seq<int>) -> Seq<int> {
    s.map_values(|d: int| week_end(d))
}

pub open spec fn as_ints(s: Seq<i32>) -> Seq<int> {
    s.map_values(|d: i32| d as int)
}

/// Events tallied over two concatenated runs are the sum of each run's tally:
/// no event is lost or doubled where one page ends and the next begins.
pub proof fn lemma_tally_concat(a: Seq<int>, b: Seq<int>, k: int)
    ensures
        tally(a + b, k) == tally(a, k) + tally(b, k),
    decreases b.len(),
{
    if b.len() > 0 {
        assert((a + b).drop_last() =~= a + b.drop_last());
        lemma_tally_concat(a, b.drop_last(), k);
    }
}

/// Buckets the event days into a daily counter and a weekly counter (keyed by
/// the week's last day).
pub fn bucket_events(days: &Vec<i32>) -> (r: (Counter, Counter))
    requires
        forall|i: int| 0 <= i < days@.len() ==> day_in_range(days@[i] as int),
        days@.len() + 2 < u64::MAX,
    ensures
        r.0.wf(),
        r.1.wf(),
        forall|k: int| r.0.count(k) == tally(as_ints(days@), k),
        forall|k: int| r.1.count(k) == tally(weeks_of(as_ints(days@)), k),
        total(r.0@) == days@.len(),
        total(r.1@) == days@.len(),
{
    let mut daily = Counter::new();
    let mut weekly = Counter::new();
    let mut i: usize = 0;
    while i < days.len()
        invariant
            i <= days@.len(),
            days@.len() + 2 < u64::MAX,
            forall|j: int| 0 <= j < days@.len() ==> day_in_range(days@[j] as int),
            daily.wf(),
            weekly.wf(),
            total(daily@) == i,
            total(weekly@) == i,
            forall|k: int| daily.count(k) == tally(as_ints(days@).subrange(0, i as int), k),
            forall|k: int|
                weekly.count(k) == tally(weeks_of(as_ints(days@)).subrange(0, i as int), k),
        decreases days@.len() - i,
    {
        let d = days[i];
        let w = week_end_of(d);
        daily.add(d);
        weekly.add(w);
        proof {
            let a = as_ints(days@);
            let b = weeks_of(a);
            assert(a.subrange(0, i + 1).drop_last() =~= a.subrange(0, i as int));
            assert(b.subrange(0, i + 1).drop_last() =~= b.subrange(0, i as int));
        }
        i = i + 1;
    }
    proof {
        assert(as_ints(days@).subrange(0, days@.len() as int) =~= as_ints(days@));
        assert(weeks_of(as_ints(days@)).subrange(0, days@.len() as int) =~= weeks_of(
            as_ints(days@),
        ));
    }
    (daily, weekly)
}

/// One retrieved message, its timestamp already turned into a local day.
#[derive(Clone, Copy, Debug, PartialEq, Eq, Structural)]
pub struct DatedMessage {
    pub id: u64,
    pub day: i32,
    pub attachments: u64,
}

/// One retrieved message as the platform gives it.
#[derive(Clone, Copy, Debug, PartialEq, Eq, Structural)]
pub struct Message {
    pub id: u64,
    /// Creation time, in seconds since the UNIX epoch.
    pub unix_secs: i64,
    pub attachments: u64,
}

/// Every timestamp of the page lies within the bounds the library turns
/// into days.
pub open spec fn stamps_in_range(page: Seq<Message>) -> bool {
    forall|i: int| 0 <= i < page.len() ==> SECS_MIN <= #[trigger] page[i].unix_secs <= SECS_MAX
}

/// Turns each message's timestamp into its day in the machine's time zone;
/// `None` when a timestamp lies outside the bounds. Which day a timestamp
/// falls on depends on the time zone: it is its UTC day or a neighbour.
pub fn localize(page: &Vec<Message>) -> (r: Option<Vec<DatedMessage>>)
    ensures
        r is Some <==> stamps_in_range(page@),
        r matches Some(v) ==> {
            &&& v@.len() == page@.len()
            &&& forall|i: int|
                0 <= i < page@.len() ==> {
                    &&& v@[i].id == page@[i].id
                    &&& v@[i].attachments == page@[i].attachments
                    &&& utc_day(page@[i].unix_secs as int) - 1 <= v@[i].day <= utc_day(
                        page@[i].unix_secs as int,
                    ) + 1
                    &&& day_in_range(v@[i].day as int)
                }
        },
{
    let mut out: Vec<DatedMessage> = Vec::new();
    let mut i: usize = 0;
    while i < page.len()
        invariant
            i <= page@.len(),
            out@.len() == i,
            forall|j: int| 0 <= j < i ==> SECS_MIN <= #[trigger] page@[j].unix_secs <= SECS_MAX,
            forall|j: int|
                0 <= j < i ==> {
                    &&& out@[j].id == page@[j].id
                    &&& out@[j].attachments == page@[j].attachments
                    &&& utc_day(page@[j].unix_secs as int) - 1 <= out@[j].day <= utc_day(
                        page@[j].unix_secs as int,
                    ) + 1
                    &&& day_in_range(out@[j].day as int)
                },
        decreases page@.len() - i,
    {
        let m = page[i];
        if m.unix_secs < SECS_MIN || m.unix_secs > SECS_MAX {
            return None;
        }
        match local_day(m.unix_secs) {
            Some(day) => {
                proof {
                    let s = m.unix_secs as int;
                    assert(utc_day(s) <= 7_000_000_000_000int / 86_400 + 719_163) by {
                        vstd::arithmetic::div_mod::lemma_div_is_ordered(
                            s,
                            7_000_000_000_000int,
                            86_400,
                        );
                    }
                    assert(utc_day(s) >= -7_000_000_000_000int / 86_400 + 719_163) by {
                        vstd::arithmetic::div_mod::lemma_div_is_ordered(
                            -7_000_000_000_000int,
                            s,
                            86_400,
                        );
                    }
                }
                out.push(DatedMessage { id: m.id, day, attachments: m.attachments });
            },
            None => return None,
        }
        i = i + 1;
    }
    Some(out)
}

/// One event per attachment, at its message's day, in page order.
pub open spec fn event_days(page: Seq<DatedMessage>) -> Seq<i32>
    decreases page.len(),
{
    if page.len() == 0 {
        Seq::empty()
    } else {
        let m = page.last();
        event_days(page.drop_last()) + Seq::new(m.attachments as nat, |j: int| m.day)
    }
}

/// Wherever a run of messages is cut into two pages, the events of the two
/// pages, one after the other, are exactly the events of the run.
pub proof fn lemma_event_days_split(a: Seq<DatedMessage>, b: Seq<DatedMessage>)
    ensures
        event_days(a + b) == event_days(a) + event_days(b),
    decreases b.len(),
{
    if b.len() == 0 {
        assert(a + b =~= a);
        assert(event_days(a) + event_days(b) =~= event_days(a));
    } else {
        assert((a + b).drop_last() =~= a + b.drop_last());
        lemma_event_days_split(a, b.drop_last());
        assert(event_days(a + b) =~= event_days(a) + event_days(b));
    }
}

/// Tallying the days of two runs one after the other adds their tallies.
pub proof fn lemma_tally_days_concat(a: Seq<i32>, b: Seq<i32>, k: int)
    ensures
        tally(as_ints(a + b), k) == tally(as_ints(a), k) + tally(as_ints(b), k),
{
    assert(as_ints(a + b) =~= as_ints(a) + as_ints(b));
    lemma_tally_concat(as_ints(a), as_ints(b), k);
}

/// `n` events on `day` tally `n` for that day and nothing for any other.
pub proof fn lemma_tally_repeat(n: nat, day: i32, k: int)
    ensures
        tally(as_ints(Seq::new(n, |j: int| day)), k) == if day as int == k {
            n
        } else {
            0
        },
    decreases n,
{
    if n > 0 {
        assert(as_ints(Seq::new(n, |j: int| day)).drop_last() =~= as_ints(
            Seq::new((n - 1) as nat, |j: int| day),
        ));
        lemma_tally_repeat((n - 1) as nat, day, k);
    }
}

/// Whichever page a message lands on, and wherever the pages are cut around
/// it, it adds exactly its attachment count to its own day and nothing to
/// any other day.
pub proof fn lemma_message_counts_once(
    a: Seq<DatedMessage>,
    m: DatedMessage,
    b: Seq<DatedMessage>,
    k: int,
)
    ensures
        tally(as_ints(event_days(a.push(m) + b)), k) == tally(as_ints(event_days(a)), k) + (if m.day
            as int == k {
            m.attachments as nat
        } else {
            0
        }) + tally(as_ints(event_days(b)), k),
{
    lemma_event_days_split(a.push(m), b);
    assert(a.push(m).drop_last() =~= a);
    let r = Seq::new(m.attachments as nat, |j: int| m.day);
    assert(event_days(a.push(m)) == event_days(a) + r);
    lemma_tally_days_concat(event_days(a) + r, event_days(b), k);
    lemma_tally_days_concat(event_days(a), r, k);
    lemma_tally_repeat(m.attachments as nat, m.day, k);
}

pub open spec fn days_in_range(page: Seq<DatedMessage>) -> bool {
    forall|i: int| 0 <= i < page.len() ==> day_in_range(page[i].day as int)
}

/// Walk state after a page of `len` messages, from whether the previous
/// page was empty: (history exhausted, this page was empty).
pub open spec fn step(after_empty: bool, len: nat) -> (bool, bool) {
    (len < BATCH && (len > 0 || after_empty), len == 0)
}

/// Walk state after pages of the given lengths, from a fresh walk; pages
/// after the walk ended change nothing.
pub open spec fn walk(lens: Seq<nat>) -> (bool, bool)
    decreases lens.len(),
{
    if lens.len() == 0 {
        (false, false)
    } else {
        let s = walk(lens.drop_last());
        if s.0 {
            s
        } else {
            step(s.1, lens.last())
        }
    }
}

/// Page `i` is a terminal page: shorter than the batch, and either not
/// empty or the second empty page in a row.
pub open spec fn ends_walk(lens: Seq<nat>, i: int) -> bool {
    lens[i] < BATCH && (lens[i] > 0 || (i > 0 && lens[i - 1] == 0))
}

/// A walk ends exactly when some page is terminal; in particular a run of
/// full pages never ends it.
pub proof fn lemma_walk_ends(lens: Seq<nat>)
    ensures
        walk(lens).0 <==> exists|i: int| 0 <= i < lens.len() && ends_walk(lens, i),
        !walk(lens).0 ==> walk(lens).1 == (lens.len() > 0 && lens.last() == 0),
        (forall|i: int| 0 <= i < lens.len() ==> lens[i] >= BATCH) ==> !walk(lens).0,
    decreases lens.len(),
{
    if lens.len() > 0 {
        let p = lens.drop_last();
        lemma_walk_ends(p);
        let n = lens.len() - 1;
        if walk(p).0 {
            let i = choose|i: int| 0 <= i < p.len() && ends_walk(p, i);
            assert(lens[i] == p[i]);
            if i > 0 {
                assert(lens[i - 1] == p[i - 1]);
            }
            assert(ends_walk(lens, i));
        } else {
            if n > 0 {
                assert(p.last() == lens[n - 1]);
            }
            assert forall|i: int| 0 <= i < n implies !ends_walk(lens, i) by {
                assert(lens[i] == p[i]);
                if i > 0 {
                    assert(lens[i - 1] == p[i - 1]);
                }
                assert(!ends_walk(p, i));
            }
            if walk(lens).0 {
                assert(ends_walk(lens, n));
            } else {
                assert(!ends_walk(lens, n));
            }
        }
    }
}

/// Why a page could not be taken in.
#[derive(Clone, Copy, Debug, PartialEq, Eq, Structural)]
pub enum PageError {
    /// A message's day lies outside the range the counters bucket.
    DayOutOfRange,
    /// The events seen so far would no longer fit the counters.
    TooManyEvents,
}

/// State of the walk through one channel's history, newest page first.
pub struct Pager {
    /// Id of the oldest message seen so far: the next page is the one before it.
    pub before: Option<u64>,
    /// The last page taken in was empty.
    pub after_empty: bool,
    /// History is exhausted.
    pub finished: bool,
    /// One day per attachment seen so far.
    pub days: Vec<i32>,
}

impl Pager {
    pub open spec fn wf(&self) -> bool {
        &&& forall|i: int| 0 <= i < self.days@.len() ==> day_in_range(self.days@[i] as int)
        &&& self.days@.len() + 2 < u64::MAX
    }

    /// A walk that has fetched nothing yet.
    pub fn new() -> (r: Pager)
        ensures
            r.wf(),
            r.before is None,
            !r.after_empty,
            !r.finished,
            r.days@.len() == 0,
    {
        Pager { before: None, after_empty: false, finished: false, days: Vec::new() }
    }

    /// Takes in one fetched page. A page shorter than the batch ends the walk;
    /// an empty page is retried once from the same cursor, and a second empty
    /// page in a row ends the walk.
    pub fn take_page(&mut self, page: &Vec<DatedMessage>) -> (r: Result<(), PageError>)
        requires
            old(self).wf(),
            !old(self).finished,
        ensures
            final(self).wf(),
            r == Err::<(), PageError>(PageError::DayOutOfRange) <==> !days_in_range(page@),
            r == Err::<(), PageError>(PageError::TooManyEvents) <==> days_in_range(page@)
                && old(self).days@.len() + event_days(page@).len() + 2 >= u64::MAX,
            r is Ok <==> days_in_range(page@) && old(self).days@.len() + event_days(page@).len() + 2
                < u64::MAX,
            r is Err ==> *final(self) == *old(self),
            r is Ok ==> {
                &&& (final(self).finished, final(self).after_empty) == step(
                    old(self).after_empty,
                    page@.len(),
                )
                &&& final(self).days@ == old(self).days@ + event_days(page@)
                &&& final(self).finished == (page@.len() < BATCH && (page@.len() > 0
                    || old(self).after_empty))
                &&& final(self).after_empty == (page@.len() == 0)
                &&& page@.len() == 0 ==> final(self).before == old(self).before
                &&& page@.len() > 0 ==> final(self).before == Some(page@.last().id)
            },
    {
        let mut i: usize = 0;
        while i < page.len()
            invariant
                old(self).wf(),
                *self == *old(self),
                i <= page@.len(),
                days_in_range(page@.subrange(0, i as int)),
            decreases page@.len() - i,
        {
            if page[i].day < DAY_MIN || page[i].day > DAY_MAX {
                assert(!day_in_range(page@[i as int].day as int));
                return Err(PageError::DayOutOfRange);
            }
            proof {
                assert forall|j: int| 0 <= j < i + 1 implies day_in_range(
                    #[trigger] page@.subrange(0, i + 1)[j].day as int,
                ) by {
                    if j < i {
                        assert(page@.subrange(0, i + 1)[j] == page@.subrange(0, i as int)[j]);
                    }
                }
            }
            i = i + 1;
        }
        proof {
            assert(page@.subrange(0, page@.len() as int) =~= page@);
        }
        let mut i: usize = 0;
        let mut events: u64 = self.days.len() as u64;
        while i < page.len()
            invariant
                old(self).wf(),
                *self == *old(self),
                days_in_range(page@),
                i <= page@.len(),
                events == self.days@.len() + event_days(page@.subrange(0, i as int)).len(),
                events + 2 < u64::MAX,
            decreases page@.len() - i,
        {
            let m = page[i];
            proof {
                lemma_events_prefix(page@, i as int + 1);
            }
            if m.attachments >= u64::MAX - 2 - events {
                return Err(PageError::TooManyEvents);
            }
            events = events + m.attachments;
            i = i + 1;
        }
        proof {
            assert(page@.subrange(0, page@.len() as int) =~= page@);
        }
        let ghost start = self.days@;
        let mut i: usize = 0;
        while i < page.len()
            invariant
                i <= page@.len(),
                self.days@ == start + event_days(page@.subrange(0, i as int)),
                start.len() + event_days(page@).len() + 2 < u64::MAX,
                days_in_range(page@),
                old(self).wf(),
                start == old(self).days@,
                self.before == old(self).before,
                self.after_empty == old(self).after_empty,
                self.finished == old(self).finished,
            decreases page@.len() - i,
        {
            let m = page[i];
            proof {
                assert(page@.subrange(0, i + 1).drop_last() =~= page@.subrange(0, i as int));
                lemma_events_prefix(page@, i as int + 1);
            }
            let ghost before_msg = self.days@;
            let mut k: u64 = 0;
            while k < m.attachments
                invariant
                    k <= m.attachments,
                    self.days@ == before_msg + Seq::new(k as nat, |j: int| m.day),
                    self.before == old(self).before,
                    self.after_empty == old(self).after_empty,
                    self.finished == old(self).finished,
                decreases m.attachments - k,
            {
                self.days.push(m.day);
                proof {
                    assert(Seq::new((k + 1) as nat, |j: int| m.day) =~= Seq::new(
                        k as nat,
                        |j: int| m.day,
                    ).push(m.day));
                }
                k = k + 1;
            }
            proof {
                assert(self.days@ =~= start + event_days(page@.subrange(0, i + 1)));
            }
            i = i + 1;
        }
        proof {
            assert(page@.subrange(0, page@.len() as int) =~= page@);
            assert forall|j: int| 0 <= j < self.days@.len() implies day_in_range(
                self.days@[j] as int,
            ) by {
                if j >= start.len() {
                    lemma_event_day_in_page(page@, j - start.len());
                }
            }
        }
        if page.len() == 0 {
            self.finished = self.after_empty;
            self.after_empty = true;
        } else {
            self.before = Some(page[page.len() - 1].id);
            self.finished = page.len() < BATCH;
            self.after_empty = false;
        }
        Ok(())
    }
}

impl Pager {
    /// The daily and weekly counters of every attachment seen so far.
    pub fn counters(&self) -> (r: (Counter, Counter))
        requires
            self.wf(),
        ensures
            r.0.wf(),
            r.1.wf(),
            forall|k: int| r.0.count(k) == tally(as_ints(self.days@), k),
            forall|k: int| r.1.count(k) == tally(weeks_of(as_ints(self.days@)), k),
            total(r.0@) == self.days@.len(),
            total(r.1@) == self.days@.len(),
    {
        bucket_events(&self.days)
    }
}

/// The events of a prefix of a page are no more than the page's events.
proof fn lemma_events_prefix(page: Seq<DatedMessage>, n: int)
    requires
        0 <= n <= page.len(),
    ensures
        event_days(page.subrange(0, n)).len() <= event_days(page).len(),
        n > 0 ==> event_days(page.subrange(0, n - 1)).len() + page[n - 1].attachments
            == event_days(page.subrange(0, n)).len(),
    decreases page.len() - n,
{
    if n > 0 {
        assert(page.subrange(0, n).drop_last() =~= page.subrange(0, n - 1));
    }
    if n < page.len() {
        lemma_events_prefix(page, n + 1);
        assert(page.subrange(0, n + 1).drop_last() =~= page.subrange(0, n));
    } else {
        assert(page.subrange(0, n) =~= page);
    }
}

/// Every event day of a page is the day of one of its messages.
proof fn lemma_event_day_in_page(page: Seq<DatedMessage>, j: int)
    requires
        0 <= j < event_days(page).len(),
        days_in_range(page),
    ensures
        day_in_range(event_days(page)[j] as int),
    decreases page.len(),
{
    let p = page.drop_last();
    assert(days_in_range(p)) by {
        assert forall|i: int| 0 <= i < p.len() implies day_in_range(p[i].day as int) by {
            assert(p[i] == page[i]);
        }
    }
    if j < event_days(p).len() {
        lemma_event_day_in_page(p, j);
    }
}

} // verus!
