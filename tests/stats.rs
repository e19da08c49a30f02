use attachment_stats::chart::{plan_chart, plan_chart_now};
use attachment_stats::clock::{SECS_MAX, SECS_MIN};
use attachment_stats::counter::Counter;
use attachment_stats::naming::{chart_captions, chart_files, clean_name, display_name, file_stem, underscore_spaces};
use attachment_stats::reduce::{bucket_events, localize, week_end_of, DatedMessage, Message, PageError, Pager, BATCH};
use attachment_stats::select::{find_channel, select_channels, ChannelInfo};
use chrono::{Datelike, DateTime, Local, NaiveDate, Utc, Weekday};

fn day(y: i32, m: u32, d: u32) -> i32 {
    NaiveDate::from_ymd_opt(y, m, d).unwrap().num_days_from_ce()
}

fn counter_of(pairs: &[(i32, u64)]) -> Counter {
    let mut c = Counter::new();
    for &(d, n) in pairs {
        for _ in 0..n {
            c.add(d);
        }
    }
    c
}

fn messages(first_id: u64, n: usize, d: i32, attachments: u64) -> Vec<DatedMessage> {
    (0..n)
        .map(|k| DatedMessage { id: first_id - k as u64, day: d, attachments })
        .collect()
}

#[test]
fn counter_add_keeps_days_sorted() {
    let c = counter_of(&[(day(2024, 1, 12), 1), (day(2024, 1, 10), 2), (day(2024, 1, 11), 1)]);
    assert_eq!(c.len(), 3);
    assert_eq!(
        c.entries(),
        &vec![(day(2024, 1, 10), 2), (day(2024, 1, 11), 1), (day(2024, 1, 12), 1)]
    );
    assert_eq!(c.get(day(2024, 1, 10)), 2);
    assert_eq!(c.get(day(2024, 1, 9)), 0);
    assert!(Counter::new().is_empty());
}

#[test]
fn week_end_matches_chrono() {
    for (y, m, d) in [(2024, 1, 10), (2024, 1, 14), (2024, 1, 15), (1970, 1, 1), (1, 1, 1), (-5, 3, 2)] {
        let date = NaiveDate::from_ymd_opt(y, m, d).unwrap();
        let expected = date.week(Weekday::Mon).last_day().num_days_from_ce();
        assert_eq!(week_end_of(date.num_days_from_ce()), expected);
    }
    assert_eq!(week_end_of(day(2024, 1, 10)), day(2024, 1, 14));
}

#[test]
fn daily_and_weekly_totals_equal_event_count() {
    let days = vec![day(2024, 1, 10), day(2024, 1, 10), day(2024, 1, 11), day(2024, 1, 15), day(2023, 12, 31)];
    let (daily, weekly) = bucket_events(&days);
    let sum = |c: &Counter| c.entries().iter().map(|e| e.1).sum::<u64>();
    assert_eq!(sum(&daily), 5);
    assert_eq!(sum(&weekly), 5);
    assert_eq!(daily.get(day(2024, 1, 10)), 2);
    assert_eq!(weekly.get(day(2024, 1, 14)), 3);
    assert_eq!(weekly.get(day(2024, 1, 21)), 1);
    assert_eq!(weekly.get(day(2023, 12, 31)), 1);
}

#[test]
fn same_day_across_a_page_boundary_counts_each_event_once() {
    let d = day(2024, 3, 5);
    let mut pager = Pager::new();
    pager.take_page(&messages(1000, BATCH, d, 1)).unwrap();
    assert!(!pager.finished);
    pager.take_page(&messages(950, 3, d, 2)).unwrap();
    assert!(pager.finished);
    let (daily, _) = pager.counters();
    assert_eq!(daily.get(d), 56);
    assert_eq!(daily.len(), 1);
}

#[test]
fn sixty_messages_take_two_pages() {
    let d = day(2024, 2, 1);
    let all = messages(500, 60, d, 1);
    let mut pager = Pager::new();
    let mut pages = 0;
    while !pager.finished {
        let start = match pager.before {
            None => 0,
            Some(id) => all.iter().position(|m| m.id == id).unwrap() + 1,
        };
        let end = (start + BATCH).min(all.len());
        pager.take_page(&all[start..end].to_vec()).unwrap();
        pages += 1;
    }
    assert_eq!(pages, 2);
    assert_eq!(pager.before, Some(441));
    let (daily, weekly) = pager.counters();
    assert_eq!(daily.entries().iter().map(|e| e.1).sum::<u64>(), 60);
    assert_eq!(weekly.entries().iter().map(|e| e.1).sum::<u64>(), 60);
}

#[test]
fn full_pages_never_finish() {
    let mut pager = Pager::new();
    for k in 0..5u64 {
        pager.take_page(&messages(10_000 - 50 * k, BATCH, day(2024, 1, 1), 0)).unwrap();
        assert!(!pager.finished);
    }
    assert_eq!(pager.before, Some(10_000 - 200 - 49));
}

#[test]
fn empty_page_is_retried_once() {
    let mut pager = Pager::new();
    pager.take_page(&vec![]).unwrap();
    assert!(!pager.finished);
    assert!(pager.after_empty);
    assert_eq!(pager.before, None);
    pager.take_page(&messages(90, BATCH, day(2024, 1, 1), 1)).unwrap();
    assert!(!pager.finished);
    assert!(!pager.after_empty);
    pager.take_page(&vec![]).unwrap();
    assert!(!pager.finished);
    pager.take_page(&vec![]).unwrap();
    assert!(pager.finished);
}

#[test]
fn channel_without_messages_gives_empty_counters() {
    let mut pager = Pager::new();
    pager.take_page(&vec![]).unwrap();
    pager.take_page(&vec![]).unwrap();
    assert!(pager.finished);
    let (daily, weekly) = pager.counters();
    assert!(daily.is_empty());
    assert!(weekly.is_empty());
}

#[test]
fn page_errors() {
    let mut pager = Pager::new();
    let bad = vec![DatedMessage { id: 1, day: i32::MAX, attachments: 1 }];
    assert_eq!(pager.take_page(&bad), Err(PageError::DayOutOfRange));
    let huge = vec![DatedMessage { id: 1, day: 1, attachments: u64::MAX }];
    assert_eq!(pager.take_page(&huge), Err(PageError::TooManyEvents));
    assert!(pager.days.is_empty());
    assert!(!pager.finished);
}

#[test]
fn empty_counter_chart() {
    let today = day(2024, 2, 1);
    let plan = plan_chart(&Counter::new(), today, day(2023, 11, 1));
    assert_eq!(plan.y_max, 12);
    assert_eq!(plan.x_first, today);
    assert_eq!(plan.x_last, today);
    assert_eq!(plan.x_labels, 1);
    assert!(plan.points.is_empty());
}

#[test]
fn single_entry_chart() {
    let d = day(2024, 1, 10);
    let plan = plan_chart(&counter_of(&[(d, 5)]), day(2024, 2, 1), day(2023, 11, 1));
    assert_eq!(plan.points, vec![(d, 5)]);
    assert_eq!(plan.y_max, 7);
    assert_eq!(plan.x_first, d);
    assert_eq!(plan.x_labels, 2);
}

#[test]
fn chart_window_drops_old_and_future_buckets() {
    let today = day(2024, 6, 5);
    let start = day(2024, 3, 5);
    let c = counter_of(&[(day(2023, 1, 1), 9), (day(2024, 4, 1), 2), (today, 1), (day(2024, 6, 9), 4)]);
    let plan = plan_chart(&c, today, start);
    assert_eq!(plan.points, vec![(day(2024, 4, 1), 2), (today, 1)]);
    assert_eq!(plan.x_first, start);
    assert_eq!(plan.y_max, 11);
    assert_eq!(c.len(), 4);
}

#[test]
fn chart_label_count() {
    let today = day(2024, 6, 5);
    let make = |n: i32| counter_of(&(0..n).map(|k| (today - k, 1)).collect::<Vec<_>>());
    assert_eq!(plan_chart(&make(15), today, today - 90).x_labels, 16);
    assert_eq!(plan_chart(&make(20), today, today - 90).x_labels, 10);
    assert_eq!(plan_chart(&make(100), today, today - 90).x_labels, 30);
}

#[test]
fn chart_plan_is_repeatable() {
    let c = counter_of(&[(day(2024, 5, 1), 3), (day(2024, 5, 2), 1)]);
    let a = plan_chart(&c, day(2024, 6, 1), day(2024, 3, 1));
    let b = plan_chart(&c, day(2024, 6, 1), day(2024, 3, 1));
    assert_eq!(a.points, b.points);
    assert_eq!((a.x_first, a.x_last, a.y_max, a.x_labels), (b.x_first, b.x_last, b.y_max, b.x_labels));
}

#[test]
fn chart_now_uses_today_and_three_months_back() {
    let before = Utc::now().date_naive();
    let first_start = before.checked_sub_months(chrono::Months::new(3)).unwrap();
    let old = first_start.num_days_from_ce() - 5;
    let c = counter_of(&[(old, 2), (before.num_days_from_ce(), 1)]);
    let plan = plan_chart_now(&c).unwrap();
    let after = Utc::now().date_naive();
    assert!(plan.x_last == before.num_days_from_ce() || plan.x_last == after.num_days_from_ce());
    let today = NaiveDate::from_num_days_from_ce_opt(plan.x_last).unwrap();
    let start = today.checked_sub_months(chrono::Months::new(3)).unwrap();
    assert_eq!(plan.x_first, start.num_days_from_ce());
    assert_eq!(plan.points, vec![(before.num_days_from_ce(), 1)]);
}

#[test]
fn localize_uses_local_calendar_day() {
    let secs = 1_704_888_000i64;
    let page = vec![Message { id: 7, unix_secs: secs, attachments: 3 }];
    let dated = localize(&page).unwrap();
    let expected = DateTime::from_timestamp(secs, 0).unwrap().with_timezone(&Local).date_naive();
    assert_eq!(dated, vec![DatedMessage { id: 7, day: expected.num_days_from_ce(), attachments: 3 }]);
    assert_eq!(localize(&vec![Message { id: 1, unix_secs: i64::MAX, attachments: 1 }]), None);
}

#[test]
fn localize_bounds() {
    assert_eq!(localize(&vec![]), Some(vec![]));
    let edge = vec![
        Message { id: 1, unix_secs: SECS_MAX, attachments: 1 },
        Message { id: 2, unix_secs: SECS_MIN, attachments: 2 },
    ];
    let dated = localize(&edge).unwrap();
    let utc_max = SECS_MAX.div_euclid(86_400) as i32 + 719_163;
    assert!((dated[0].day - utc_max).abs() <= 1);
    assert_eq!(dated[1].attachments, 2);
    let outside = vec![
        Message { id: 1, unix_secs: 0, attachments: 1 },
        Message { id: 2, unix_secs: SECS_MAX + 1, attachments: 1 },
    ];
    assert_eq!(localize(&outside), None);
    assert_eq!(localize(&vec![Message { id: 3, unix_secs: SECS_MIN - 1, attachments: 0 }]), None);
}

#[test]
fn names_are_cleaned_and_title_cased() {
    assert_eq!(clean_name("\u{1F3A8}-art-gallery "), "art gallery");
    assert_eq!(clean_name("  "), "");
    assert_eq!(display_name("\u{1F3A8}-art-gallery"), "Art Gallery");
    assert_eq!(display_name("daily-sketches"), "Daily Sketches");
}

#[test]
fn file_names_and_captions() {
    assert_eq!(underscore_spaces("a b c"), "a_b_c");
    assert_eq!(file_stem("Art Gallery"), "art_gallery");
    let (d, w) = chart_files("Art Gallery");
    assert_eq!(d, "art_gallery_daily.png");
    assert_eq!(w, "art_gallery_weekly.png");
    let (d, w) = chart_captions("Art Gallery");
    assert_eq!(d, "Art Gallery Daily");
    assert_eq!(w, "Art Gallery Weekly");
}

fn channel(id: u64, name: &str, text: bool) -> ChannelInfo {
    ChannelInfo { id, name: name.to_string(), text }
}

#[test]
fn missing_tracked_channel_is_reported_and_others_kept() {
    let live = vec![channel(1, "general", true), channel(2, "art", true), channel(3, "voice", false), channel(4, "photos", true)];
    let to_track = vec!["art".to_string(), "gone".to_string(), "voice".to_string(), "photos".to_string()];
    let s = select_channels(&to_track, &live);
    assert_eq!(s.process, vec![1, 3]);
    assert_eq!(s.not_text, vec![2]);
    assert_eq!(s.missing, vec![1]);
}

#[test]
fn output_channel_lookup() {
    let live = vec![channel(1, "general", true), channel(2, "stats", true), channel(3, "stats", true)];
    assert_eq!(find_channel(&live, &"stats".to_string()), Some(1));
    assert_eq!(find_channel(&live, &"summary".to_string()), None);
}
