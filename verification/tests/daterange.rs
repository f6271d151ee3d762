//! Ranges of dates and the bars they select.

use fugazi::daterange::{short_warmup_warning, DateRange, Slice};

fn labels(days: &[&str]) -> Vec<String> {
    days.iter().map(|s| s.to_string()).collect()
}

/// Ten consecutive days, `2024-01-01` … `2024-01-10`.
fn ten_days() -> Vec<String> {
    (1..=10).map(|d| format!("2024-01-{d:02}")).collect()
}

#[test]
fn absent_flags_parse_to_nothing() {
    assert_eq!(DateRange::parse(None, None, false).unwrap(), None);
}

#[test]
fn strict_without_from_is_refused() {
    let err = DateRange::parse(None, None, true).unwrap_err();
    assert!(err.contains("--strict-from"), "{err}");
}

#[test]
fn an_unparseable_bound_names_the_flag_and_the_value() {
    let err = DateRange::parse(Some("last tuesday"), None, false)
        .unwrap_err();
    assert!(err.contains("--from last tuesday"), "{err}");
}

#[test]
fn until_at_or_before_from_is_refused() {
    for until in ["2024-01-01", "2023-12-31"] {
        assert!(DateRange::parse(Some("2024-01-01"), Some(until), false).is_err());
    }
}

/// The half-open contract, stated as the property the docs promise:
/// splitting at a date must partition the bars exactly.
#[test]
fn adjacent_ranges_tile_without_overlap_or_gap() {
    let bars = ten_days();
    let dev = DateRange::parse(None, Some("2024-01-06"), false)
        .unwrap()
        .unwrap()
        .resolve(&bars, 0)
        .unwrap();
    let holdout = DateRange::parse(Some("2024-01-06"), None, true)
        .unwrap()
        .unwrap()
        .resolve(&bars, 0)
        .unwrap();
    assert_eq!(dev.eval_start..dev.end, 0..5);
    assert_eq!(holdout.eval_start..holdout.end, 5..10);
    let evaluated = (dev.end - dev.eval_start) + (holdout.end - holdout.eval_start);
    assert_eq!(evaluated, bars.len(), "every bar lands in exactly one side");
}

#[test]
fn from_reads_back_exactly_the_warm_up_it_needs() {
    let bars = ten_days();
    let slice = DateRange::parse(Some("2024-01-08"), None, false)
        .unwrap()
        .unwrap()
        .resolve(&bars, 3)
        .unwrap();
    // Evaluation still begins where it was asked to...
    assert_eq!(slice.eval_start, 7);
    // ...and exactly three bars before it are fed to warm the chains.
    assert_eq!(slice.warm_start, 4);
    assert_eq!(slice.warmup_bars(), 3);
    assert_eq!(slice.fed(), (4, 10));
}

#[test]
fn strict_from_starts_cold_at_the_boundary() {
    let bars = ten_days();
    let slice = DateRange::parse(Some("2024-01-08"), None, true)
        .unwrap()
        .unwrap()
        .resolve(&bars, 3)
        .unwrap();
    assert_eq!(slice.warm_start, 7);
    assert_eq!(slice.eval_start, 7);
    assert_eq!(slice.warmup_bars(), 0);
}

/// The "warn and start late" branch: too little history before `--from`, so
/// evaluation slips to the first settled bar rather than reporting numbers
/// measured on a cold chain.
#[test]
fn insufficient_history_starts_late_rather_than_unsettled() {
    let bars = ten_days();
    let range = DateRange::parse(Some("2024-01-03"), None, false)
        .unwrap()
        .unwrap();
    // Only 2 bars precede 2024-01-03, but 5 are needed: read back to the
    // start of the series and let evaluation slip to the first settled bar.
    let slice = range.resolve(&bars, 5).unwrap();
    assert_eq!(slice.warm_start, 0, "reads back as far as the series goes");
    assert_eq!(slice.eval_start, 5, "and starts late, once settled");
    assert_eq!(slice.warmup_bars(), 5);
    assert_eq!(slice.requested, 2);

    let warn = short_warmup_warning(&slice, &bars, "2024-01-03", 5)
        .expect("evaluation slipped, so the run must say so");
    assert!(
        warn.contains("only 2 bars"),
        "counts the real history: {warn}"
    );
    assert!(warn.contains("2024-01-06"), "names the real start: {warn}");
}

/// The complement: enough history to warm fully, so evaluation begins
/// exactly where it was asked to and there is nothing to warn about.
#[test]
fn a_full_read_back_warns_about_nothing() {
    let bars = ten_days();
    let slice = DateRange::parse(Some("2024-01-06"), None, false)
        .unwrap()
        .unwrap()
        .resolve(&bars, 5)
        .unwrap();
    assert_eq!(slice.eval_start, slice.requested);
    assert_eq!(slice.warmup_bars(), 5);
    assert!(short_warmup_warning(&slice, &bars, "2024-01-06", 5).is_none());
}

#[test]
fn an_empty_selection_is_an_error_not_a_degenerate_run() {
    let bars = ten_days();
    let err = DateRange::parse(Some("2025-01-01"), None, false)
        .unwrap()
        .unwrap()
        .resolve(&bars, 0)
        .unwrap_err();
    assert!(err.contains("2024-01-01 → 2024-01-10"), "{err}");
}

/// Bounds need not fall on a bar: `--from` snaps forward to the first bar
/// at or after it, `--until` to the first bar at or after it (exclusive).
#[test]
fn bounds_between_bars_snap_to_the_enclosing_range() {
    let bars = labels(&["2024-01-01", "2024-01-10", "2024-01-20"]);
    let slice = DateRange::parse(Some("2024-01-05"), Some("2024-01-15"), true)
        .unwrap()
        .unwrap()
        .resolve(&bars, 0)
        .unwrap();
    assert_eq!(slice.eval_start..slice.end, 1..2);
}

/// Datetime bounds against date labels, and the reverse — the two spellings
/// have to compare on the same axis or a slice silently shifts a day.
#[test]
fn date_and_datetime_spellings_agree() {
    let bars = ten_days();
    let by_date = DateRange::parse(Some("2024-01-05"), None, true)
        .unwrap()
        .unwrap()
        .resolve(&bars, 0)
        .unwrap();
    let by_stamp = DateRange::parse(Some("2024-01-05T00:00:00Z"), None, true)
        .unwrap()
        .unwrap()
        .resolve(&bars, 0)
        .unwrap();
    assert_eq!(by_date, by_stamp);
}

/// What lies before the range warms up exactly as much as is asked for.
#[test]
fn inner_ranges_tile_too() {
    let bars = ten_days();
    let first = DateRange::parse(Some("2024-01-02"), Some("2024-01-04"), true)
        .unwrap()
        .unwrap()
        .resolve(&bars, 0)
        .unwrap();
    let second = DateRange::parse(Some("2024-01-04"), Some("2024-01-07"), true)
        .unwrap()
        .unwrap()
        .resolve(&bars, 0)
        .unwrap();
    assert_eq!((first.eval_start, first.end), (1, 3));
    assert_eq!((second.eval_start, second.end), (3, 6));
}

#[test]
fn everything_is_fed_without_a_range() {
    let slice = Slice::everything(4);
    assert_eq!(slice.fed(), (0, 4));
    assert_eq!(slice.warmup_bars(), 0);
    assert!(slice.is_everything(4));
    assert!(!slice.is_everything(5));
}

#[test]
fn only_a_lax_start_reads_back() {
    let lax = DateRange::parse(Some("2024-01-08"), None, false).unwrap().unwrap();
    let strict = DateRange::parse(Some("2024-01-08"), None, true).unwrap().unwrap();
    let open = DateRange::parse(None, Some("2024-01-08"), false).unwrap().unwrap();
    assert!(lax.reads_back());
    assert!(!strict.reads_back());
    assert!(!open.reads_back());
}

/// A strict range needs its first bound, whatever the other is.
#[test]
fn strict_with_until_alone_is_refused() {
    for until in [Some("2024-01-06"), Some("soon"), None] {
        let err = DateRange::parse(None, until, true).unwrap_err();
        assert!(err.contains("--strict-from"), "{err}");
    }
    assert!(DateRange::parse(None, Some("2024-01-06"), false).unwrap().is_some());
}

/// A start that slipped behind the last bar is warned about too.
#[test]
fn a_start_behind_the_last_bar_is_warned_about() {
    let bars = ten_days();
    let slice = DateRange::parse(Some("2024-01-03"), None, false)
        .unwrap()
        .unwrap()
        .resolve(&bars, 50)
        .unwrap();
    assert_eq!(slice.eval_start, bars.len());
    assert_eq!(
        short_warmup_warning(&slice, &bars, "2024-01-03", 50).unwrap(),
        "only 2 bars precede `--from 2024-01-03`, but 50 bars are needed to settle this \
         strategy; no bar is left to evaluate"
    );
}
