//! The cadences of a frame's series, and what is said about them.

use fugazi::cadence::{Census, Finding, Resolution, Series, Stated, MIN_BARS_TO_ACCUSE};
use fugazi::calendar::ScopedFrequency;
use fugazi::frequency::Frequency;

const HOUR: i64 = 3_600_000;
const DAY: i64 = 86_400_000;

/// `n` stamps spaced `step` apart, starting at an arbitrary fixed epoch.
fn spaced(step: i64, n: usize) -> Vec<i64> {
    (0..n as i64)
        .map(|i| 1_704_067_200_000 + i * step)
        .collect()
}

/// A group whose cadence is unambiguous and matches its label — the shape
/// most of these tests want everywhere except the one place under test.
fn honest(symbol: &str, freq: &str, step: i64) -> Series {
    Series::new(symbol, freq, &spaced(step, 40))
}

/// `-f/--frequency` entries from their CLI spellings.
fn flags(specs: &[&str]) -> Vec<ScopedFrequency> {
    specs
        .iter()
        .map(|s| s.parse().expect("test flag parses"))
        .collect()
}

fn kept(res: &Resolution) -> Vec<(&str, &str)> {
    res.keep
        .iter()
        .map(|(s, f)| (s.as_str(), f.as_str()))
        .collect()
}

// ---------------------------------------------------------------- Series

#[test]
fn a_group_reads_its_label_and_its_gaps_independently() {
    let s = Series::new("BTC", "1d", &spaced(DAY, 30));
    assert_eq!(s.declared, Some(Frequency::Day(1)));
    assert_eq!(s.detected, Some(Frequency::Day(1)));
    assert_eq!(s.effective(), Some(Frequency::Day(1)));
    assert_eq!(s.bars, 30);
    assert!(s.is_labelled());
    assert_eq!(s.label(), "1d");
}

/// The label wins over the gaps — a provider that told us the cadence
/// outranks arithmetic on the bars it sent.
#[test]
fn a_label_outranks_the_detected_spacing() {
    let s = Series::new("BTC", "1d", &spaced(HOUR, 30));
    assert_eq!(s.effective(), Some(Frequency::Day(1)));
    assert_eq!(s.detected, Some(Frequency::Hour(1)));
}

#[test]
fn an_untagged_group_falls_back_to_its_gaps() {
    let s = Series::new("BTC", "", &spaced(HOUR, 30));
    assert!(!s.is_labelled());
    assert_eq!(s.declared, None);
    assert_eq!(s.effective(), Some(Frequency::Hour(1)));
    assert_eq!(s.label(), "<untagged>");
}

/// A cell `Frequency` cannot parse is still a *label* — the group is
/// tagged, we just don't know as what. Reading `declared.is_none()` as
/// "untagged" would silently fold it in with the unlabelled rows.
#[test]
fn an_unparseable_label_is_labelled_but_undeclared() {
    let s = Series::new("BTC", "weekly", &spaced(DAY * 7, 30));
    assert!(s.is_labelled());
    assert_eq!(s.declared, None);
    assert_eq!(s.effective(), Some(Frequency::Week(1)));
    assert_eq!(s.label(), "weekly");
}

#[test]
fn one_bar_detects_nothing() {
    let s = Series::new("BTC", "", &spaced(DAY, 1));
    assert_eq!(s.detected, None);
    assert_eq!(s.effective(), None);
    assert_eq!(s.bars, 1);
}

/// `1M` is a month and `1m` is a minute. Case-folding the cell anywhere in
/// this pipeline would fuse two cadences four orders of magnitude apart.
#[test]
fn month_and_minute_are_not_the_same_label() {
    assert_eq!(
        Series::new("X", "1M", &[]).declared,
        Some(Frequency::Month(1))
    );
    assert_eq!(
        Series::new("X", "1m", &[]).declared,
        Some(Frequency::Minute(1))
    );
    let census = Census::from_groups(vec![
        Series::new("X", "1M", &spaced(DAY * 30, 20)),
        Series::new("X", "1m", &spaced(60_000, 20)),
    ]);
    assert_eq!(census.groups_of("X").len(), 2);
}

// ------------------------------------------------------- the quiet cases

#[test]
fn a_single_labelled_series_resolves_silently() {
    let res = Census::from_groups(vec![honest("BTC", "1d", DAY)]).resolve(&[]);
    assert_eq!(kept(&res), [("BTC", "1d")]);
    assert_eq!(res.findings, []);
}

#[test]
fn a_single_untagged_series_resolves_silently() {
    let res = Census::from_groups(vec![honest("BTC", "", DAY)]).resolve(&[]);
    assert_eq!(kept(&res), [("BTC", "")]);
    assert_eq!(res.findings, []);
}

/// Every symbol at one cadence is the ordinary case, however many there
/// are — nothing to say.
#[test]
fn a_uniform_universe_says_nothing() {
    let res = Census::from_groups(vec![
        honest("BTC", "1d", DAY),
        honest("ETH", "1d", DAY),
        honest("SOL", "1d", DAY),
    ])
    .resolve(&[]);
    assert_eq!(kept(&res), [("BTC", "1d"), ("ETH", "1d"), ("SOL", "1d")]);
    assert_eq!(res.findings, []);
}

/// A flag that agrees with the label is a no-op, not a contradiction.
#[test]
fn a_flag_that_agrees_with_the_label_is_silent() {
    let res = Census::from_groups(vec![honest("BTC", "1d", DAY)]).resolve(&flags(&["BTC:1d"]));
    assert_eq!(kept(&res), [("BTC", "1d")]);
    assert_eq!(res.findings, []);
}

/// The historical use of `-f`: an input with no `freq` column, where the
/// flag *declares* the cadence rather than selecting one. Nothing to
/// contradict, so nothing is said.
#[test]
fn a_flag_over_an_untagged_series_declares_rather_than_contradicts() {
    let res = Census::from_groups(vec![honest("BTC", "", DAY)]).resolve(&flags(&["1d"]));
    assert_eq!(kept(&res), [("BTC", "")]);
    assert_eq!(res.findings, []);
}

// -------------------------------------------------------------- ambiguity

#[test]
fn two_cadences_under_one_symbol_is_an_error() {
    let res = Census::from_groups(vec![
        Series::new("BTC", "1d", &spaced(DAY, 12)),
        Series::new("BTC", "1h", &spaced(HOUR, 48)),
    ])
    .resolve(&[]);
    assert!(res.has_errors());
    assert_eq!(kept(&res), []);
    assert_eq!(
        res.findings,
        [Finding::Ambiguous {
            symbol: "BTC".into(),
            cadences: vec![("1d".into(), 12), ("1h".into(), 48)],
        }]
    );
    // The message names both cadences with their weight, so the user can
    // tell the series they wanted from the one that leaked in.
    let text = res.findings[0].message();
    assert!(text.contains("1d (12 bars), 1h (48 bars)"), "{text}");
    assert!(text.contains("-f/--frequency BTC:<CODE>"), "{text}");
}

#[test]
fn a_symbol_scoped_flag_picks_one_of_two_cadences() {
    let census = Census::from_groups(vec![
        Series::new("BTC", "1d", &spaced(DAY, 12)),
        Series::new("BTC", "1h", &spaced(HOUR, 48)),
    ]);
    let res = census.resolve(&flags(&["BTC:1h"]));
    assert!(!res.has_errors());
    assert_eq!(kept(&res), [("BTC", "1h")]);
    assert_eq!(res.findings, []);
    // …and the other way, so the pick is really being read.
    assert_eq!(kept(&census.resolve(&flags(&["BTC:1d"]))), [("BTC", "1d")]);
}

/// Ambiguity is per symbol: one symbol's mess doesn't stop the others
/// resolving, and the run still refuses because of the one.
#[test]
fn ambiguity_is_reported_per_symbol_and_the_rest_still_resolve() {
    let res = Census::from_groups(vec![
        Series::new("BTC", "1d", &spaced(DAY, 12)),
        Series::new("BTC", "1h", &spaced(HOUR, 48)),
        honest("ETH", "1d", DAY),
    ])
    .resolve(&[]);
    assert!(res.has_errors());
    assert_eq!(kept(&res), [("ETH", "1d")]);
    assert_eq!(res.findings.len(), 1);
}

/// Two ambiguous symbols produce two findings, so one pass over the input
/// tells the user everything they have to fix.
#[test]
fn every_ambiguous_symbol_is_reported_in_one_pass() {
    let res = Census::from_groups(vec![
        Series::new("BTC", "1d", &spaced(DAY, 12)),
        Series::new("BTC", "1h", &spaced(HOUR, 48)),
        Series::new("ETH", "1d", &spaced(DAY, 12)),
        Series::new("ETH", "4h", &spaced(HOUR * 4, 48)),
    ])
    .resolve(&[]);
    assert_eq!(res.findings.len(), 2);
    assert!(res.findings.iter().all(Finding::is_error));
}

/// An unparseable label can be grouped but not *selected* — no flag value
/// can equal it, so it stays reportable rather than becoming un-fixable
/// silence.
#[test]
fn an_unparseable_label_cannot_be_selected_by_a_flag() {
    let res = Census::from_groups(vec![
        Series::new("BTC", "weekly", &spaced(DAY * 7, 30)),
        Series::new("BTC", "1d", &spaced(DAY, 30)),
    ])
    .resolve(&flags(&["BTC:1w"]));
    assert!(res.has_errors());
    assert!(matches!(res.findings[0], Finding::Absent { .. }));
}

// ----------------------------------------------------------- absent picks

#[test]
fn a_flag_naming_a_cadence_the_frame_lacks_is_an_error() {
    let res = Census::from_groups(vec![
        Series::new("BTC", "1d", &spaced(DAY, 12)),
        Series::new("BTC", "1h", &spaced(HOUR, 48)),
    ])
    .resolve(&flags(&["BTC:5m"]));
    assert_eq!(
        res.findings,
        [Finding::Absent {
            symbol: "BTC".into(),
            requested: Frequency::Minute(5),
            available: vec!["1d".into(), "1h".into()],
        }]
    );
    assert_eq!(kept(&res), []);
    let text = res.findings[0].message();
    assert!(text.contains("these cadences for it: 1d, 1h"), "{text}");
}

/// The single-group form of the same mistake: `-f BTC:1h` on a frame whose
/// BTC rows all say `1d`. Silently annualizing at 1h was the old
/// behaviour; contradicting the provider's own label is not something to
/// do quietly.
#[test]
fn a_flag_contradicting_the_only_declared_cadence_is_an_error() {
    let res = Census::from_groups(vec![honest("BTC", "1d", DAY)]).resolve(&flags(&["BTC:1h"]));
    assert_eq!(
        res.findings,
        [Finding::Absent {
            symbol: "BTC".into(),
            requested: Frequency::Hour(1),
            available: vec!["1d".into()],
        }]
    );
    let text = res.findings[0].message();
    assert!(text.contains("only one cadence for it: 1d"), "{text}");
}

/// An *unscoped* `-f` is a default for the whole run, and contradicting a
/// labelled symbol with it is the same mistake as the scoped form — the
/// flag is still what the user typed.
#[test]
fn an_unscoped_flag_contradicting_a_label_is_also_an_error() {
    let res = Census::from_groups(vec![honest("BTC", "1d", DAY)]).resolve(&flags(&["4h"]));
    assert!(res.has_errors());
}

#[test]
fn a_symbol_scoped_flag_beats_the_unscoped_default() {
    let res = Census::from_groups(vec![
        Series::new("BTC", "1d", &spaced(DAY, 12)),
        Series::new("BTC", "1h", &spaced(HOUR, 48)),
    ])
    .resolve(&flags(&["1d", "BTC:1h"]));
    assert_eq!(kept(&res), [("BTC", "1h")]);
    assert_eq!(res.findings, []);
}

// --------------------------------------------------------- untagged rows

/// Untagged rows can only sit *beside* labelled ones when the symbol has
/// two or more labels — with exactly one the frame folds them in. There
/// is nothing to attach them to, so this refuses rather than dropping a
/// series the user supplied.
#[test]
fn untagged_rows_beside_two_labels_are_an_error() {
    let res = Census::from_groups(vec![
        Series::new("BTC", "", &spaced(DAY, 12)),
        Series::new("BTC", "1d", &spaced(DAY, 12)),
        Series::new("BTC", "1h", &spaced(HOUR, 48)),
    ])
    .resolve(&flags(&["BTC:1d"]));
    assert_eq!(
        res.findings,
        [Finding::Untagged {
            symbol: "BTC".into(),
            bars: 12,
            declared: vec!["1d".into(), "1h".into()],
        }]
    );
    // Nothing is kept: honouring the flag here would drop the 12 untagged
    // rows without saying so, which is the failure mode this module exists
    // to close.
    assert_eq!(kept(&res), []);
    let text = res.findings[0].message();
    assert!(text.contains("freq=<CODE>"), "{text}");
}

// --------------------------------------------------------- mislabelling

#[test]
fn a_label_that_disagrees_with_the_spacing_is_reported() {
    let res = Census::from_groups(vec![Series::new("BTC", "1d", &spaced(HOUR, 40))]).resolve(&[]);
    assert_eq!(
        res.findings,
        [Finding::Mislabelled {
            symbol: "BTC".into(),
            stated: Frequency::Day(1),
            from: Stated::Column,
            detected: Frequency::Hour(1),
            bars: 40,
        }]
    );
    // A warning, not an error — the run is measurable, just mis-scaled.
    assert!(!res.has_errors());
    assert_eq!(kept(&res), [("BTC", "1d")]);
    let text = res.findings[0].message();
    assert!(
        text.contains("labelled `1d` by the `freq` column"),
        "{text}"
    );
    assert!(text.contains("spaced like `1h`"), "{text}");
}

/// With no label, `-f` is what the series is *said* to run at, so it gets
/// checked against the gaps the same way — and the message points at the
/// flag rather than at a column that isn't there.
#[test]
fn a_flag_that_disagrees_with_the_spacing_is_reported_against_the_flag() {
    let res = Census::from_groups(vec![Series::new("BTC", "", &spaced(HOUR, 40))])
        .resolve(&flags(&["1d"]));
    assert_eq!(
        res.findings,
        [Finding::Mislabelled {
            symbol: "BTC".into(),
            stated: Frequency::Day(1),
            from: Stated::Flag,
            detected: Frequency::Hour(1),
            bars: 40,
        }]
    );
    assert!(
        res.findings[0].message().contains("`-f/--frequency`"),
        "{}",
        res.findings[0].message()
    );
}

/// Detection medians the gaps, which is noise over a handful of bars:
/// three daily equity bars across a weekend median to `3d` and snap to
/// `1w`. Accusing a correctly-labelled file on that evidence would train
/// the user to ignore the warning.
#[test]
fn a_short_series_is_not_accused_of_mislabelling() {
    let short = Series::new("BTC", "1d", &spaced(HOUR, MIN_BARS_TO_ACCUSE - 1));
    assert_eq!(short.detected, Some(Frequency::Hour(1)));
    assert_eq!(Census::from_groups(vec![short]).resolve(&[]).findings, []);

    // One more bar and it is enough evidence to say so.
    let long = Series::new("BTC", "1d", &spaced(HOUR, MIN_BARS_TO_ACCUSE));
    assert_eq!(Census::from_groups(vec![long]).resolve(&[]).findings.len(), 1);
}

/// Weekends are a minority of the gaps, so a real daily equity series
/// medians to `1d` and is not accused.
#[test]
fn weekend_gaps_do_not_make_a_daily_series_look_mislabelled() {
    // Four weeks of Mon–Fri: four 1d gaps then a 3d gap, repeating.
    let mut stamps = vec![1_704_067_200_000];
    for week in 0..4 {
        for day in 0..5 {
            let last = *stamps.last().expect("seeded");
            let step = if week > 0 && day == 0 { DAY * 3 } else { DAY };
            stamps.push(last + step);
        }
    }
    let s = Series::new("SPY", "1d", &stamps);
    assert_eq!(s.detected, Some(Frequency::Day(1)));
    assert_eq!(Census::from_groups(vec![s]).resolve(&[]).findings, []);
}

/// A label with no timestamps to check it against is taken at its word.
#[test]
fn a_label_with_no_parseable_stamps_is_not_accused() {
    let res = Census::from_groups(vec![Series::new("BTC", "1d", &[])]).resolve(&[]);
    assert_eq!(res.findings, []);
    assert_eq!(kept(&res), [("BTC", "1d")]);
}

// ------------------------------------------------------ mixed universes

#[test]
fn a_universe_at_two_cadences_is_reported_once() {
    let res = Census::from_groups(vec![
        honest("BTC", "1d", DAY),
        honest("ETH", "1h", HOUR),
        honest("SOL", "1h", HOUR),
    ])
    .resolve(&[]);
    assert_eq!(
        res.findings,
        [Finding::Mixed {
            groups: vec![
                (Frequency::Hour(1), vec!["ETH".into(), "SOL".into()]),
                (Frequency::Day(1), vec!["BTC".into()]),
            ],
        }]
    );
    assert!(!res.has_errors());
    let text = res.findings[0].message();
    assert!(text.contains("1h: ETH, SOL"), "{text}");
    assert!(text.contains("1d: BTC"), "{text}");
}

/// The mixed check runs on the cadence each symbol *resolved to*, so a
/// disambiguated symbol contributes the one it will trade rather than both
/// of the ones it carried.
#[test]
fn the_mixed_check_reads_the_chosen_cadence_not_every_candidate() {
    let census = Census::from_groups(vec![
        Series::new("BTC", "1d", &spaced(DAY, 30)),
        Series::new("BTC", "1h", &spaced(HOUR, 30)),
        honest("ETH", "1h", HOUR),
    ]);
    // Choosing BTC's 1h leaves a uniform universe: no mixed warning.
    let unified = census.resolve(&flags(&["BTC:1h"]));
    assert_eq!(unified.findings, []);
    // Choosing BTC's 1d makes it genuinely mixed.
    let split = census.resolve(&flags(&["BTC:1d"]));
    assert_eq!(split.findings.len(), 1);
    assert!(matches!(split.findings[0], Finding::Mixed { .. }));
}

/// A symbol whose cadence is unknowable contributes nothing to the mixed
/// check rather than a third pseudo-cadence.
#[test]
fn a_symbol_with_no_knowable_cadence_is_left_out_of_the_mixed_check() {
    let res = Census::from_groups(vec![
        honest("BTC", "1d", DAY),
        honest("ETH", "1d", DAY),
        Series::new("XRP", "", &spaced(DAY, 1)),
    ])
    .resolve(&[]);
    assert_eq!(res.findings, []);
}

/// A universe that is mixed *and* has an ambiguous symbol reports the
/// error above the warning, because the error is why it is about to stop.
#[test]
fn errors_sort_above_warnings() {
    let res = Census::from_groups(vec![
        Series::new("BTC", "1d", &spaced(DAY, 30)),
        Series::new("BTC", "4h", &spaced(HOUR * 4, 30)),
        honest("ETH", "1h", HOUR),
        honest("SOL", "1d", DAY),
    ])
    .resolve(&[]);
    assert!(res.findings.len() >= 2);
    assert!(res.findings[0].is_error());
    assert!(!res.findings.last().expect("non-empty").is_error());
}

// ------------------------------------------------------------ the census

#[test]
fn the_census_orders_groups_by_symbol_then_label() {
    let census = Census::from_groups(vec![
        honest("ETH", "1h", HOUR),
        honest("BTC", "1h", HOUR),
        honest("BTC", "1d", DAY),
    ]);
    let seen: Vec<(&str, &str)> = census
        .series
        .iter()
        .map(|s| (s.symbol.as_str(), s.freq.as_str()))
        .collect();
    assert_eq!(seen, [("BTC", "1d"), ("BTC", "1h"), ("ETH", "1h")]);
    assert_eq!(census.symbols(), ["BTC", "ETH"]);
    assert_eq!(census.groups_of("BTC").len(), 2);
    assert_eq!(census.groups_of("DOGE").len(), 0);
}

#[test]
fn an_empty_frame_censuses_to_nothing() {
    let res = Census::default().resolve(&flags(&["1d"]));
    assert_eq!(res.keep, []);
    assert_eq!(res.findings, []);
    assert!(!res.has_errors());
}

/// Every kind of finding that stops a run says so.
#[test]
fn findings_that_stop_a_run_are_errors() {
    let ambiguous = Finding::Ambiguous { symbol: "X".into(), cadences: vec![("1d".into(), 1)] };
    let mixed = Finding::Mixed { groups: vec![(Frequency::Day(1), vec!["X".into()])] };
    assert!(ambiguous.is_error());
    assert!(!mixed.is_error());
    assert!(ambiguous.message().contains("1d (1 bars)"), "{}", ambiguous.message());
}
