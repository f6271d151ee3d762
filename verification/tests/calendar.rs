//! Cadences, trading calendars, windows and scopes.

use std::str::FromStr;

use fugazi::calendar::{
    detect_frequency_from_millis, parse_time_to_millis, pick_bars_per_year, pick_frequency, resolve,
    AssetClass, BarsPerYear, BarsPerYearSpec, ReadNumber, Scope, ScopedFrequency, WindowSpec,
};
use fugazi::frequency::{parse_interval, sort_frequencies, Frequency, Interval};
use fugazi::market::{detect_frequency_from_atoms, Atom, Candle, Timestamp};
use fugazi::number::{Rate, Real};

fn dbl(x: f64) -> Real {
    Real { bits: x.to_bits() }
}

fn value(r: Rate) -> f64 {
    r.numerator as f64 / r.denominator as f64
}

fn chosen(b: BarsPerYear) -> f64 {
    match b {
        BarsPerYear::Given(x) => f64::from_bits(x.bits),
        BarsPerYear::Derived(r) => value(r),
    }
}

/// Read an entry, with the number read as a double.
fn parse_bars(s: &str) -> Result<BarsPerYearSpec, String> {
    let (scope, body) = BarsPerYearSpec::parts(s)?;
    let number = body
        .parse::<f64>()
        .ok()
        .map(|x| ReadNumber { value: dbl(x), shown: x.to_string() });
    BarsPerYearSpec::from_number(s, scope, &body, number)
}

#[test]
fn frequency_parses_common_codes() {
    assert_eq!(Frequency::from_str("1m").unwrap(), Frequency::Minute(1));
    assert_eq!(Frequency::from_str("15m").unwrap(), Frequency::Minute(15));
    assert_eq!(Frequency::from_str("4h").unwrap(), Frequency::Hour(4));
    assert_eq!(Frequency::from_str("1d").unwrap(), Frequency::Day(1));
    assert_eq!(Frequency::from_str("1w").unwrap(), Frequency::Week(1));
    assert_eq!(Frequency::from_str("1M").unwrap(), Frequency::Month(1));
}

#[test]
fn frequency_rejects_bad_input() {
    assert!(Frequency::from_str("").is_err());
    assert!(Frequency::from_str("m").is_err()); // missing multiplier
    assert!(Frequency::from_str("1x").is_err()); // unknown unit
    assert!(Frequency::from_str("0d").is_err()); // zero multiplier
    assert!(Frequency::from_str("abc").is_err());
}

#[test]
fn parse_interval_parses_all_units() {
    assert_eq!(parse_interval("5m").unwrap(), Interval::Minute(5));
    assert_eq!(parse_interval("4h").unwrap(), Interval::Hour(4));
    assert_eq!(parse_interval("1d").unwrap(), Interval::Day(1));
    assert_eq!(parse_interval("1w").unwrap(), Interval::Week(1));
    assert_eq!(parse_interval("1M").unwrap(), Interval::Month(1));
}

#[test]
fn parse_interval_rejects_zero_multiplier() {
    assert!(parse_interval("0d").is_err());
}

#[test]
fn bars_per_year_matches_conventions() {
    // Daily bars — the canonical numbers.
    assert_eq!(value(AssetClass::Stocks.bars_per_year(Frequency::Day(1))), 252.0);
    assert_eq!(value(AssetClass::Forex.bars_per_year(Frequency::Day(1))), 260.0);
    assert_eq!(value(AssetClass::Crypto.bars_per_year(Frequency::Day(1))), 365.0);

    // Hourly bars — hours per trading year.
    assert_eq!(value(AssetClass::Stocks.bars_per_year(Frequency::Hour(1))), 252.0 * 6.5);
    assert_eq!(value(AssetClass::Crypto.bars_per_year(Frequency::Hour(1))), 365.0 * 24.0);

    // Weekly/monthly are calendar-based across all classes.
    assert_eq!(value(AssetClass::Stocks.bars_per_year(Frequency::Week(1))), 52.0);
    assert_eq!(value(AssetClass::Crypto.bars_per_year(Frequency::Month(1))), 12.0);
}

#[test]
fn resolve_priority_explicit_wins() {
    // Explicit override beats derivation.
    assert_eq!(
        chosen(resolve(Some(dbl(999.0)), Some(AssetClass::Crypto), Some(Frequency::Day(1)))),
        999.0
    );
}

#[test]
fn resolve_class_plus_frequency_derives() {
    assert_eq!(
        chosen(resolve(None, Some(AssetClass::Crypto), Some(Frequency::Day(1)))),
        365.0
    );
    assert_eq!(
        chosen(resolve(None, Some(AssetClass::Stocks), Some(Frequency::Hour(1)))),
        252.0 * 6.5
    );
}

#[test]
fn resolve_falls_back_to_legacy_default() {
    // Nothing set → equities daily = 252 (backward-compatible default).
    assert_eq!(chosen(resolve(None, None, None)), 252.0);
}

/// The cadence of the times that can be read.
fn detect_from_strs<'a>(times: impl IntoIterator<Item = &'a str>) -> Option<Frequency> {
    {
    let stamps: Vec<i64> = times.into_iter().filter_map(parse_time_to_millis).collect();
    detect_frequency_from_millis(&stamps)
    }
}

#[test]
fn detect_frequency_from_iso_dates() {
    let times = ["2024-01-01", "2024-01-02", "2024-01-03", "2024-01-04"];
    assert_eq!(detect_from_strs(times), Some(Frequency::Day(1)));
}

#[test]
fn detect_frequency_from_rfc3339() {
    let times = [
        "2024-01-01T00:00:00Z",
        "2024-01-01T01:00:00Z",
        "2024-01-01T02:00:00Z",
    ];
    assert_eq!(detect_from_strs(times), Some(Frequency::Hour(1)));
}

#[test]
fn detect_frequency_from_epoch_seconds() {
    // 5-minute cadence in Unix seconds.
    let times = ["1_704_067_200", "1_704_067_500", "1_704_067_800"]
        .map(|s| s.replace('_', ""));
    assert_eq!(
        detect_from_strs(times.iter().map(String::as_str)),
        Some(Frequency::Minute(5))
    );
}

#[test]
fn detect_frequency_from_epoch_millis() {
    // 4-hour cadence in Unix millis — same instants times 1000.
    let times = ["1_704_067_200_000", "1_704_081_600_000", "1_704_096_000_000"]
        .map(|s| s.replace('_', ""));
    assert_eq!(
        detect_from_strs(times.iter().map(String::as_str)),
        Some(Frequency::Hour(4))
    );
}

#[test]
fn detect_frequency_uses_median_and_ignores_gaps() {
    // A weekend gap between Fri and Mon is 3 days, but four Mon-Fri gaps
    // of 1 day dominate — the median holds and the result is still daily.
    let times = [
        "2024-01-01", "2024-01-02", "2024-01-03", "2024-01-04", "2024-01-05",
        "2024-01-08", "2024-01-09", "2024-01-10", "2024-01-11", "2024-01-12",
    ];
    assert_eq!(detect_from_strs(times), Some(Frequency::Day(1)));
}

#[test]
fn detect_frequency_snaps_to_nearest_cadence() {
    // A 3-minute gap doesn't map to any named cadence — it snaps to `5m`
    // (its nearer neighbour in log space).
    let times = [
        "2024-01-01T00:00:00Z",
        "2024-01-01T00:03:00Z",
        "2024-01-01T00:06:00Z",
        "2024-01-01T00:09:00Z",
    ];
    assert_eq!(detect_from_strs(times), Some(Frequency::Minute(5)));
}

#[test]
fn detect_frequency_gives_up_on_unparseable() {
    // Opaque, non-time strings — no median → no detection.
    let times = ["alpha", "beta", "gamma"];
    assert!(detect_from_strs(times).is_none());
}

#[test]
fn detect_frequency_needs_two_parseable_stamps() {
    // One time isn't enough to compute a gap.
    assert!(detect_from_strs(["2024-01-01"]).is_none());
}

#[test]
fn detect_frequency_from_atoms_reads_atom_time() {
    // Same as detect_frequency_from_rfc3339 but reading Atom.time directly
    let candle = Candle::new(dbl(1.0), dbl(1.0), dbl(1.0), dbl(1.0), dbl(0.0));
    let atoms = [
        Atom::with_time(candle, Timestamp(0)),
        Atom::with_time(candle, Timestamp(3_600_000)),
        Atom::with_time(candle, Timestamp(7_200_000)),
    ];
    assert_eq!(
        detect_frequency_from_atoms(&atoms),
        Some(Frequency::Hour(1))
    );
}

fn spec(s: &str) -> BarsPerYearSpec {
    parse_bars(s).unwrap()
}

#[test]
fn bars_per_year_spec_parses_plain_number() {
    let s = spec("252");
    assert_eq!(s.scope, Scope::default());
    assert_eq!(s.value, dbl(252.0));
}

#[test]
fn bars_per_year_spec_parses_scoped_forms() {
    assert_eq!(spec("BTC:8760").scope.symbol.as_deref(), Some("BTC"));
    assert_eq!(spec("BTC:8760").scope.freq, None);
    assert_eq!(spec("[1h]:8760").scope.symbol, None);
    assert_eq!(spec("[1h]:8760").scope.freq, Some(Frequency::Hour(1)));
    let s = spec("BTC[1h]:8760");
    assert_eq!(s.scope.symbol.as_deref(), Some("BTC"));
    assert_eq!(s.scope.freq, Some(Frequency::Hour(1)));
    assert_eq!(s.value, dbl(8760.0));
}

#[test]
fn bars_per_year_spec_rejects_bad_input() {
    // Value missing entirely.
    assert!(parse_bars("BTC:").is_err());
    // Value not a number.
    assert!(parse_bars("BTC:oops").is_err());
    // Non-positive value.
    assert!(parse_bars("0").is_err());
    assert!(parse_bars("-1").is_err());
    // Empty freq bracket.
    assert!(parse_bars("BTC[]:8760").is_err());
    // Bracket doesn't close at end.
    assert!(parse_bars("BTC[1h:8760").is_err());
}

#[test]
fn pick_bars_per_year_prefers_specificity() {
    // Full > symbol > freq > default; last-declared wins on a tie.
    let specs: Vec<BarsPerYearSpec> = [
        "500", // default
        "BTC:1000",
        "[1h]:2000",
        "BTC[1h]:4000",
        "ETH[1d]:9999",
    ]
    .iter()
    .map(|s| spec(s))
    .collect();
    assert_eq!(
        pick_bars_per_year(&specs, "BTC", Some(Frequency::Hour(1))),
        Some(dbl(4000.0))
    );
    assert_eq!(
        pick_bars_per_year(&specs, "BTC", Some(Frequency::Day(1))),
        Some(dbl(1000.0))
    );
    assert_eq!(
        pick_bars_per_year(&specs, "SOL", Some(Frequency::Hour(1))),
        Some(dbl(2000.0))
    );
    assert_eq!(pick_bars_per_year(&specs, "SOL", None), Some(dbl(500.0)));
}

#[test]
fn pick_bars_per_year_falls_through_when_nothing_matches() {
    // Only a specific scope declared; the run's (symbol, freq) doesn't match.
    let specs = vec![spec("BTC[1h]:8760")];
    assert_eq!(
        pick_bars_per_year(&specs, "AAPL", Some(Frequency::Day(1))),
        None
    );
}

#[test]
fn pick_bars_per_year_last_declared_wins_at_tie() {
    // Two equally specific entries — later one wins.
    let specs = vec![spec("BTC:100"), spec("BTC:200")];
    assert_eq!(pick_bars_per_year(&specs, "BTC", None), Some(dbl(200.0)));
}

fn fspec(s: &str) -> ScopedFrequency {
    s.parse().unwrap()
}

#[test]
fn frequency_spec_parses_plain_and_symbol_scoped() {
    assert_eq!(fspec("1d").symbol, None);
    assert_eq!(fspec("1d").value, Frequency::Day(1));
    assert_eq!(fspec("BTC:4h").symbol.as_deref(), Some("BTC"));
    assert_eq!(fspec("BTC:4h").value, Frequency::Hour(4));
}

#[test]
fn frequency_spec_rejects_freq_scope() {
    // `[FREQ]:` scope on a --frequency value is circular — rejected.
    assert!("[1h]:4h".parse::<ScopedFrequency>().is_err());
    assert!("BTC[1h]:4h".parse::<ScopedFrequency>().is_err());
}

#[test]
fn frequency_spec_rejects_bad_input() {
    assert!("BTC:".parse::<ScopedFrequency>().is_err());
    assert!("BTC:oops".parse::<ScopedFrequency>().is_err());
}

#[test]
fn pick_frequency_prefers_symbol_over_default() {
    let specs = vec![fspec("1d"), fspec("BTC:4h"), fspec("ETH:1h")];
    assert_eq!(pick_frequency(&specs, "BTC"), Some(Frequency::Hour(4)));
    assert_eq!(pick_frequency(&specs, "ETH"), Some(Frequency::Hour(1)));
    assert_eq!(pick_frequency(&specs, "SOL"), Some(Frequency::Day(1)));
}

#[test]
fn pick_frequency_returns_none_when_nothing_matches() {
    let specs = vec![fspec("BTC:4h")];
    assert_eq!(pick_frequency(&specs, "AAPL"), None);
}

#[test]
fn pick_frequency_last_declared_wins_at_tie() {
    let specs = vec![fspec("BTC:1d"), fspec("BTC:4h")];
    assert_eq!(pick_frequency(&specs, "BTC"), Some(Frequency::Hour(4)));
}

#[test]
fn frequency_orders_by_duration() {
    // Canonical cadences in ascending duration.
    assert!(Frequency::Minute(1) < Frequency::Minute(5));
    assert!(Frequency::Minute(30) < Frequency::Hour(1));
    assert!(Frequency::Hour(1) < Frequency::Hour(4));
    assert!(Frequency::Hour(4) < Frequency::Day(1));
    assert!(Frequency::Day(1) < Frequency::Week(1));
    assert!(Frequency::Week(1) < Frequency::Month(1));
}

#[test]
fn frequency_ord_handles_exotic_multipliers() {
    // Exotic user input: 120m parses as Minute(120) and must rank *after*
    // Hour(1), which derived Ord would get wrong (lexicographic).
    assert!(Frequency::Minute(120) > Frequency::Hour(1));
    // Same-duration pairs still stay distinct via derived `PartialEq`
    // (Ord ties break by variant, so `Hour(24)` sorts before `Day(1)`).
    assert!(Frequency::Hour(24) < Frequency::Day(1));
    assert_ne!(Frequency::Hour(24), Frequency::Day(1));
}

#[test]
fn window_spec_parses_bar_count_and_durations() {
    assert_eq!(
        "10".parse::<WindowSpec>().unwrap(),
        WindowSpec::Bars(10)
    );
    assert_eq!(
        "252".parse::<WindowSpec>().unwrap(),
        WindowSpec::Bars(252)
    );
    assert_eq!(
        "1d".parse::<WindowSpec>().unwrap(),
        WindowSpec::Duration(Frequency::Day(1))
    );
    assert_eq!(
        "4h".parse::<WindowSpec>().unwrap(),
        WindowSpec::Duration(Frequency::Hour(4))
    );
    assert_eq!(
        "1M".parse::<WindowSpec>().unwrap(),
        WindowSpec::Duration(Frequency::Month(1))
    );
}

#[test]
fn window_spec_rejects_bad_input() {
    assert!("".parse::<WindowSpec>().is_err()); // empty
    assert!("0".parse::<WindowSpec>().is_err()); // zero bars
    assert!("0d".parse::<WindowSpec>().is_err()); // zero duration
    assert!("1x".parse::<WindowSpec>().is_err()); // unknown unit
    assert!("abc".parse::<WindowSpec>().is_err());
}

#[test]
fn window_spec_bars_form_is_identity() {
    // Plain bar count needs neither cadence nor class.
    let n = WindowSpec::Bars(42)
        .resolve(None, None)
        .unwrap();
    assert_eq!(n, 42);
}

#[test]
fn window_spec_duration_stocks_daily_windows() {
    // `-w 1w` on daily stocks → 5 M-F bars.
    let n = WindowSpec::Duration(Frequency::Week(1))
        .resolve(Some(Frequency::Day(1)), Some(AssetClass::Stocks))
        .unwrap();
    assert_eq!(n, 5);
    // `-w 1M` on daily stocks → 21 trading days (252/12).
    let n = WindowSpec::Duration(Frequency::Month(1))
        .resolve(Some(Frequency::Day(1)), Some(AssetClass::Stocks))
        .unwrap();
    assert_eq!(n, 21);
}

#[test]
fn window_spec_duration_stocks_intraday_windows() {
    // `-w 1d` on hourly stocks is one 6.5-hour trading day, not 24 —
    // rounds to 7 hourly bars.
    let n = WindowSpec::Duration(Frequency::Day(1))
        .resolve(Some(Frequency::Hour(1)), Some(AssetClass::Stocks))
        .unwrap();
    assert_eq!(n, 7);
    // `-w 4h` on hourly bars is 4 bars regardless of class.
    let n = WindowSpec::Duration(Frequency::Hour(4))
        .resolve(Some(Frequency::Hour(1)), Some(AssetClass::Stocks))
        .unwrap();
    assert_eq!(n, 4);
    // `-w 1w` on hourly stocks: 252 trading days ÷ 52 weeks × 6.5 h ≈
    // 31.5 hourly bars → 32. The 252/52 formulation is annualization-
    // consistent (52 weeks × ⁿ = 12 months × ⁿ = 252 days) — a caller
    // who prefers the calendar-week convention of exactly 5×6.5 = 32.5
    // hourly bars per week can pass `-w 33`.
    let n = WindowSpec::Duration(Frequency::Week(1))
        .resolve(Some(Frequency::Hour(1)), Some(AssetClass::Stocks))
        .unwrap();
    assert_eq!(n, 32);
}

#[test]
fn window_spec_duration_crypto_is_24_7() {
    // Continuous crypto: `-w 1d` = 24 hourly bars, `-w 1w` on daily = 7.
    let n = WindowSpec::Duration(Frequency::Day(1))
        .resolve(Some(Frequency::Hour(1)), Some(AssetClass::Crypto))
        .unwrap();
    assert_eq!(n, 24);
    let n = WindowSpec::Duration(Frequency::Week(1))
        .resolve(Some(Frequency::Day(1)), Some(AssetClass::Crypto))
        .unwrap();
    assert_eq!(n, 7);
}

#[test]
fn window_spec_duration_errors_without_class() {
    // Missing class — silent Stocks would mis-interpret intraday
    // durations on 24h markets; the CLI must surface the omission.
    let err = WindowSpec::Duration(Frequency::Day(1))
        .resolve(Some(Frequency::Hour(1)), None)
        .unwrap_err();
    assert!(
        err.contains("trading calendar"),
        "unexpected error: {err}"
    );
}

#[test]
fn window_spec_duration_errors_without_frequency() {
    // Class is fine, cadence is missing — the caller must pass
    // `-f/--frequency` or provide input with parseable timestamps.
    let err = WindowSpec::Duration(Frequency::Day(1))
        .resolve(None, Some(AssetClass::Stocks))
        .unwrap_err();
    assert!(err.contains("no bar cadence"), "unexpected error: {err}");
}

#[test]
fn window_spec_duration_errors_when_shorter_than_bar() {
    // `-w 1d` on 1w bars would round to 0 bars — rejected.
    let err = WindowSpec::Duration(Frequency::Day(1))
        .resolve(Some(Frequency::Week(1)), Some(AssetClass::Stocks))
        .unwrap_err();
    assert!(err.contains("shorter than one bar"), "unexpected error: {err}");
}

#[test]
fn window_spec_display_roundtrips() {
    // The Display impl mirrors what the parser accepts.
    assert_eq!(
        "10".parse::<WindowSpec>().unwrap().show(),
        "10"
    );
    assert_eq!(
        "1w".parse::<WindowSpec>().unwrap().show(),
        "1w"
    );
    assert_eq!(
        "1M".parse::<WindowSpec>().unwrap().show(),
        "1M"
    );
}

#[test]
fn frequency_sort_produces_semantic_order() {
    // Sortable in a Vec — verifies the Ord + PartialOrd impls compose.
    let mut fs = vec![
        Frequency::Day(1),
        Frequency::Minute(5),
        Frequency::Hour(1),
        Frequency::Week(1),
    ];
    fs = sort_frequencies(fs);
    assert_eq!(
        fs,
        vec![
            Frequency::Minute(5),
            Frequency::Hour(1),
            Frequency::Day(1),
            Frequency::Week(1),
        ]
    );
}

/// A code reads back as the cadence it was written from.
#[test]
fn codes_read_back() {
    for f in [Frequency::Minute(5), Frequency::Hour(4), Frequency::Day(1), Frequency::Week(2), Frequency::Month(3)] {
        assert_eq!(Frequency::from_str(&f.format()).unwrap(), f);
    }
    assert_eq!(Frequency::Month(3).format(), "3M");
}

/// The message of each way an entry can be wrong.
#[test]
fn scoped_numbers_say_what_is_wrong() {
    assert!(parse_bars("BTC:oops").unwrap_err().contains("oops"));
    assert!(parse_bars("-1").unwrap_err().contains("-1"));
    assert!(parse_bars("BTC[]:8760").is_err());
}

/// Times are read as instants, as date and time, as dates and as numbers.
#[test]
fn times_are_read_in_every_form() {
    let day: i64 = 1_704_067_200_000;
    assert_eq!(parse_time_to_millis("2024-01-01T00:00:00Z"), Some(day));
    assert_eq!(parse_time_to_millis("2024-01-01T01:00:00+01:00"), Some(day));
    assert_eq!(parse_time_to_millis("2024-01-01T00:00:00.250Z"), Some(day), "whole seconds");
    assert_eq!(parse_time_to_millis("2024-01-01 00:00:00"), Some(day));
    assert_eq!(parse_time_to_millis(" 2024-01-01 "), Some(day));
    assert_eq!(parse_time_to_millis("1704067200"), Some(day));
    assert_eq!(parse_time_to_millis("1704067200000"), Some(day));
    assert_eq!(parse_time_to_millis("2024-13-01"), None);
}

/// The last of two entries that are equally specific wins, and a more specific one
/// wins wherever it stands.
#[test]
fn one_entry_wins_wherever_it_stands() {
    let specs = vec![spec("BTC[1h]:4000"), spec("500"), spec("600")];
    assert_eq!(pick_bars_per_year(&specs, "BTC", Some(Frequency::Hour(1))), Some(dbl(4000.0)));
    assert_eq!(pick_bars_per_year(&specs, "ETH", None), Some(dbl(600.0)));
}

/// A window that has fewer trading hours than a bar is refused, however close it is.
#[test]
fn a_window_below_one_bar_is_refused() {
    let stocks = Some(AssetClass::Stocks);
    let day = Some(Frequency::Day(1));
    for code in ["4h", "6h", "389m"] {
        let window: WindowSpec = code.parse().unwrap();
        let err = window.resolve(day, stocks).unwrap_err();
        assert!(err.contains("shorter than one bar"), "{code}: {err}");
    }
    for (code, bars) in [("390m", 1), ("7h", 1), ("10h", 2)] {
        let window: WindowSpec = code.parse().unwrap();
        assert_eq!(window.resolve(day, stocks), Ok(bars), "{code}");
    }
}

/// Halfway between one hour and four, the shorter cadence is meant.
#[test]
fn a_tie_snaps_to_the_shorter_cadence() {
    let gaps = |ms: i64| detect_frequency_from_millis(&[0, ms, 2 * ms]);
    assert_eq!(gaps(7_200_000), Some(Frequency::Hour(1)));
    assert_eq!(gaps(7_201_000), Some(Frequency::Hour(4)));
}
