//! Lines of the console report.

use fugazi::console::{
    bars_line, cadence_unit, evaluated_period_line, format_bars_as_duration, format_holding_line,
    format_ms_count, format_ms_ratio, format_ms_signed_pct, format_ms_unsigned_pct, format_pct,
    format_pooled, format_ratio, friendly_metric_label,
};
use fugazi::frequency::Frequency;

/// A number of bars of a cadence, in the cadence's own unit.
fn duration(bars: f64, freq: Frequency) -> String {
    let total = bars * cadence_unit(freq).0 as f64;
    let units = if (total - total.round()).abs() < 1e-6 {
        format!("{total:.0}")
    } else {
        format!("{total:.1}")
    };
    format_bars_as_duration(&units, freq)
}

fn signed(mean: f64, std: f64) -> String {
    format_ms_signed_pct(Some((&format!("{mean:+.2}"), &format!("{std:.2}"))))
}

#[test]
fn bars_render_in_the_cadence_own_unit() {
    assert_eq!(duration(21.0, Frequency::Day(1)), "21d");
    assert_eq!(duration(6.5, Frequency::Hour(4)), "26h");
    assert_eq!(duration(2.25, Frequency::Hour(2)), "4.5h");
    assert_eq!(duration(3.0, Frequency::Month(1)), "3M");
}

#[test]
fn missing_values_render_as_an_em_dash_everywhere() {
    assert_eq!(format_ratio(None), "—");
    assert_eq!(format_pct(None), "—");
    assert_eq!(format_ms_signed_pct(None), "—");
    assert_eq!(format_ms_unsigned_pct(None), "—");
    assert_eq!(format_ms_ratio(None), "—");
    assert_eq!(format_ms_count(None), "—");
    assert_eq!(format_pooled(None, 1, 1), "—");
}

#[test]
fn mean_std_pairs_carry_their_sign_convention() {
    assert_eq!(signed(1.234, 0.5), "+1.23 ± 0.50%");
    assert_eq!(signed(-1.2, 0.5), "-1.20 ± 0.50%");
    let two = |m: f64, s: f64| (format!("{m:.2}"), format!("{s:.2}"));
    let (m, s) = two(1.234, 0.5);
    assert_eq!(format_ms_unsigned_pct(Some((&m, &s))), "1.23 ± 0.50%");
    let (m, s) = two(2.0, 0.25);
    assert_eq!(format_ms_ratio(Some((&m, &s))), "2.00 ± 0.25");
    let (m, s) = (format!("{:.1}", 3.5), format!("{:.1}", 1.25));
    assert_eq!(format_ms_count(Some((&m, &s))), "3.5 ± 1.2");
}

#[test]
fn the_evaluated_period_line_names_warmup_only_when_there_is_one() {
    let labels: Vec<String> = (1..=5).map(|d| format!("2024-01-0{d}")).collect();
    assert_eq!(
        evaluated_period_line(&labels, 0).as_deref(),
        Some("2024-01-01 → 2024-01-05 (5 bars)"),
    );
    assert_eq!(
        evaluated_period_line(&labels, 2).as_deref(),
        Some("2024-01-03 → 2024-01-05 (3 bars, 2 warm-up)"),
    );
    // Warm-up swallowing the whole stream is "nothing to report", not a
    // panic or an empty range.
    assert_eq!(evaluated_period_line(&labels, 5), None);
    assert_eq!(evaluated_period_line(&labels, 9), None);
    assert_eq!(evaluated_period_line(&[], 0), None);
}

#[test]
fn metric_labels_drop_their_section_prefix() {
    assert_eq!(friendly_metric_label("risk_adjusted.sharpe"), "sharpe");
    assert_eq!(friendly_metric_label("sharpe"), "sharpe");
    assert_eq!(friendly_metric_label("a.b.c"), "c");
}

#[test]
fn present_values_are_shown() {
    assert_eq!(format_ratio(Some("1.50")), "1.50");
    assert_eq!(format_pct(Some("12.5")), "12.5%");
    assert_eq!(format_pooled(Some(("0.1", "0.2")), 3, 12), "0.1 ± 0.2 (3/12)");
}

#[test]
fn the_holding_line_joins_what_is_known() {
    assert_eq!(bars_line("3", None), "3 bars");
    assert_eq!(bars_line("3", Some("3d")), "3 bars (~3d)");
    assert_eq!(format_holding_line(None, None, None, None), None);
    assert_eq!(
        format_holding_line(Some("2.5 bars"), Some("1 bars"), Some("4 bars"), None).unwrap(),
        "avg 2.5 bars · min 1 bars · max 4 bars"
    );
    assert_eq!(
        format_holding_line(Some("2.5 bars"), None, Some("4 bars"), None).unwrap(),
        "avg 2.5 bars · max 4 bars"
    );
    assert_eq!(
        format_holding_line(Some("3.0 bars"), Some("3 bars"), Some("3 bars"), Some("3 bars"))
            .unwrap(),
        "3 bars"
    );
}
