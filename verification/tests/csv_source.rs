//! Bars read from a table with all its columns.

use fugazi::csv_source::{CsvBar, CsvSource};
use fugazi::frequency::Interval;
use fugazi::market::{OverlayType, OverlayValue, Timestamp};
use fugazi::number::Real;
use fugazi::table::with_numbers;

fn dbl(x: f64) -> Real {
    Real { bits: x.to_bits() }
}

/// A file that is held in memory: its name and its contents.
fn csv(name: &str, contents: &str) -> (String, String) {
    (name.to_string(), contents.to_string())
}

fn read(file: (String, String)) -> Result<Vec<CsvBar>, String> {
    let source = CsvSource::new(&file.0);
    let raw = source.table(file.1.as_bytes());
    let numbers: Vec<Vec<Option<Real>>> = raw
        .records
        .iter()
        .map(|r| match r {
            Ok(cells) => {
                cells.iter().map(|c| c.trim().parse::<f64>().ok().map(dbl)).collect()
            }
            Err(_) => Vec::new(),
        })
        .collect();
    source.read(&with_numbers(raw, &numbers))
}

#[test]
fn csv_source_reads_semicolon_csv_in_get_output_shape() {
    let path = csv(
        "fugazi_csv_source_test_a.csv",
        "symbol;freq;time;open;high;low;close;volume\n\
         BTCUSDT;1d;2024-01-01T00:00:00Z;100;110;90;105;1000\n\
         BTCUSDT;1d;2024-01-02T00:00:00Z;105;115;100;108;1200\n",
    );
    let bars = read(path).unwrap();
    assert_eq!(bars.len(), 2);
    assert_eq!(bars[0].symbol, "BTCUSDT");
    assert_eq!(bars[0].interval, Interval::Day(1));
    assert_eq!(bars[0].atom.candle.unwrap().close, dbl(105.0));
    assert_eq!(bars[0].atom.time, Some(Timestamp(1_704_067_200_000)));
    assert_eq!(bars[1].atom.candle.unwrap().volume, dbl(1200.0));
}

#[test]
fn csv_source_autodetects_comma_delimiter() {
    let path = csv(
        "fugazi_csv_source_test_b.csv",
        "symbol,freq,time,open,high,low,close,volume\n\
         ETHUSDT,1h,2024-01-01T00:00:00Z,10,11,9,10.5,50\n",
    );
    let bars = read(path).unwrap();
    assert_eq!(bars.len(), 1);
    assert_eq!(bars[0].interval, Interval::Hour(1));
}

#[test]
fn csv_source_tolerates_missing_volume_column_and_blank_volume_cell() {
    let path = csv(
        "fugazi_csv_source_test_c.csv",
        "symbol;freq;time;open;high;low;close\n\
         AAA;1d;2024-01-01T00:00:00Z;1;2;0.5;1.5\n",
    );
    let bars = read(path).unwrap();
    assert_eq!(bars[0].atom.candle.unwrap().volume, dbl(0.0));

    let path = csv(
        "fugazi_csv_source_test_d.csv",
        "symbol;freq;time;open;high;low;close;volume\n\
         AAA;1d;2024-01-01T00:00:00Z;1;2;0.5;1.5;\n",
    );
    let bars = read(path).unwrap();
    assert_eq!(bars[0].atom.candle.unwrap().volume, dbl(0.0));
}

#[test]
fn csv_source_accepts_millisecond_epoch_time() {
    let path = csv(
        "fugazi_csv_source_test_e.csv",
        "symbol;freq;time;open;high;low;close;volume\n\
         AAA;1d;1704067200000;1;2;0.5;1.5;10\n",
    );
    let bars = read(path).unwrap();
    assert_eq!(bars[0].atom.time, Some(Timestamp(1_704_067_200_000)));
}

#[test]
fn preserves_extra_columns_as_typed_overlays() {
    let path = csv(
        "fugazi_csv_source_test_f.csv",
        "symbol;freq;time;open;high;low;close;volume;sma20;risk_on;regime\n\
         AAA;1d;2024-01-01T00:00:00Z;1;2;0.5;1.5;10;1.4;true;bull\n\
         AAA;1d;2024-01-02T00:00:00Z;1.5;2.5;1;2;12;1.6;false;bear\n",
    );
    let bars = read(path).unwrap();
    assert_eq!(bars.len(), 2);
    assert_eq!(bars[0].atom.candle.unwrap().close, dbl(1.5));
    // Non-OHLCV columns survive as a typed schema, column-classified
    // across the whole file (sma20 → Real, risk_on → Bool, regime → Str).
    let schema = bars[0].atom.overlays.as_ref().unwrap().schema().clone();
    let find = |name: &str| schema.type_of_key(name);
    assert_eq!(find("sma20"), Some(OverlayType::Real));
    assert_eq!(find("risk_on"), Some(OverlayType::Bool));
    assert_eq!(find("regime"), Some(OverlayType::Str));
    let overlays = bars[0].atom.overlays.as_ref().expect("overlays present");
    assert_eq!(overlays.get_by_key("sma20"), Some(&OverlayValue::Real(dbl(1.4))));
    assert_eq!(overlays.get_by_key("risk_on"), Some(&OverlayValue::Bool(true)));
    assert!(matches!(
        overlays.get_by_key("regime"),
        Some(OverlayValue::Str(s)) if s == "bull"
    ));
}

#[test]
fn csv_source_rejects_missing_required_column() {
    let path = csv(
        "fugazi_csv_source_test_g.csv",
        "symbol;time;open;high;low;close;volume\n",
    );
    let err = read(path).unwrap_err();
    let msg = err;
    assert!(msg.contains("missing required column `freq`"), "{msg}");
}

#[test]
fn csv_source_rejects_bad_freq_token() {
    let path = csv(
        "fugazi_csv_source_test_h.csv",
        "symbol;freq;time;open;high;low;close;volume\n\
         AAA;1x;2024-01-01T00:00:00Z;1;2;0.5;1.5;10\n",
    );
    let err = read(path).unwrap_err();
    let msg = err;
    assert!(msg.contains("column `freq`"), "{msg}");
}

/// A price that is no number is refused with its column and its row.
#[test]
fn csv_prices_must_be_numbers() {
    let path = csv(
        "bad.csv",
        "symbol;freq;time;open;high;low;close;volume\nAAA;1d;2024-01-01;1;2;x;1.5;10\n",
    );
    let err = read(path).unwrap_err();
    assert!(err.contains("`low`"), "{err}");
}
