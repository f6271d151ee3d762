//! Bars read from a table of prices.

use fugazi::file::{FileBar, FileSource};
use fugazi::frequency::Interval;
use fugazi::market::Timestamp;
use fugazi::number::Real;
use fugazi::table::with_numbers;

fn dbl(x: f64) -> Real {
    Real { bits: x.to_bits() }
}

/// A file that is held in memory: its name and its contents.
fn csv(name: &str, contents: &str) -> (String, String) {
    (name.to_string(), contents.to_string())
}

fn read(file: (String, String)) -> Result<Vec<FileBar>, String> {
    let source = FileSource::new(&file.0);
    let raw = source.table(file.1.as_bytes());
    let numbers: Vec<Vec<Option<Real>>> = raw
        .records
        .iter()
        .map(|r| match r {
            Ok(cells) => {
                cells.iter().map(|c| c.trim().parse::<f64>().ok().map(dbl)).collect()
            }
            Err(_) => Vec::new(),
        })
        .collect();
    source.read(&with_numbers(raw, &numbers))
}

#[test]
fn file_reads_semicolon_csv_in_get_output_shape() {
    let path = csv(
        "fugazi_file_source_test_a.csv",
        "symbol;freq;time;open;high;low;close;volume\n\
         BTCUSDT;1d;2024-01-01T00:00:00Z;100;110;90;105;1000\n\
         BTCUSDT;1d;2024-01-02T00:00:00Z;105;115;100;108;1200\n",
    );
    let bars = read(path).unwrap();
    assert_eq!(bars.len(), 2);
    assert_eq!(bars[0].symbol, "BTCUSDT");
    assert_eq!(bars[0].interval, Interval::Day(1));
    assert_eq!(bars[0].candle.close, dbl(105.0));
    assert_eq!(bars[0].time, Timestamp(1_704_067_200_000));
    assert_eq!(bars[1].candle.volume, dbl(1200.0));
}

#[test]
fn file_autodetects_comma_delimiter() {
    let path = csv(
        "fugazi_file_source_test_b.csv",
        "symbol,freq,time,open,high,low,close,volume\n\
         ETHUSDT,1h,2024-01-01T00:00:00Z,10,11,9,10.5,50\n",
    );
    let bars = read(path).unwrap();
    assert_eq!(bars.len(), 1);
    assert_eq!(bars[0].interval, Interval::Hour(1));
}

#[test]
fn file_tolerates_missing_volume_column_and_blank_volume_cell() {
    let path = csv(
        "fugazi_file_source_test_c.csv",
        "symbol;freq;time;open;high;low;close\n\
         AAA;1d;2024-01-01T00:00:00Z;1;2;0.5;1.5\n",
    );
    let bars = read(path).unwrap();
    assert_eq!(bars[0].candle.volume, dbl(0.0));

    let path = csv(
        "fugazi_file_source_test_d.csv",
        "symbol;freq;time;open;high;low;close;volume\n\
         AAA;1d;2024-01-01T00:00:00Z;1;2;0.5;1.5;\n",
    );
    let bars = read(path).unwrap();
    assert_eq!(bars[0].candle.volume, dbl(0.0));
}

#[test]
fn file_accepts_millisecond_epoch_time() {
    let path = csv(
        "fugazi_file_source_test_e.csv",
        "symbol;freq;time;open;high;low;close;volume\n\
         AAA;1d;1704067200000;1;2;0.5;1.5;10\n",
    );
    let bars = read(path).unwrap();
    assert_eq!(bars[0].time, Timestamp(1_704_067_200_000));
}

#[test]
fn ignores_extra_overlay_columns() {
    let path = csv(
        "fugazi_file_source_test_f.csv",
        "symbol;freq;time;open;high;low;close;volume;sma20;ema50\n\
         AAA;1d;2024-01-01T00:00:00Z;1;2;0.5;1.5;10;1.4;1.3\n",
    );
    let bars = read(path).unwrap();
    assert_eq!(bars.len(), 1);
    assert_eq!(bars[0].candle.close, dbl(1.5));
}

#[test]
fn file_rejects_missing_required_column() {
    let path = csv(
        "fugazi_file_source_test_g.csv",
        "symbol;time;open;high;low;close;volume\n",
    );
    let err = read(path).unwrap_err();
    let msg = err;
    assert!(msg.contains("missing required column `freq`"), "{msg}");
}

#[test]
fn file_rejects_bad_freq_token() {
    let path = csv(
        "fugazi_file_source_test_h.csv",
        "symbol;freq;time;open;high;low;close;volume\n\
         AAA;1x;2024-01-01T00:00:00Z;1;2;0.5;1.5;10\n",
    );
    let err = read(path).unwrap_err();
    let msg = err;
    assert!(msg.contains("column `freq`"), "{msg}");
}
