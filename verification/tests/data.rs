//! Frames of series, joined from tables.

use std::sync::Arc;

use fugazi::data::DataFrame;
use fugazi::frequency::Frequency;
use fugazi::market::{OverlayType, OverlayValue};
use fugazi::number::Real;
use fugazi::series::{SeriesData, SeriesSpec};
use fugazi::table::{read_table, with_numbers, NumberedTable};

fn dbl(x: f64) -> Real {
    Real { bits: x.to_bits() }
}

fn number(s: &str) -> Option<Real> {
    s.trim().parse::<f64>().ok().map(dbl)
}

/// A table with its cells read as numbers where they are numbers.
fn table(contents: &str) -> NumberedTable {
    let raw = read_table(contents.as_bytes());
    let numbers: Vec<Vec<Option<Real>>> = raw
        .records
        .iter()
        .map(|r| match r {
            Ok(cells) => cells.iter().map(|c| number(c)).collect(),
            Err(_) => Vec::new(),
        })
        .collect();
    with_numbers(raw, &numbers)
}

/// Files that are held in memory.
struct Files {
    contents: Vec<(String, String)>,
}

impl Files {
    fn new() -> Files {
        Files { contents: Vec::new() }
    }

    /// Hold a file, and hand back its path.
    fn csv(&mut self, name: &str, contents: &str) -> String {
        self.contents.push((name.to_string(), contents.to_string()));
        name.to_string()
    }

    fn read(&self, path: &str) -> NumberedTable {
        let contents = self
            .contents
            .iter()
            .rev()
            .find(|(name, _)| name == path)
            .map(|(_, c)| c.as_str())
            .unwrap();
        table(contents)
    }

    /// The frame of some series.
    fn frame(&self, specs: &[String]) -> Result<DataFrame, String> {
        let specs: Vec<SeriesSpec> = specs.iter().map(|s| s.parse().unwrap()).collect();
        let data: Vec<SeriesData> = specs
            .iter()
            .map(|s| SeriesData {
                tables: s.files.iter().map(|f| self.read(f)).collect(),
                literal_numbers: s.literals.iter().map(|(_, v)| number(v)).collect(),
            })
            .collect();
        DataFrame::from_series(&specs, &data)
    }
}

#[test]
fn literal_stamps_symbol_onto_a_symbolless_file() {
    let mut files = Files::new();
    let path = files.csv(
        "fugazi_data_test_a.csv",
        "time;open;high;low;close;volume\n1;10;11;9;10.5;100\n2;10.5;12;10;11;120\n",
    );
    let frame =
        files.frame(&[format!("symbol='BTC',@{path}")]).unwrap();
    let series = frame.atoms("BTC").unwrap();
    assert_eq!(series.atoms.len(), 2);
    assert_eq!(series.atoms[0].0, "1");
    assert_eq!(series.atoms[0].1.candle.unwrap().close, dbl(10.5));
    assert_eq!(series.atoms[1].1.candle.unwrap().high, dbl(12.0));
}

#[test]
fn two_series_full_join_on_symbol_freq_time() {
    let mut files = Files::new();
    let prices = files.csv(
        "fugazi_data_test_p.csv",
        "time;open;high;low;close\n1;10;11;9;10\n2;10;12;10;11\n",
    );
    let fundamentals = files.csv("fugazi_data_test_f.csv", "time;pe_ratio\n1;15.0\n2;16.0\n");
    let frame = files.frame(&[
        format!("symbol=BTC,@{prices}"),
        format!("symbol=BTC,@{fundamentals}"),
    ])
    .unwrap();
    // The extra column rode along on the joined rows.
    assert_eq!(
        frame.cell("BTC", "", "1", "pe_ratio").unwrap().text,
        "15.0"
    );
    // Candles still build (volume defaulted to 0).
    let series = frame.atoms("BTC").unwrap();
    assert_eq!(series.atoms.len(), 2);
    assert_eq!(series.atoms[0].1.candle.unwrap().volume, dbl(0.0));
}

#[test]
fn files_and_literals_in_any_order_and_count() {
    let mut files = Files::new();
    let p1 = files.csv(
        "fugazi_data_test_o1.csv",
        "time;open;high;low;close\n1;10;11;9;10\n2;10;12;10;11\n",
    );
    let p2 = files.csv(
        "fugazi_data_test_o2.csv",
        "time;open;high;low;close\n3;11;13;11;12\n4;12;14;12;13\n",
    );
    // Mixed order, two files and two literals in one series.
    let frame = files.frame(&[format!("symbol=BTC,@{p1},exchange=NYSE,@{p2}")])
    .unwrap();
    // Both files' rows concatenated.
    assert_eq!(frame.atoms("BTC").unwrap().atoms.len(), 4);
    // Both literals broadcast onto rows from either file.
    assert_eq!(
        frame.cell("BTC", "", "1", "exchange").unwrap().text,
        "NYSE"
    );
    assert_eq!(
        frame.cell("BTC", "", "4", "exchange").unwrap().text,
        "NYSE"
    );
}

#[test]
fn series_without_a_file_is_rejected() {
    assert!("symbol=BTC".parse::<SeriesSpec>().is_err());
}

#[test]
fn atoms_expose_extra_numeric_columns_as_overlays() {
    let mut files = Files::new();
    let path = files.csv(
        "fugazi_atoms_numeric.csv",
        "time;open;high;low;close;vol_20;regime_score\n\
         1;10;11;9;10;0.12;1.0\n\
         2;10;12;10;11;0.15;0.5\n",
    );
    let frame =
        files.frame(&[format!("symbol=BTC,@{path}")]).unwrap();
    let series = frame.atoms("BTC").unwrap();
    assert_eq!(series.atoms.len(), 2);
    assert!(series.skipped_columns.is_empty());
    let (_, atom0) = &series.atoms[0];
    let overlays = atom0.overlays.as_ref().expect("first bar carries overlays");
    let schema = overlays.schema();
    // Alphabetical order: regime_score, vol_20.
    assert_eq!(schema.index_of("regime_score"), Some(0));
    assert_eq!(schema.index_of("vol_20"), Some(1));
    assert_eq!(
        overlays.get_real(schema.index_of("vol_20").unwrap()),
        Some(dbl(0.12))
    );
    assert_eq!(
        overlays.get_real(schema.index_of("regime_score").unwrap()),
        Some(dbl(1.0))
    );
}

#[test]
fn atoms_preserve_non_numeric_columns_as_str_overlays() {
    let mut files = Files::new();
    let path = files.csv(
        "fugazi_atoms_nonnumeric.csv",
        "time;open;high;low;close;exchange;vol_20\n\
         1;10;11;9;10;NYSE;0.12\n\
         2;10;12;10;11;NASDAQ;0.15\n",
    );
    let frame =
        files.frame(&[format!("symbol=BTC,@{path}")]).unwrap();
    let series = frame.atoms("BTC").unwrap();
    // `exchange` is non-numeric — preserved as a Str overlay, not dropped.
    assert!(series.skipped_columns.is_empty());
    let overlays = series.atoms[0]
        .1
        .overlays
        .as_ref()
        .expect("overlays attached");
    let schema = overlays.schema();
    assert_eq!(schema.type_of_key("exchange"), Some(OverlayType::Str));
    assert_eq!(schema.type_of_key("vol_20"), Some(OverlayType::Real));
    let ex_idx = schema.index_of("exchange").unwrap();
    assert_eq!(overlays.get_str(ex_idx), Some("NYSE"),);
    assert_eq!(
        series.atoms[1]
            .1
            .overlays
            .as_ref()
            .unwrap()
            .get_str(ex_idx),
        Some("NASDAQ"),
    );
}

#[test]
fn atoms_classify_true_false_column_as_bool() {
    let mut files = Files::new();
    let path = files.csv(
        "fugazi_atoms_bool.csv",
        "time;open;high;low;close;risk_on\n\
         1;10;11;9;10;true\n\
         2;10;12;10;11;FALSE\n\
         3;10;12;10;11;True\n",
    );
    let frame =
        files.frame(&[format!("symbol=BTC,@{path}")]).unwrap();
    let series = frame.atoms("BTC").unwrap();
    let overlays = series.atoms[0]
        .1
        .overlays
        .as_ref()
        .expect("overlays attached");
    let schema = overlays.schema();
    // Bool wins over Real because `true`/`false` don't parse as Real.
    assert_eq!(schema.type_of_key("risk_on"), Some(OverlayType::Bool));
    let idx = schema.index_of("risk_on").unwrap();
    assert_eq!(overlays.get_bool(idx), Some(true));
    assert_eq!(
        series.atoms[1].1.overlays.as_ref().unwrap().get_bool(idx),
        Some(false),
    );
    assert_eq!(
        series.atoms[2].1.overlays.as_ref().unwrap().get_bool(idx),
        Some(true),
    );
}

#[test]
fn atoms_single_stray_string_downgrades_a_real_column_to_str() {
    let mut files = Files::new();
    // One non-numeric cell is enough to move a column from Real to Str;
    // subsequent numeric-looking cells then read as their string form.
    let path = files.csv(
        "fugazi_atoms_mixed.csv",
        "time;open;high;low;close;label\n\
         1;10;11;9;10;0.12\n\
         2;10;12;10;11;n/a\n\
         3;10;12;10;11;0.15\n",
    );
    let frame =
        files.frame(&[format!("symbol=BTC,@{path}")]).unwrap();
    let series = frame.atoms("BTC").unwrap();
    let schema = series.atoms[0]
        .1
        .overlays
        .as_ref()
        .unwrap()
        .schema()
        .clone();
    assert_eq!(schema.type_of_key("label"), Some(OverlayType::Str));
    let idx = schema.index_of("label").unwrap();
    assert_eq!(
        series.atoms[2]
            .1
            .overlays
            .as_ref()
            .unwrap()
            .get_str(idx),
        Some("0.15"),
    );
}

#[test]
fn atoms_use_nan_for_missing_overlay_cells() {
    let mut files = Files::new();
    let prices = files.csv(
        "fugazi_atoms_prices.csv",
        "time;open;high;low;close\n1;10;11;9;10\n2;10;12;10;11\n",
    );
    // Sparse extra column: only present at time=1, missing at time=2.
    let overlay = files.csv("fugazi_atoms_overlay.csv", "time;pe_ratio\n1;15.0\n");
    let frame = files.frame(&[
        format!("symbol=BTC,@{prices}"),
        format!("symbol=BTC,@{overlay}"),
    ])
    .unwrap();
    let series = frame.atoms("BTC").unwrap();
    assert_eq!(series.atoms.len(), 2);
    let overlays0 = series.atoms[0].1.overlays.as_ref().unwrap();
    let idx = overlays0.schema().index_of("pe_ratio").unwrap();

    let v0 = overlays0.get_real(idx).unwrap();
    let v1 = series.atoms[1]
        .1
        .overlays
        .as_ref()
        .unwrap()
        .get_real(idx)
        .unwrap();
    assert_eq!(v0, dbl(15.0));
    assert!(v1.is_nan(), "missing overlay value should be NaN, got {v1:?}");
}

#[test]
fn atoms_attach_str_overlay_even_when_no_numeric_column_survives() {
    let mut files = Files::new();
    // Only OHLCV and a column of texts: it is kept as an overlay.
    let path = files.csv(
        "fugazi_atoms_str_only.csv",
        "time;open;high;low;close;exchange\n1;10;11;9;10;NYSE\n",
    );
    let frame =
        files.frame(&[format!("symbol=BTC,@{path}")]).unwrap();
    let series = frame.atoms("BTC").unwrap();
    assert!(series.skipped_columns.is_empty());
    let overlays = series.atoms[0]
        .1
        .overlays
        .as_ref()
        .expect("Str overlay attached");
    assert_eq!(
        overlays.schema().type_of_key("exchange"),
        Some(OverlayType::Str)
    );
}

#[test]
fn atoms_share_one_schema_across_every_bar() {
    let mut files = Files::new();
    let path = files.csv(
        "fugazi_atoms_shared_schema.csv",
        "time;open;high;low;close;vol_20\n\
         1;10;11;9;10;0.1\n\
         2;10;12;10;11;0.2\n\
         3;11;12;10;11;0.3\n",
    );
    let frame =
        files.frame(&[format!("symbol=BTC,@{path}")]).unwrap();
    let series = frame.atoms("BTC").unwrap();
    let schema0 = series.atoms[0]
        .1
        .overlays
        .as_ref()
        .unwrap()
        .schema()
        .clone();
    for (_, atom) in &series.atoms[1..] {
        let s = atom.overlays.as_ref().unwrap().schema();
        assert!(
            Arc::ptr_eq(&schema0, s),
            "every atom must reuse the shared Arc<Schema>"
        );
    }
}

#[test]
fn atoms_share_one_schema_across_every_symbol() {
    let mut files = Files::new();
    // A column that only one symbol carries must still resolve for the
    // others: `GetReal` is built once against the run's schema and guards
    // reads with `Arc::ptr_eq`, so a per-symbol schema makes a cross-symbol
    // `!get { source: !pick { symbol } }` read `None` on every bar rather
    // than fail loudly.
    let prices = files.csv(
        "fugazi_atoms_cross_symbol_prices.csv",
        "symbol;time;open;high;low;close\n\
         BTC;1;10;11;9;10\n\
         ETH;1;20;21;19;20\n",
    );
    let funding = files.csv(
        "fugazi_atoms_cross_symbol_funding.csv",
        "symbol;time;funding\n\
         ETH;1;0.5\n",
    );
    let frame = files.frame(&[
        format!("@{prices}"),
        format!("@{funding}"),
    ])
    .unwrap();

    let btc = frame.atoms("BTC").unwrap();
    let eth = frame.atoms("ETH").unwrap();
    let btc_schema = btc.atoms[0].1.overlays.as_ref().unwrap().schema().clone();
    let eth_schema = eth.atoms[0].1.overlays.as_ref().unwrap().schema().clone();

    assert!(
        Arc::ptr_eq(&btc_schema, &eth_schema),
        "every symbol must reuse one Arc<Schema>, or `Get`'s ptr_eq guard rejects the reads"
    );
    assert!(
        btc_schema.contains("funding"),
        "a column only ETH carries must still be registered for BTC"
    );
    // BTC has no cell for it, which reads as an absent sample rather than
    // as a missing column.
    let i = btc_schema.index_of("funding").unwrap();
    assert!(matches!(
        btc.atoms[0].1.overlays.as_ref().unwrap().get(i),
        Some(OverlayValue::Real(v)) if v.is_nan()
    ));
}

#[test]
fn a_series_with_no_ohlc_loads_as_overlay_only_atoms() {
    let mut files = Files::new();
    // A funding series has no price. It must load, carry its column, and
    // stay unpriceable rather than being rejected for missing `open`.
    let path = files.csv(
        "fugazi_atoms_overlay_only.csv",
        "symbol;time;funding\nBTC.funding;1;0.0003\nBTC.funding;2;-0.0001\n",
    );
    let frame = files.frame(&[format!("@{path}")]).unwrap();
    let series = frame.atoms("BTC.funding").unwrap();
    assert_eq!(series.atoms.len(), 2);
    for (_, atom) in &series.atoms {
        assert!(atom.candle.is_none(), "an overlay series carries no bar");
        assert!(!atom.is_priceable());
    }
    let ov = series.atoms[0].1.overlays.as_ref().unwrap();
    let i = ov.schema().index_of("funding").unwrap();
    assert_eq!(ov.get(i), Some(&OverlayValue::Real(dbl(0.0003))));
}

#[test]
fn a_blank_ohlcv_block_round_trips_back_through_series() {
    let mut files = Files::new();
    // `fugazi get` writes the header for every column and leaves the OHLCV
    // cells empty on an overlay row. Reading that file back must yield an
    // overlay-only atom, not a parse failure on `""`.
    let path = files.csv(
        "fugazi_atoms_blank_ohlcv.csv",
        "symbol;time;open;high;low;close;volume;funding\n\
         BTC.funding;1;;;;;;0.0003\n",
    );
    let frame = files.frame(&[format!("@{path}")]).unwrap();
    let series = frame.atoms("BTC.funding").unwrap();
    assert!(series.atoms[0].1.candle.is_none());
}

#[test]
fn a_half_filled_price_bar_is_an_error() {
    let mut files = Files::new();
    // Some OHLC but not all is a malformed candle. Demoting it to
    // overlay-only would swallow the typo.
    let path = files.csv(
        "fugazi_atoms_half_bar.csv",
        "symbol;time;open;high;close\nBTC;1;10;11;10.5\n",
    );
    let frame = files.frame(&[format!("@{path}")]).unwrap();
    let err = frame.atoms("BTC").unwrap_err();
    assert!(err.contains("`low`"), "got {err}");
    assert!(err.contains("malformed candle"), "got {err}");
}

#[test]
fn atoms_reject_unknown_symbol() {
    let mut files = Files::new();
    let path = files.csv(
        "fugazi_atoms_unknown_symbol.csv",
        "time;open;high;low;close\n1;10;11;9;10\n",
    );
    let frame =
        files.frame(&[format!("symbol=BTC,@{path}")]).unwrap();
    assert!(frame.atoms("ETH").is_err());
}

// ------------------------------------------------------------- cadences

/// A daily bar and the midnight bar of an hourly series share a time and stay
/// apart.
#[test]
fn two_cadences_at_one_timestamp_no_longer_collide() {
    let mut files = Files::new();
    let path = files.csv(
        "fugazi_cadence_collide.csv",
        "symbol,freq,time,open,high,low,close,volume\n\
         BTC,1d,2024-01-01T00:00:00Z,100,100,100,100,1\n\
         BTC,1h,2024-01-01T00:00:00Z,50,50,50,50,1\n\
         BTC,1h,2024-01-01T01:00:00Z,51,51,51,51,1\n",
    );
    let frame = files.frame(&[format!("@{path}")]).unwrap();
    // Three rows in, three rows held — the two midnight bars are distinct.
    assert_eq!(frame.len(), 3);
    assert_eq!(
        frame.cell("BTC", "1d", "2024-01-01T00:00:00Z", "close").unwrap().text,
        "100"
    );
    assert_eq!(
        frame.cell("BTC", "1h", "2024-01-01T00:00:00Z", "close").unwrap().text,
        "50"
    );
    assert_eq!(frame.frequencies_of("BTC"), ["1d", "1h"]);
}

/// …and reading it as one stream is refused rather than silently
/// interleaved. The message has to name both cadences: knowing *which*
/// stray series leaked in is the whole fix.
#[test]
fn atoms_refuse_a_symbol_carrying_two_cadences() {
    let mut files = Files::new();
    let path = files.csv(
        "fugazi_cadence_atoms_refuse.csv",
        "symbol,freq,time,open,high,low,close,volume\n\
         BTC,1d,2024-01-01T00:00:00Z,100,100,100,100,1\n\
         BTC,1h,2024-01-01T01:00:00Z,50,50,50,50,1\n",
    );
    let frame = files.frame(&[format!("@{path}")]).unwrap();
    let err = frame.atoms("BTC").unwrap_err();
    assert!(err.contains("carries 2 cadences"), "got {err}");
    assert!(err.contains("1d, 1h"), "got {err}");
    assert!(err.contains("-f/--frequency BTC:<CODE>"), "got {err}");
}

/// A frame with one cadence per symbol reads in ascending order of time.
#[test]
fn one_cadence_per_symbol_reads_unchanged() {
    let mut files = Files::new();
    let path = files.csv(
        "fugazi_cadence_single.csv",
        "symbol,freq,time,open,high,low,close,volume\n\
         BTC,1d,2024-01-02T00:00:00Z,2,2,2,2,1\n\
         BTC,1d,2024-01-01T00:00:00Z,1,1,1,1,1\n\
         ETH,1d,2024-01-01T00:00:00Z,9,9,9,9,1\n",
    );
    let frame = files.frame(&[format!("@{path}")]).unwrap();
    assert_eq!(frame.symbols(), ["BTC", "ETH"]);
    let series = frame.atoms("BTC").unwrap();
    assert_eq!(series.atoms.len(), 2);
    assert_eq!(series.atoms[0].0, "2024-01-01T00:00:00Z");
    assert_eq!(series.atoms[1].0, "2024-01-02T00:00:00Z");
}

/// The documented two-`get`-into-two-`--series` join, with a hand-written
/// overlay CSV that has no `freq` column. Keying the blank cell as its own
/// group would put the overlay in a different bucket from the price and
/// break the join outright.
#[test]
fn untagged_rows_join_the_symbols_sole_declared_cadence() {
    let mut files = Files::new();
    let prices = files.csv(
        "fugazi_cadence_fold_px.csv",
        "symbol,freq,time,open,high,low,close,volume\n\
         BTC,1d,2024-01-01T00:00:00Z,100,100,100,100,1\n\
         BTC,1d,2024-01-02T00:00:00Z,101,101,101,101,1\n",
    );
    let overlay = files.csv(
        "fugazi_cadence_fold_ov.csv",
        "symbol,time,sentiment\n\
         BTC,2024-01-01T00:00:00Z,0.5\n\
         BTC,2024-01-02T00:00:00Z,0.7\n",
    );
    let frame = files.frame(&[
        format!("@{prices}"),
        format!("@{overlay}"),
    ])
    .unwrap();
    assert_eq!(frame.frequencies_of("BTC"), ["1d"]);
    assert_eq!(frame.len(), 2);
    let series = frame.atoms("BTC").unwrap();
    assert_eq!(series.atoms.len(), 2);
    // The overlay landed on the price rows rather than beside them.
    let schema = series.atoms[0].1.overlays.as_ref().unwrap();
    assert_eq!(schema.schema().keys(), ["sentiment"]);
}

/// The fold is a *pre*-pass, so the rows still merge in the order the
/// `--series` flags were given and "the later series wins a column clash"
/// is unchanged. Folding after the inserts would have made the untagged
/// side win regardless of where it was typed.
#[test]
fn folding_untagged_rows_preserves_series_order() {
    let mut files = Files::new();
    let tagged = files.csv(
        "fugazi_cadence_order_a.csv",
        "symbol,freq,time,open,high,low,close,volume,note\n\
         BTC,1d,2024-01-01T00:00:00Z,100,100,100,100,1,tagged\n",
    );
    let untagged = files.csv(
        "fugazi_cadence_order_b.csv",
        "symbol,time,note\nBTC,2024-01-01T00:00:00Z,untagged\n",
    );
    let untagged_last = files.frame(&[
        format!("@{tagged}"),
        format!("@{untagged}"),
    ])
    .unwrap();
    assert_eq!(untagged_last.cell("BTC", "1d", "2024-01-01T00:00:00Z", "note").unwrap().text, "untagged");

    let tagged_last = files.frame(&[
        format!("@{untagged}"),
        format!("@{tagged}"),
    ])
    .unwrap();
    assert_eq!(tagged_last.cell("BTC", "1d", "2024-01-01T00:00:00Z", "note").unwrap().text, "tagged");
}

/// With two declared cadences there is no sole cadence to adopt, so the
/// untagged rows stay in their own group for the census to report. Guessing
/// one would re-create the silent-merge bug in a new place.
#[test]
fn untagged_rows_stay_apart_when_the_symbol_declares_two_cadences() {
    let mut files = Files::new();
    let path = files.csv(
        "fugazi_cadence_no_fold.csv",
        "symbol,freq,time,open,high,low,close,volume\n\
         BTC,1d,2024-01-01T00:00:00Z,100,100,100,100,1\n\
         BTC,1h,2024-01-01T01:00:00Z,50,50,50,50,1\n",
    );
    let overlay = files.csv(
        "fugazi_cadence_no_fold_ov.csv",
        "symbol,time,sentiment\nBTC,2024-01-01T00:00:00Z,0.5\n",
    );
    let frame = files.frame(&[
        format!("@{path}"),
        format!("@{overlay}"),
    ])
    .unwrap();
    assert_eq!(frame.frequencies_of("BTC"), ["", "1d", "1h"]);
}

/// The fold is per symbol: BTC's sole cadence says nothing about ETH's.
#[test]
fn the_untagged_fold_does_not_leak_across_symbols() {
    let mut files = Files::new();
    let path = files.csv(
        "fugazi_cadence_fold_scope.csv",
        "symbol,freq,time,open,high,low,close,volume\n\
         BTC,1d,2024-01-01T00:00:00Z,100,100,100,100,1\n\
         ETH,,2024-01-01T00:00:00Z,9,9,9,9,1\n",
    );
    let frame = files.frame(&[format!("@{path}")]).unwrap();
    assert_eq!(frame.frequencies_of("BTC"), ["1d"]);
    assert_eq!(frame.frequencies_of("ETH"), [""]);
}

/// `1M` is a month and `1m` is a minute — the `freq` cell is the one place
/// in this loader where case carries meaning, so it is never folded.
#[test]
fn the_freq_cell_is_not_case_folded() {
    let mut files = Files::new();
    let path = files.csv(
        "fugazi_cadence_case.csv",
        "symbol,freq,time,open,high,low,close,volume\n\
         BTC,1M,2024-01-01T00:00:00Z,100,100,100,100,1\n\
         BTC,1m,2024-01-01T00:01:00Z,50,50,50,50,1\n",
    );
    let frame = files.frame(&[format!("@{path}")]).unwrap();
    assert_eq!(frame.frequencies_of("BTC"), ["1M", "1m"]);
}

/// A blank `freq` cell is a missing label, not a cadence named "".
#[test]
fn a_blank_freq_cell_is_treated_as_absent() {
    let mut files = Files::new();
    let path = files.csv(
        "fugazi_cadence_blank.csv",
        "symbol,freq,time,open,high,low,close,volume\n\
         BTC,  ,2024-01-01T00:00:00Z,100,100,100,100,1\n\
         BTC,1d,2024-01-02T00:00:00Z,101,101,101,101,1\n",
    );
    let frame = files.frame(&[format!("@{path}")]).unwrap();
    assert_eq!(frame.frequencies_of("BTC"), ["1d"]);
}

#[test]
fn declared_frequency_reads_a_sole_parseable_label() {
    let mut files = Files::new();
    let path = files.csv(
        "fugazi_cadence_declared.csv",
        "symbol,freq,time,open,high,low,close,volume\n\
         BTC,4h,2024-01-01T00:00:00Z,100,100,100,100,1\n\
         ETH,weekly,2024-01-01T00:00:00Z,9,9,9,9,1\n\
         SOL,,2024-01-01T00:00:00Z,9,9,9,9,1\n",
    );
    let frame = files.frame(&[format!("@{path}")]).unwrap();
    assert_eq!(frame.declared_frequency("BTC"), Some(Frequency::Hour(4)));
    // Labelled, but not as anything `Frequency` knows.
    assert_eq!(frame.declared_frequency("ETH"), None);
    assert_eq!(frame.declared_frequency("SOL"), None);
    assert_eq!(frame.declared_frequency("DOGE"), None);
}

/// Ambiguity has no declared cadence to report — asking a symbol that
/// carries two would otherwise hand back whichever sorted first.
#[test]
fn declared_frequency_is_none_while_a_symbol_is_ambiguous() {
    let mut files = Files::new();
    let path = files.csv(
        "fugazi_cadence_declared_ambiguous.csv",
        "symbol,freq,time,open,high,low,close,volume\n\
         BTC,1d,2024-01-01T00:00:00Z,100,100,100,100,1\n\
         BTC,1h,2024-01-01T01:00:00Z,50,50,50,50,1\n",
    );
    let mut frame = files.frame(&[format!("@{path}")]).unwrap();
    assert_eq!(frame.declared_frequency("BTC"), None);
    // Once resolved, the survivor answers.
    frame.retain_cadence("BTC", "1h");
    assert_eq!(frame.declared_frequency("BTC"), Some(Frequency::Hour(1)));
}

#[test]
fn retain_cadence_prunes_only_the_named_symbol() {
    let mut files = Files::new();
    let path = files.csv(
        "fugazi_cadence_retain.csv",
        "symbol,freq,time,open,high,low,close,volume\n\
         BTC,1d,2024-01-01T00:00:00Z,100,100,100,100,1\n\
         BTC,1h,2024-01-01T01:00:00Z,50,50,50,50,1\n\
         ETH,1h,2024-01-01T01:00:00Z,9,9,9,9,1\n",
    );
    let mut frame = files.frame(&[format!("@{path}")]).unwrap();
    frame.retain_cadence("BTC", "1d");
    assert_eq!(frame.frequencies_of("BTC"), ["1d"]);
    assert_eq!(frame.frequencies_of("ETH"), ["1h"]);
    assert_eq!(frame.atoms("BTC").unwrap().atoms.len(), 1);
}

/// Pruning can retire the last row carrying a column, so the memoized
/// frame-wide schema has to be rebuilt — a stale `Arc` here would leave
/// every `!get` resolving against columns the run no longer has.
#[test]
fn retain_cadence_rebuilds_the_memoized_schema() {
    let mut files = Files::new();
    let path = files.csv(
        "fugazi_cadence_retain_schema.csv",
        "symbol,freq,time,open,high,low,close,volume,funding\n\
         BTC,1d,2024-01-01T00:00:00Z,100,100,100,100,1,\n\
         BTC,8h,2024-01-01T08:00:00Z,50,50,50,50,1,0.01\n",
    );
    let mut frame = files.frame(&[format!("@{path}")]).unwrap();
    // Memoize it first, so the test really exercises the invalidation.
    assert!(frame.shared_schema().is_some());
    frame.retain_cadence("BTC", "1d");
    let schema = frame.shared_schema().expect("the column still exists");
    assert_eq!(schema.keys(), ["funding"]);
    assert_eq!(frame.atoms("BTC").unwrap().atoms.len(), 1);
}

#[test]
fn cadence_groups_sorts_stamps_and_skips_unparseable_times() {
    let mut files = Files::new();
    let path = files.csv(
        "fugazi_cadence_groups.csv",
        "symbol,freq,time,open,high,low,close,volume\n\
         BTC,1d,1704153600,100,100,100,100,1\n\
         BTC,1d,1704067200,100,100,100,100,1\n\
         BTC,1d,not-a-time,100,100,100,100,1\n",
    );
    let frame = files.frame(&[format!("@{path}")]).unwrap();
    let groups = frame.cadence_groups();
    assert_eq!(groups.len(), 1);
    let group = &groups[0];
    assert_eq!((group.symbol.as_str(), group.freq.as_str()), ("BTC", "1d"));
    // Epoch seconds sort lexicographically the wrong way round in the key;
    // the census gets them ascending, and the unparseable row is absent
    // rather than counted as a bar it cannot space.
    assert_eq!(group.stamps, [1_704_067_200_000, 1_704_153_600_000]);
}

#[test]
fn cadence_groups_separates_every_symbol_and_label() {
    let mut files = Files::new();
    let path = files.csv(
        "fugazi_cadence_groups_split.csv",
        "symbol,freq,time,open,high,low,close,volume\n\
         BTC,1d,2024-01-01T00:00:00Z,100,100,100,100,1\n\
         BTC,1h,2024-01-01T01:00:00Z,50,50,50,50,1\n\
         ETH,1d,2024-01-01T00:00:00Z,9,9,9,9,1\n",
    );
    let frame = files.frame(&[format!("@{path}")]).unwrap();
    let seen: Vec<(String, String, usize)> = frame
        .cadence_groups()
        .into_iter()
        .map(|g| (g.symbol, g.freq, g.stamps.len()))
        .collect();
    assert_eq!(
        seen,
        [
            ("BTC".to_string(), "1d".to_string(), 1),
            ("BTC".to_string(), "1h".to_string(), 1),
            ("ETH".to_string(), "1d".to_string(), 1),
        ]
    );
}

/// `"nan"`, `"NaN"`, `"inf"` and `"-inf"` all parse as an `f64`, and a
/// `Candle` is five bare `Real`s with no `None` to fall back to. One such
/// cell would poison the whole run silently. A genuine gap is a row that is absent, not
/// a row that says `NaN`.
#[test]
fn a_non_finite_price_is_refused_rather_than_marked() {
    let mut files = Files::new();
    for bad in ["NaN", "nan", "inf", "-inf", "Infinity"] {
        let path = files.csv(
            "fugazi_nonfinite.csv",
            &format!("symbol;time;open;high;low;close;volume\nBTC;1;10;11;9;{bad};100\n"),
        );
        let frame = files.frame(&[format!("@{path}")])
            .expect("the frame loads; the candle is parsed on demand");
        let err = frame
            .atoms("BTC")
            .expect_err(&format!("`{bad}` must be refused as a close"));
        let msg = err;
        assert!(
            msg.contains("finite"),
            "the error should say why, got: {msg}"
        );
    }
    // A non-finite *volume* is refused on the same footing.
    let path = files.csv(
        "fugazi_nonfinite_vol.csv",
        "symbol;time;open;high;low;close;volume\nBTC;1;10;11;9;10.5;NaN\n",
    );
    let frame = files.frame(&[format!("@{path}")]).unwrap();
    assert!(frame.atoms("BTC").is_err());

    // An ordinary row is untouched, and an empty volume still defaults.
    let path = files.csv(
        "fugazi_finite.csv",
        "symbol;time;open;high;low;close;volume\nBTC;1;10;11;9;10.5;\n",
    );
    let frame = files.frame(&[format!("@{path}")]).unwrap();
    assert_eq!(frame.atoms("BTC").unwrap().atoms.len(), 1);
}

/// A quoted value loses one pair of quotes, and a word without `=` is refused.
#[test]
fn series_terms_are_read() {
    let spec = SeriesSpec::parse("symbol='BTC',exchange=\"NYSE\",@a.csv,@b.csv").unwrap();
    assert_eq!(
        spec.literals,
        [("symbol".to_string(), "BTC".to_string()), ("exchange".to_string(), "NYSE".to_string())]
    );
    assert_eq!(spec.files, ["a.csv", "b.csv"]);
    assert!(SeriesSpec::parse("oops,@a.csv").is_err());
}

/// Header names are compared in lower case, whatever letters they have.
#[test]
fn header_names_are_lower_case() {
    let mut files = Files::new();
    let path = files.csv("upper.csv", "SYMBOL,TIME,OPEN,HIGH,LOW,CLOSE,\u{c9}T\u{c9}\nBTC,1,1,1,1,1,x\n");
    let frame = files.frame(&[format!("@{path}")]).unwrap();
    assert_eq!(frame.cell("BTC", "", "1", "\u{e9}t\u{e9}").unwrap().text, "x");
}

/// A symbol that is kept at one cadence has no other rows; the others are as
/// before.
#[test]
fn times_are_counted_by_group() {
    let mut files = Files::new();
    let path = files.csv(
        "census.csv",
        "symbol,freq,time,close\nBTC,1d,2024-01-01,1\nBTC,1d,oops,1\n",
    );
    let frame = files.frame(&[format!("@{path}")]).unwrap();
    let census = frame.time_census();
    assert_eq!(census.len(), 1);
    assert_eq!((census[0].with_cell, census[0].parsed), (2, 1));
    assert_eq!(census[0].example.as_deref(), Some("oops"));
    assert!(frame.has_parseable_times());
}
