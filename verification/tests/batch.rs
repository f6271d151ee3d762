//! The tables and the files of a batch.

use fugazi::batch::{
    any_costs, bucket_by_dir, effective_cadence, files, freq_code_or_empty, gather, is_own_symbol,
    label, loose_cols, loose_freq, loose_symbol, metrics_header, metrics_row, returns_header,
    shared_metrics, shared_returns, shared_trades, shared_windows, sort_rows, sort_slots, totals,
    trade_row, trades_header, windowed_header, windowed_row, Files, Slot,
};
use fugazi::calendar::ScopedFrequency;
use fugazi::frequency::Frequency;
use fugazi::iteration::SummaryRow;
use fugazi::number::Real;
use fugazi::sorting::{SeriesKey, TimedKey};

fn words(parts: &[&str]) -> Vec<String> {
    parts.iter().map(|p| p.to_string()).collect()
}

fn slot(symbol: &str, freq: Option<Frequency>, costs_active: bool) -> Slot {
    Slot { symbol: symbol.to_string(), freq, costs_active }
}

#[test]
fn a_series_is_labelled_with_its_cadence() {
    assert_eq!(label("BTC", Some("1h")), "BTC[1h]");
    assert_eq!(label("BTC", None), "BTC");
    assert!(is_own_symbol("BTC", "BTC"));
    assert!(!is_own_symbol("BTC", "btc"));
}

/// A flag beats the name of the file, and that beats the times.
#[test]
fn the_cadence_is_asked_for_named_or_shown() {
    let flag: ScopedFrequency = "BTC:4h".parse().unwrap();
    let days = words(&["2024-01-01", "2024-01-02", "2024-01-03"]);
    let hour = Some(Frequency::Hour(1));
    let day = Some(Frequency::Day(1));
    let asked = effective_cadence(&[flag.clone()], "BTC", Some("1h"), &days);
    assert_eq!(asked, Some(Frequency::Hour(4)));
    assert_eq!(effective_cadence(&[flag], "ETH", Some("1h"), &days), hour);
    assert_eq!(effective_cadence(&[], "BTC", Some("nope"), &days), day);
    assert_eq!(effective_cadence(&[], "BTC", None, &[]), None);
}

/// Every thing lands in the bucket of its directory, in order.
#[test]
fn buckets_hold_everything_in_order() {
    let items = vec![
        ("b".to_string(), 1),
        ("a".to_string(), 2),
        ("b".to_string(), 3),
    ];
    assert_eq!(bucketed(items), [("a".to_string(), vec![2]), ("b".to_string(), vec![1, 3])]);
}

/// The buckets, each as its text and its things.
fn bucketed(items: Vec<(String, i32)>) -> Vec<(String, Vec<i32>)> {
    bucket_by_dir(items).entries.into_iter().map(|(_, b)| (b.dir, b.items)).collect()
}

/// Texts that spell one directory share a bucket, under the first of them.
#[test]
fn spellings_of_one_directory_share_a_bucket() {
    let of = |dirs: &[&str]| {
        bucketed(dirs.iter().zip(1..).map(|(d, i)| (d.to_string(), i)).collect())
    };
    assert_eq!(
        of(&["out/BTC/", "out/./BTC", "out//BTC", "out/BTC/.", "out/BTC"]),
        [("out/BTC/".to_string(), vec![1, 2, 3, 4, 5])]
    );
    assert_eq!(of(&["./a", "a", "/a", "a/../a", "", "/"]).len(), 6);
    assert_eq!(of(&[".", "./", "./."]).len(), 1);
    assert_eq!(of(&["/.", "//", "/"]).len(), 1);
}

/// Buckets come in the order of the directories, part by part.
#[test]
fn buckets_come_in_the_order_of_paths() {
    let dirs = ["b", "a-b", "a/b", "a", "..", ".", "/z", "", "a/.."];
    let items = dirs.iter().map(|d| (d.to_string(), 0)).collect();
    let got: Vec<String> = bucketed(items).into_iter().map(|(d, _)| d).collect();
    assert_eq!(got, ["", "/z", ".", "..", "a", "a/..", "a/b", "a-b", "b"]);
    let mut sorted: Vec<std::path::PathBuf> = dirs.iter().map(std::path::PathBuf::from).collect();
    sorted.sort();
    assert_eq!(sorted, got.iter().map(std::path::PathBuf::from).collect::<Vec<_>>());
}

#[test]
fn one_series_has_nothing_loose() {
    let day = Some(Frequency::Day(1));
    let hour = Some(Frequency::Hour(1));
    assert!(!loose_symbol(&[slot("A", day, false)]));
    assert!(!loose_freq(&[slot("A", day, false)]));
    let pair = [slot("A", day, false), slot("B", hour, true)];
    assert!(loose_symbol(&pair));
    assert!(loose_freq(&pair));
    assert!(any_costs(&pair));
    assert!(!loose_freq(&[slot("A", day, false), slot("B", day, false)]));
    assert!(loose_freq(&[slot("A", None, false), slot("A", day, false)]));
    assert!(!any_costs(&pair[..1]));
}

#[test]
fn the_files_follow_the_series() {
    assert_eq!(files(1, false), Files { document: true, table: false, windows: false });
    assert_eq!(files(2, false), Files { document: false, table: true, windows: false });
    assert_eq!(files(2, true), Files { document: false, table: false, windows: true });
}

#[test]
fn slots_are_sorted_by_symbol_and_cadence() {
    let key = |symbol: &str, freq| SeriesKey { symbol: symbol.to_string(), freq };
    let sorted = sort_slots(vec![
        (key("B", Some(Frequency::Day(1))), 1),
        (key("A", Some(Frequency::Day(1))), 2),
        (key("A", Some(Frequency::Hour(4))), 3),
        (key("A", None), 4),
    ]);
    let order: Vec<i32> = sorted.iter().map(|(_, n)| *n).collect();
    assert_eq!(order, [4, 3, 2, 1]);
}

/// The columns of the rows are those of the header.
#[test]
fn trade_rows_fit_the_header() {
    assert_eq!(trades_header(false, false, false), [
        "time", "symbol", "side", "units", "price", "kind"
    ]);
    assert_eq!(trades_header(true, true, true), [
        "symbol", "freq", "time", "side", "units", "price", "kind", "commission"
    ]);
    let trade = words(&["2024-01-01", "BTC", "buy", "1", "2", "market"]);
    let loose = loose_cols("BTC", Some(Frequency::Hour(1)), true, true);
    assert_eq!(loose, ["BTC", "1h"]);
    assert_eq!(trade_row(&loose, &trade, true), [
        "BTC", "1h", "2024-01-01", "buy", "1", "2", "market"
    ]);
    assert_eq!(trade_row(&words(&[]), &trade, false), trade);
    assert_eq!(freq_code_or_empty(None), "");
}

#[test]
fn measures_have_a_column_each() {
    let names = words(&["sharpe", "cagr"]);
    assert_eq!(returns_header(true, false), ["symbol", "time", "equity", "return"]);
    assert_eq!(metrics_header(false, true, &names), ["freq", "sharpe", "cagr"]);
    assert_eq!(windowed_header(false, false, &names), [
        "window_start", "window_end", "sharpe", "cagr"
    ]);
    let values = [Some("1.5".to_string()), None];
    assert_eq!(metrics_row(&words(&["BTC"]), &values), ["BTC", "1.5", ""]);
    let bars = words(&["d1", "d2", "d3"]);
    assert_eq!(windowed_row(&words(&[]), &bars, 0, 2, &values), ["d1", "d3", "1.5", ""]);
}

/// Rows are put in order by symbol, cadence and time; equal ones stay in order.
#[test]
fn rows_are_sorted_stably() {
    let day = Some(Frequency::Day(1));
    let hour = Some(Frequency::Hour(1));
    let row = |symbol: &str, freq, time: &str, text: &str| {
        let series = SeriesKey { symbol: symbol.to_string(), freq };
        (TimedKey { series, time: time.to_string() }, words(&[text]))
    };
    let sorted = sort_rows(vec![
        row("B", hour, "1", "x"),
        row("A", day, "2", "y"),
        row("A", day, "1", "z"),
        row("A", day, "2", "w"),
        row("A", hour, "9", "v"),
        row("A", None, "9", "u"),
    ]);
    let texts: Vec<&str> = sorted.iter().map(|r| r[0].as_str()).collect();
    assert_eq!(texts, ["u", "v", "z", "y", "w", "x"]);
}

/// In a shared table an hour stands before a day, though its code does not.
#[test]
fn shared_rows_go_by_the_length_of_their_cadences() {
    let slots =
        [slot("A", Some(Frequency::Day(1)), false), slot("A", Some(Frequency::Hour(1)), false)];
    let names = words(&["sharpe"]);
    let windows = [
        vec![words(&["d1", "d2", "1"])],
        vec![words(&["d3", "d4", "2"]), words(&["d2", "d3", "3"])],
    ];
    let table = shared_windows(&slots, &names, &windows);
    assert_eq!(table.header, ["freq", "window_start", "window_end", "sharpe"]);
    assert_eq!(table.rows, [
        words(&["1h", "d2", "d3", "3"]),
        words(&["1h", "d3", "d4", "2"]),
        words(&["1d", "d1", "d2", "1"]),
    ]);
}

/// The tables of a bucket lead with what is loose, and are sorted by it and by time.
#[test]
fn a_bucket_shares_its_tables() {
    let hour = Some(Frequency::Hour(1));
    let slots = [slot("A", hour, false), slot("B", hour, true)];
    let trade = |time: &str, symbol: &str| words(&[time, symbol, "buy", "1", "2", "market"]);
    let trades = [
        vec![trade("d2", "A"), trade("d1", "A")],
        vec![trade("d1", "B")],
    ];
    let table = shared_trades(&slots, &trades);
    assert_eq!(table.header, ["symbol", "time", "side", "units", "price", "kind", "commission"]);
    assert_eq!(table.rows, [
        words(&["A", "d1", "buy", "1", "2", "market"]),
        words(&["A", "d2", "buy", "1", "2", "market"]),
        words(&["B", "d1", "buy", "1", "2", "market"]),
    ]);
    let alone = shared_trades(&slots[..1], &trades[..1]);
    assert_eq!(alone.header, ["time", "symbol", "side", "units", "price", "kind"]);
    assert_eq!(alone.rows, [trade("d1", "A"), trade("d2", "A")]);

    let gains = [vec![words(&["d1", "10", "0"])], vec![words(&["d1", "20", "1"])]];
    let table = shared_returns(&slots, &gains);
    assert_eq!(table.header, ["symbol", "time", "equity", "return"]);
    assert_eq!(table.rows[1], ["B", "d1", "20", "1"]);

    let names = words(&["sharpe"]);
    let windows = [vec![words(&["d1", "d2", "0.5"])], Vec::new()];
    let table = shared_windows(&slots, &names, &windows);
    assert_eq!(table.header, ["symbol", "window_start", "window_end", "sharpe"]);
    assert_eq!(table.rows, [words(&["A", "d1", "d2", "0.5"])]);

    let values = [vec![Some("0.5".to_string())], vec![None]];
    let table = shared_metrics(&slots, &names, &values);
    assert_eq!(table.header, ["symbol", "sharpe"]);
    assert_eq!(table.rows, [words(&["A", "0.5"]), words(&["B", ""])]);
}

#[test]
fn a_batch_is_gathered_up_to_the_first_failure() {
    let fine = vec![Ok(Some(1)), Ok(None), Ok(Some(2))];
    assert_eq!(gather(fine), Ok((vec![1, 2], 1)));
    let failed = vec![Ok(Some(1)), Err("first".to_string()), Err("second".to_string())];
    assert_eq!(gather(failed), Err("first".to_string()));
    let run = |fills, bars| SummaryRow { final_equity: Real { bits: 0 }, fills, bars };
    assert_eq!(totals(&[run(1, 10), run(2, 20)]), (30, 3));
    assert_eq!(totals(&[]), (0, 0));
}
