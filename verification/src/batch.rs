//! Running one strategy over many series, and the tables that come of it.
//!
//! The series that write to one directory form a bucket. In a bucket a symbol or a
//! cadence that differs between series is loose: every table then begins with a
//! column for it.

use vstd::prelude::*;

use crate::calendar;
use crate::calendar::ScopedFrequency;
use crate::frequency;
use crate::frequency::Frequency;
use crate::iteration::SummaryRow;
use crate::ordmap;
use crate::ordmap::{Key, OrdMap};
use crate::paths;
use crate::paths::{Directory, PartModel};
use crate::sorting;
use crate::sorting::{reversed, SeriesKey, TimedKey};
use crate::text;

verus! {

// ---------------------------------------------------------------------------
// One series
// ---------------------------------------------------------------------------

/// How a series is called in a message: `BTC[1h]`, or `BTC` where its cadence is
/// not known.
pub open spec fn series_label(symbol: Seq<char>, freq: Option<Seq<char>>) -> Seq<char> {
    match freq {
        Some(f) => symbol + "["@ + f + "]"@,
        None => symbol,
    }
}

/// How a series is called in a message.
pub fn label(symbol: &str, freq: Option<&str>) -> (out: String)
    ensures
        out@ == series_label(
            symbol@,
            match freq {
                Some(f) => Some(f@),
                None => None,
            },
        ),
{
    let mut out: String = symbol.to_owned();
    match freq {
        Some(f) => {
            out.append("[");
            out.append(f);
            out.append("]");
        },
        None => {},
    }
    out
}

/// The cadence of a series: the one that was asked for; else the one that the data
/// names, where it is a cadence; else the one that its times show.
pub open spec fn series_cadence(
    asked: Option<Frequency>,
    named: Option<Seq<char>>,
    shown: Option<Frequency>,
) -> Option<Frequency> {
    match asked {
        Some(f) => Some(f),
        None => match named {
            Some(code) => match frequency::parsed_frequency(code) {
                Some(f) => Some(f),
                None => shown,
            },
            None => shown,
        },
    }
}

/// The milliseconds of the times that can be read, in order.
pub open spec fn readable_times(times: Seq<String>) -> Seq<i64>
    decreases times.len(),
{
    if times.len() == 0 {
        seq![]
    } else {
        match calendar::parsed_millis(times.last()@) {
            Some(t) => readable_times(times.drop_last()).push(t as i64),
            None => readable_times(times.drop_last()),
        }
    }
}

/// The cadence of one series of a batch.
pub fn effective_cadence(
    specs: &[ScopedFrequency],
    symbol: &str,
    named: Option<&str>,
    times: &[String],
) -> (out: Option<Frequency>)
    ensures
        out == series_cadence(
            calendar::picked_frequency(specs@, symbol@),
            match named {
                Some(f) => Some(f@),
                None => None,
            },
            calendar::detected(readable_times(times@)),
        ),
{
    if let Some(f) = calendar::pick_frequency(specs, symbol) {
        return Some(f);
    }
    if let Some(code) = named {
        if let Ok(f) = Frequency::parse(code) {
            return Some(f);
        }
    }
    let mut stamps: Vec<i64> = Vec::new();
    let n: usize = times.len();
    assert(times@.take(0) =~= Seq::<String>::empty());
    for i in 0..n
        invariant
            n == times@.len(),
            stamps@ == readable_times(times@.take(i as int)),
    {
        assert(times@.take(i + 1).drop_last() =~= times@.take(i as int));
        if let Some(t) = calendar::parse_time_to_millis(&times[i]) {
            stamps.push(t);
        }
    }
    assert(times@.take(n as int) =~= times@);
    calendar::detect_frequency_from_millis(&stamps)
}

/// Whether a series is run: its strategy must be for its own symbol.
pub fn is_own_symbol(strategy: &str, series: &str) -> (out: bool)
    ensures
        out == (strategy@ == series@),
{
    text::same(strategy, series)
}

// ---------------------------------------------------------------------------
// Buckets
// ---------------------------------------------------------------------------

/// The things that go to a directory, in order, each with the text that spells the
/// directory for it.
pub open spec fn going_to<T>(items: Seq<(String, T)>, dir: Seq<PartModel>) -> Seq<(String, T)>
    decreases items.len(),
{
    if items.len() == 0 {
        seq![]
    } else if paths::parts_of(items.last().0@) == dir {
        going_to(items.drop_last(), dir).push(items.last())
    } else {
        going_to(items.drop_last(), dir)
    }
}

/// What goes to one directory.
#[derive(Debug)]
pub struct Bucket<T> {
    /// The directory, as its first thing spells it.
    pub dir: String,
    pub items: Vec<T>,
}

impl<T> Bucket<T> {
    /// Whether the bucket holds these things, in order, under the first one's text.
    pub open spec fn collects(self, going: Seq<(String, T)>) -> bool {
        &&& self.items@ == Seq::new(going.len(), |i: int| going[i].1)
        &&& self.dir == going[0].0
    }
}

/// Whether buckets hold each thing in that of its directory, in order, and no
/// bucket is empty. Texts that spell one directory share its bucket.
pub open spec fn bucketed<T>(
    buckets: Map<Seq<PartModel>, Bucket<T>>,
    items: Seq<(String, T)>,
) -> bool {
    &&& forall|dir: Seq<PartModel>| #[trigger]
        buckets.dom().contains(dir) <==> going_to(items, dir).len() > 0
    &&& forall|dir: Seq<PartModel>| #[trigger]
        buckets.dom().contains(dir) ==> buckets[dir].collects(going_to(items, dir))
}

/// Put things into the buckets of their directories, which come in the order of the
/// directories' parts.
pub fn bucket_by_dir<T>(items: Vec<(String, T)>) -> (out: OrdMap<Directory, Bucket<T>>)
    ensures
        out.wf(),
        bucketed(out@, items@),
{
    let ghost all = items@;
    // The things, last first, so that each can be moved out of the end.
    let mut back: Vec<(String, T)> = reversed(items);
    let mut out: OrdMap<Directory, Bucket<T>> = OrdMap::new();
    let ghost mut moved: int = 0;
    assert(all.take(0) =~= Seq::<(String, T)>::empty());
    while back.len() > 0
        invariant
            out.wf(),
            0 <= moved <= all.len(),
            moved + back@.len() == all.len(),
            forall|i: int| 0 <= i < back@.len() ==> #[trigger] back@[i] == all[all.len() - 1 - i],
            bucketed(out@, all.take(moved)),
        decreases back@.len(),
    {
        let ghost before = all.take(moved);
        let ghost now = all.take(moved + 1);
        assert(now.drop_last() =~= before);
        assert(back@[back@.len() - 1] == all[moved]);
        let ghost was = out@;
        if let Some((dir, thing)) = back.pop() {
            let key: Directory = Directory::parse(&dir);
            let ghost d = key.model();
            let ghost text = dir;
            assert(now.last() == (dir, thing));
            let mut bucket: Bucket<T> = match out.remove(&key) {
                Some(b) => b,
                None => Bucket { dir, items: Vec::new() },
            };
            proof {
                if !was.dom().contains(d) {
                    assert(going_to(before, d) =~= Seq::<(String, T)>::empty());
                }
                assert(bucket.items@ =~= Seq::new(
                    going_to(before, d).len(),
                    |i: int| going_to(before, d)[i].1,
                ));
            }
            bucket.items.push(thing);
            proof {
                assert(going_to(now, d) == going_to(before, d).push((text, thing)));
                assert(bucket.items@ =~= Seq::new(
                    going_to(now, d).len(),
                    |i: int| going_to(now, d)[i].1,
                ));
                assert(bucket.collects(going_to(now, d)));
            }
            out.insert(key, bucket);
            proof {
                assert forall|k: Seq<PartModel>| #[trigger]
                    out@.dom().contains(k) <==> going_to(now, k).len() > 0 by {
                    if k != d {
                        assert(was.dom().contains(k) <==> going_to(before, k).len() > 0);
                    }
                }
                assert forall|k: Seq<PartModel>| #[trigger]
                    out@.dom().contains(k) implies out@[k].collects(going_to(now, k)) by {
                    if k != d {
                        assert(was.dom().contains(k));
                    }
                }
            }
        }
        proof {
            moved = moved + 1;
        }
    }
    assert(all.take(moved) =~= all);
    out
}

/// One series of a bucket: what tells it from the others.
#[derive(Debug)]
pub struct Slot {
    pub symbol: String,
    pub freq: Option<Frequency>,
    /// Whether a cost model was active.
    pub costs_active: bool,
}

/// Whether two series of a bucket have different symbols.
pub open spec fn symbol_is_loose(slots: Seq<Slot>) -> bool {
    exists|i: int, j: int|
        0 <= i < slots.len() && 0 <= j < slots.len() && (#[trigger] slots[i]).symbol@ != (
        #[trigger] slots[j]).symbol@
}

/// Whether two series of a bucket have different cadences.
pub open spec fn freq_is_loose(slots: Seq<Slot>) -> bool {
    exists|i: int, j: int|
        0 <= i < slots.len() && 0 <= j < slots.len() && (#[trigger] slots[i]).freq != (
        #[trigger] slots[j]).freq
}

/// Whether two series of a bucket have different symbols.
pub fn loose_symbol(slots: &[Slot]) -> (out: bool)
    ensures
        out == symbol_is_loose(slots@),
{
    let n: usize = slots.len();
    for i in 0..n
        invariant
            n == slots@.len(),
            forall|j: int| 0 <= j < i ==> (#[trigger] slots@[j]).symbol@ == slots@[0].symbol@,
    {
        if !text::same(&slots[i].symbol, &slots[0].symbol) {
            assert(slots@[i as int].symbol@ != slots@[0].symbol@);
            return true;
        }
    }
    false
}

/// Whether two optional cadences are the same.
fn same_freq(a: Option<Frequency>, b: Option<Frequency>) -> (out: bool)
    ensures
        out == (a == b),
{
    match (a, b) {
        (None, None) => true,
        (Some(x), Some(y)) => x == y,
        _ => false,
    }
}

/// Whether two series of a bucket have different cadences.
pub fn loose_freq(slots: &[Slot]) -> (out: bool)
    ensures
        out == freq_is_loose(slots@),
{
    let n: usize = slots.len();
    for i in 0..n
        invariant
            n == slots@.len(),
            forall|j: int| 0 <= j < i ==> (#[trigger] slots@[j]).freq == slots@[0].freq,
    {
        if !same_freq(slots[i].freq, slots[0].freq) {
            assert(slots@[i as int].freq != slots@[0].freq);
            return true;
        }
    }
    false
}

/// Whether a cost model was active in one of the series.
pub open spec fn has_costs(slots: Seq<Slot>) -> bool {
    exists|i: int| 0 <= i < slots.len() && (#[trigger] slots[i]).costs_active
}

/// Tell whether a cost model was active in one of the series.
pub fn any_costs(slots: &[Slot]) -> (out: bool)
    ensures
        out == has_costs(slots@),
{
    let n: usize = slots.len();
    for i in 0..n
        invariant
            n == slots@.len(),
            forall|j: int| 0 <= j < i ==> !(#[trigger] slots@[j]).costs_active,
    {
        if slots[i].costs_active {
            return true;
        }
    }
    false
}

/// The files that hold a bucket's measures.
#[derive(Debug, Clone, Copy, PartialEq, Eq, Structural)]
pub struct Files {
    /// The document of the one series.
    pub document: bool,
    /// The table with one row for each series.
    pub table: bool,
    /// The tables with a row for each window.
    pub windows: bool,
}

/// The files that hold a bucket's measures: the document where there is one
/// series, the table where there are more and no windows, and the tables of the
/// windows where there are windows.
pub fn files(series: usize, windowed: bool) -> (out: Files)
    ensures
        out.document == (series == 1),
        out.table == (series != 1 && !windowed),
        out.windows == windowed,
{
    Files { document: series == 1, table: series != 1 && !windowed, windows: windowed }
}

/// Put the series of a bucket in order: by symbol, then by cadence.
pub fn sort_slots<T>(slots: Vec<(SeriesKey, T)>) -> (out: Vec<(SeriesKey, T)>)
    ensures
        exists|places: Seq<int>| sorting::stably_sorted(slots@, out@, places),
{
    sorting::stable_sort(slots)
}

// ---------------------------------------------------------------------------
// Tables
// ---------------------------------------------------------------------------

/// The columns for what is loose.
pub open spec fn loose_header(symbol: bool, freq: bool) -> Seq<Seq<char>> {
    (if symbol {
        seq!["symbol"@]
    } else {
        seq![]
    }) + (if freq {
        seq!["freq"@]
    } else {
        seq![]
    })
}

/// What stands in the columns for what is loose.
pub open spec fn loose_values(
    slot_symbol: Seq<char>,
    slot_freq: Option<Frequency>,
    symbol: bool,
    freq: bool,
) -> Seq<Seq<char>> {
    (if symbol {
        seq![slot_symbol]
    } else {
        seq![]
    }) + (if freq {
        seq![freq_text(slot_freq)]
    } else {
        seq![]
    })
}

/// The code of a cadence; nothing where it is not known.
pub open spec fn freq_text(freq: Option<Frequency>) -> Seq<char> {
    match freq {
        Some(f) => f.code(),
        None => seq![],
    }
}

/// The code of a cadence; nothing where it is not known.
pub fn freq_code_or_empty(freq: Option<Frequency>) -> (out: String)
    ensures
        out@ == freq_text(freq),
{
    match freq {
        Some(f) => f.format(),
        None => String::new(),
    }
}

/// Append a text to a row.
fn add_text(row: &mut Vec<String>, s: &str)
    ensures
        text::texts(final(row)@) == text::texts(old(row)@).push(s@),
{
    let ghost was = row@;
    row.push(s.to_owned());
    assert(text::texts(row@) =~= text::texts(was).push(s@));
}

/// Append texts to a row.
fn add_texts(row: &mut Vec<String>, more: &[String])
    ensures
        text::texts(final(row)@) == text::texts(old(row)@) + text::texts(more@),
{
    let ghost was = text::texts(row@);
    let n: usize = more.len();
    assert(was + text::texts(more@.take(0)) =~= was);
    for i in 0..n
        invariant
            n == more@.len(),
            text::texts(row@) == was + text::texts(more@.take(i as int)),
    {
        add_text(row, &more[i]);
        assert(text::texts(row@) =~= was + text::texts(more@.take(i + 1)));
    }
    assert(more@.take(n as int) =~= more@);
}

/// The columns for what is loose.
fn begin_header(symbol: bool, freq: bool) -> (out: Vec<String>)
    ensures
        text::texts(out@) == loose_header(symbol, freq),
{
    let mut out: Vec<String> = Vec::new();
    assert(text::texts(out@) =~= Seq::<Seq<char>>::empty());
    if symbol {
        add_text(&mut out, "symbol");
    }
    if freq {
        add_text(&mut out, "freq");
    }
    assert(text::texts(out@) =~= loose_header(symbol, freq));
    out
}

/// What stands in the columns for what is loose.
pub fn loose_cols(slot_symbol: &str, slot_freq: Option<Frequency>, symbol: bool, freq: bool) -> (out:
    Vec<String>)
    ensures
        text::texts(out@) == loose_values(slot_symbol@, slot_freq, symbol, freq),
{
    let mut out: Vec<String> = Vec::new();
    assert(text::texts(out@) =~= Seq::<Seq<char>>::empty());
    if symbol {
        add_text(&mut out, slot_symbol);
    }
    if freq {
        add_text(&mut out, &freq_code_or_empty(slot_freq));
    }
    assert(text::texts(out@) =~= loose_values(slot_symbol@, slot_freq, symbol, freq));
    out
}

/// The columns of the table of trades. The symbol of a trade has a column of its
/// own unless the symbol is loose; the commission has one where a cost model was
/// active.
pub open spec fn trades_columns(symbol: bool, freq: bool, costs: bool) -> Seq<Seq<char>> {
    loose_header(symbol, freq) + seq!["time"@] + (if symbol {
        seq![]
    } else {
        seq!["symbol"@]
    }) + seq!["side"@, "units"@, "price"@, "kind"@] + (if costs {
        seq!["commission"@]
    } else {
        seq![]
    })
}

/// The columns of the table of trades.
pub fn trades_header(symbol: bool, freq: bool, costs: bool) -> (out: Vec<String>)
    ensures
        text::texts(out@) == trades_columns(symbol, freq, costs),
{
    let mut out: Vec<String> = begin_header(symbol, freq);
    add_text(&mut out, "time");
    if !symbol {
        add_text(&mut out, "symbol");
    }
    add_text(&mut out, "side");
    add_text(&mut out, "units");
    add_text(&mut out, "price");
    add_text(&mut out, "kind");
    if costs {
        add_text(&mut out, "commission");
    }
    assert(text::texts(out@) =~= trades_columns(symbol, freq, costs));
    out
}

/// The columns of the table of returns.
pub fn returns_header(symbol: bool, freq: bool) -> (out: Vec<String>)
    ensures
        text::texts(out@) == loose_header(symbol, freq) + seq!["time"@, "equity"@, "return"@],
{
    let mut out: Vec<String> = begin_header(symbol, freq);
    add_text(&mut out, "time");
    add_text(&mut out, "equity");
    add_text(&mut out, "return");
    assert(text::texts(out@) =~= loose_header(symbol, freq) + seq![
        "time"@,
        "equity"@,
        "return"@,
    ]);
    out
}

/// The columns of the table of measures: what is loose, and the measures.
pub fn metrics_header(symbol: bool, freq: bool, names: &[String]) -> (out: Vec<String>)
    ensures
        text::texts(out@) == loose_header(symbol, freq) + text::texts(names@),
{
    let mut out: Vec<String> = begin_header(symbol, freq);
    add_texts(&mut out, names);
    out
}

/// The columns of the tables of windows: what is loose, the ends of the window,
/// and the measures.
pub fn windowed_header(symbol: bool, freq: bool, names: &[String]) -> (out: Vec<String>)
    ensures
        text::texts(out@) == loose_header(symbol, freq) + seq!["window_start"@, "window_end"@]
            + text::texts(names@),
{
    let mut out: Vec<String> = begin_header(symbol, freq);
    add_text(&mut out, "window_start");
    add_text(&mut out, "window_end");
    assert(text::texts(out@) =~= loose_header(symbol, freq) + seq![
        "window_start"@,
        "window_end"@,
    ]);
    add_texts(&mut out, names);
    out
}

/// A row of the table of trades: what is loose, and the trade; without its symbol,
/// the second of its texts, where the symbol is loose.
pub open spec fn trade_cells(
    loose: Seq<Seq<char>>,
    trade: Seq<Seq<char>>,
    symbol: bool,
) -> Seq<Seq<char>> {
    if symbol {
        loose + trade.take(1) + trade.skip(2)
    } else {
        loose + trade
    }
}

/// A row of the table of trades.
pub fn trade_row(loose: &Vec<String>, trade: &Vec<String>, symbol: bool) -> (out: Vec<String>)
    requires
        trade@.len() >= 2,
    ensures
        text::texts(out@) == trade_cells(text::texts(loose@), text::texts(trade@), symbol),
{
    let mut out: Vec<String> = Vec::new();
    assert(text::texts(out@) =~= Seq::<Seq<char>>::empty());
    add_texts(&mut out, loose);
    assert(text::texts(out@) =~= text::texts(loose@));
    if !symbol {
        add_texts(&mut out, trade);
        return out;
    }
    add_text(&mut out, &trade[0]);
    let ghost t = text::texts(trade@);
    let n: usize = trade.len();
    let ghost head = text::texts(loose@) + t.take(1);
    assert(text::texts(out@) =~= head + t.subrange(2, 2));
    let mut i: usize = 2;
    while i < n
        invariant
            2 <= i <= n,
            n == trade@.len(),
            t == text::texts(trade@),
            text::texts(out@) == head + t.subrange(2, i as int),
        decreases n - i,
    {
        add_text(&mut out, &trade[i]);
        assert(text::texts(out@) =~= head + t.subrange(2, i + 1));
        i = i + 1;
    }
    assert(t.subrange(2, n as int) =~= t.skip(2));
    out
}

/// The texts of optional measures; nothing where there is none.
pub open spec fn shown_values(values: Seq<Option<String>>) -> Seq<Seq<char>> {
    Seq::new(
        values.len(),
        |i: int|
            match values[i] {
                Some(v) => v@,
                None => Seq::empty(),
            },
    )
}

/// Append the texts of optional measures to a row.
fn add_values(row: &mut Vec<String>, values: &[Option<String>])
    ensures
        text::texts(final(row)@) == text::texts(old(row)@) + shown_values(values@),
{
    let ghost was = text::texts(row@);
    let n: usize = values.len();
    assert(was + shown_values(values@).take(0) =~= was);
    for i in 0..n
        invariant
            n == values@.len(),
            text::texts(row@) == was + shown_values(values@).take(i as int),
    {
        match &values[i] {
            Some(v) => add_text(row, v),
            None => add_text(row, ""),
        }
        proof {
            reveal_strlit("");
            assert(""@ =~= Seq::<char>::empty());
            assert(text::texts(row@) =~= was + shown_values(values@).take(i + 1));
        }
    }
    assert(shown_values(values@).take(n as int) =~= shown_values(values@));
}

/// A row of the table of measures.
pub fn metrics_row(loose: &Vec<String>, values: &[Option<String>]) -> (out: Vec<String>)
    ensures
        text::texts(out@) == text::texts(loose@) + shown_values(values@),
{
    let mut out: Vec<String> = Vec::new();
    assert(text::texts(out@) =~= Seq::<Seq<char>>::empty());
    add_texts(&mut out, loose);
    assert(text::texts(out@) =~= text::texts(loose@));
    add_values(&mut out, values);
    out
}

/// A row of the tables of windows: the window is given by its first and its last
/// bar.
pub fn windowed_row(
    loose: &Vec<String>,
    bars: &[String],
    start_bar: usize,
    end_bar: usize,
    values: &[Option<String>],
) -> (out: Vec<String>)
    requires
        start_bar < bars@.len(),
        end_bar < bars@.len(),
    ensures
        text::texts(out@) == text::texts(loose@) + seq![
            bars@[start_bar as int]@,
            bars@[end_bar as int]@,
        ] + shown_values(values@),
{
    let mut out: Vec<String> = Vec::new();
    assert(text::texts(out@) =~= Seq::<Seq<char>>::empty());
    add_texts(&mut out, loose);
    add_text(&mut out, &bars[start_bar]);
    add_text(&mut out, &bars[end_bar]);
    assert(text::texts(out@) =~= text::texts(loose@) + seq![
        bars@[start_bar as int]@,
        bars@[end_bar as int]@,
    ]);
    add_values(&mut out, values);
    out
}

/// What rows are sorted by, as values.
pub open spec fn keys_of(keyed: Seq<(TimedKey, Vec<String>)>) -> Seq<
    ((Seq<char>, Option<Frequency>), Seq<char>),
> {
    Seq::new(keyed.len(), |i: int| keyed[i].0.model())
}

/// Rows without what they are sorted by.
pub open spec fn rows_of(keyed: Seq<(TimedKey, Vec<String>)>) -> Seq<Vec<String>> {
    Seq::new(keyed.len(), |i: int| keyed[i].1)
}

/// Whether rows are in order: by symbol, then by cadence from the shortest, then by
/// time; rows that agree there keep their order. `places` says where each came from.
pub open spec fn rows_sorted(
    keys: Seq<((Seq<char>, Option<Frequency>), Seq<char>)>,
    rows: Seq<Vec<String>>,
    sorted: Seq<Vec<String>>,
    places: Seq<int>,
) -> bool {
    &&& keys.len() == rows.len()
    &&& sorted.len() == rows.len()
    &&& sorting::is_arrangement(places, rows.len() as int)
    &&& forall|i: int| 0 <= i < rows.len() ==> #[trigger] sorted[i] == rows[places[i]]
    &&& forall|i: int, j: int|
        0 <= i < j < rows.len() ==> TimedKey::before(
            keys[#[trigger] places[i]],
            keys[#[trigger] places[j]],
        ) || (keys[places[i]] == keys[places[j]] && places[i] < places[j])
}

/// Put rows in order: by symbol, then by cadence from the shortest, then by time.
pub fn sort_rows(keyed: Vec<(TimedKey, Vec<String>)>) -> (out: Vec<Vec<String>>)
    ensures
        exists|places: Seq<int>| rows_sorted(keys_of(keyed@), rows_of(keyed@), out@, places),
{
    let ghost given = keyed@;
    let mut sorted: Vec<(TimedKey, Vec<String>)> = sorting::stable_sort(keyed);
    let ghost places = choose|places: Seq<int>| sorting::stably_sorted(given, sorted@, places);
    let ghost result = sorted@;
    let mut back: Vec<Vec<String>> = Vec::new();
    while sorted.len() > 0
        invariant
            sorted@.len() + back@.len() == result.len(),
            sorted@ == result.take(sorted@.len() as int),
            forall|i: int|
                0 <= i < back@.len() ==> #[trigger] back@[i] == result[result.len() - 1 - i].1,
        decreases sorted@.len(),
    {
        let ghost done = back@;
        if let Some((_, row)) = sorted.pop() {
            back.push(row);
            assert(sorted@ =~= result.take(sorted@.len() as int));
            assert forall|i: int| 0 <= i < back@.len() implies #[trigger] back@[i]
                == result[result.len() - 1 - i].1 by {
                if i < done.len() {
                    assert(back@[i] == done[i]);
                }
            }
        }
    }
    let out: Vec<Vec<String>> = reversed(back);
    proof {
        let keys = keys_of(given);
        let rows = rows_of(given);
        assert forall|i: int| 0 <= i < rows.len() implies #[trigger] out@[i]
            == rows[places[i]] by {
            assert(result[i] == given[places[i]]);
        }
        assert forall|i: int, j: int| 0 <= i < j < rows.len() implies TimedKey::before(
            keys[#[trigger] places[i]],
            keys[#[trigger] places[j]],
        ) || (keys[places[i]] == keys[places[j]] && places[i] < places[j]) by {
            assert(result[i] == given[places[i]]);
            assert(result[j] == given[places[j]]);
        }
        assert(rows_sorted(keys, rows, out@, places));
    }
    out
}

// ---------------------------------------------------------------------------
// Tables of a whole bucket
// ---------------------------------------------------------------------------

/// A table: its columns and its rows.
#[derive(Debug)]
pub struct Table {
    pub header: Vec<String>,
    pub rows: Vec<Vec<String>>,
}

/// The texts of rows.
pub open spec fn row_texts(rows: Seq<Vec<String>>) -> Seq<Seq<Seq<char>>> {
    Seq::new(rows.len(), |i: int| text::texts(rows[i]@))
}

/// The rows of one series, each led by what is loose.
pub open spec fn slot_rows(
    slot: Slot,
    rows: Seq<Vec<String>>,
    symbol: bool,
    freq: bool,
    cut: bool,
) -> Seq<Seq<Seq<char>>> {
    Seq::new(
        rows.len(),
        |i: int|
            trade_cells(
                loose_values(slot.symbol@, slot.freq, symbol, freq),
                text::texts(rows[i]@),
                cut,
            ),
    )
}

/// The rows of all series, one series after the other.
pub open spec fn all_rows(
    slots: Seq<Slot>,
    rows: Seq<Vec<Vec<String>>>,
    symbol: bool,
    freq: bool,
    cut: bool,
) -> Seq<Seq<Seq<char>>>
    decreases slots.len(),
{
    if slots.len() == 0 {
        seq![]
    } else {
        all_rows(slots.drop_last(), rows.drop_last(), symbol, freq, cut) + slot_rows(
            slots.last(),
            rows.last()@,
            symbol,
            freq,
            cut,
        )
    }
}

/// What the rows of one series are sorted by: the series, and their first cell.
pub open spec fn slot_keys(slot: Slot, rows: Seq<Vec<String>>) -> Seq<
    ((Seq<char>, Option<Frequency>), Seq<char>),
> {
    Seq::new(rows.len(), |i: int| ((slot.symbol@, slot.freq), text::texts(rows[i]@)[0]))
}

/// What the rows of all series are sorted by.
pub open spec fn all_keys(slots: Seq<Slot>, rows: Seq<Vec<Vec<String>>>) -> Seq<
    ((Seq<char>, Option<Frequency>), Seq<char>),
>
    decreases slots.len(),
{
    if slots.len() == 0 {
        seq![]
    } else {
        all_keys(slots.drop_last(), rows.drop_last()) + slot_keys(slots.last(), rows.last()@)
    }
}

/// Whether rows are those of all series, in order of their symbols, then of their
/// cadences from the shortest, then of their first own cells.
pub open spec fn are_shared(
    out: Seq<Vec<String>>,
    slots: Seq<Slot>,
    rows: Seq<Vec<Vec<String>>>,
    symbol: bool,
    freq: bool,
    cut: bool,
) -> bool {
    exists|gathered: Seq<Vec<String>>, places: Seq<int>|
        row_texts(gathered) == all_rows(slots, rows, symbol, freq, cut)
            && #[trigger] rows_sorted(all_keys(slots, rows), gathered, out, places)
}

/// Whether every row of every series has at least so many cells.
pub open spec fn have_cells(rows: Seq<Vec<Vec<String>>>, least: int) -> bool {
    forall|i: int, j: int|
        0 <= i < rows.len() && 0 <= j < rows[i]@.len() ==> (#[trigger] rows[i]@[j])@.len() >= least
}

/// The rows of all series, each led by what is loose. `cut` leaves out each row's
/// own symbol.
fn shared_rows(
    slots: &[Slot],
    rows: &[Vec<Vec<String>>],
    symbol: bool,
    freq: bool,
    cut: bool,
) -> (out: Vec<Vec<String>>)
    requires
        slots@.len() == rows@.len(),
        have_cells(
            rows@,
            if cut {
                2
            } else {
                1
            },
        ),
    ensures
        are_shared(out@, slots@, rows@, symbol, freq, cut),
{
    let mut keyed: Vec<(TimedKey, Vec<String>)> = Vec::new();
    let n: usize = slots.len();
    assert(slots@.take(0) =~= Seq::<Slot>::empty());
    assert(row_texts(rows_of(keyed@)) =~= Seq::<Seq<Seq<char>>>::empty());
    assert(keys_of(keyed@) =~= all_keys(slots@.take(0), rows@.take(0)));
    for i in 0..n
        invariant
            n == slots@.len(),
            n == rows@.len(),
            have_cells(
                rows@,
                if cut {
                    2
                } else {
                    1
                },
            ),
            row_texts(rows_of(keyed@)) == all_rows(
                slots@.take(i as int),
                rows@.take(i as int),
                symbol,
                freq,
                cut,
            ),
            keys_of(keyed@) == all_keys(slots@.take(i as int), rows@.take(i as int)),
    {
        let loose: Vec<String> = loose_cols(&slots[i].symbol, slots[i].freq, symbol, freq);
        let own: &Vec<Vec<String>> = &rows[i];
        let m: usize = own.len();
        let ghost before = row_texts(rows_of(keyed@));
        let ghost keys = keys_of(keyed@);
        let ghost led = slot_rows(slots@[i as int], own@, symbol, freq, cut);
        let ghost more = slot_keys(slots@[i as int], own@);
        assert(before + led.take(0) =~= before);
        assert(keys + more.take(0) =~= keys);
        for j in 0..m
            invariant
                m == own@.len(),
                i < rows@.len(),
                i < slots@.len(),
                *own == rows@[i as int],
                text::texts(loose@) == loose_values(
                    slots@[i as int].symbol@,
                    slots@[i as int].freq,
                    symbol,
                    freq,
                ),
                led == slot_rows(slots@[i as int], own@, symbol, freq, cut),
                more == slot_keys(slots@[i as int], own@),
                have_cells(
                    rows@,
                    if cut {
                        2
                    } else {
                        1
                    },
                ),
                row_texts(rows_of(keyed@)) == before + led.take(j as int),
                keys_of(keyed@) == keys + more.take(j as int),
        {
            assert(rows@[i as int]@[j as int]@.len() >= 1);
            let row: Vec<String> = if cut {
                trade_row(&loose, &own[j], true)
            } else {
                let mut row: Vec<String> = Vec::new();
                assert(text::texts(row@) =~= Seq::<Seq<char>>::empty());
                add_texts(&mut row, &loose);
                assert(text::texts(row@) =~= text::texts(loose@));
                add_texts(&mut row, &own[j]);
                row
            };
            assert(text::texts(row@) == led[j as int]);
            let series: SeriesKey = SeriesKey { symbol: slots[i].symbol.clone(), freq: slots[i].freq };
            let key: TimedKey = TimedKey { series, time: own[j][0].clone() };
            assert(key.model() == more[j as int]);
            let ghost was = keyed@;
            keyed.push((key, row));
            assert(row_texts(rows_of(keyed@)) =~= row_texts(rows_of(was)).push(led[j as int]));
            assert(row_texts(rows_of(keyed@)) =~= before + led.take(j + 1));
            assert(keys_of(keyed@) =~= keys_of(was).push(more[j as int]));
            assert(keys_of(keyed@) =~= keys + more.take(j + 1));
        }
        assert(led.take(m as int) =~= led);
        assert(more.take(m as int) =~= more);
        assert(slots@.take(i + 1).drop_last() =~= slots@.take(i as int));
        assert(rows@.take(i + 1).drop_last() =~= rows@.take(i as int));
    }
    assert(slots@.take(n as int) =~= slots@);
    assert(rows@.take(n as int) =~= rows@);
    let ghost given = keyed@;
    let out: Vec<Vec<String>> = sort_rows(keyed);
    proof {
        let places = choose|places: Seq<int>|
            rows_sorted(keys_of(given), rows_of(given), out@, places);
        assert(rows_sorted(all_keys(slots@, rows@), rows_of(given), out@, places));
    }
    out
}

/// The table of the trades of a bucket. Each trade's texts are its time, its symbol
/// and what follows.
pub fn shared_trades(slots: &[Slot], trades: &[Vec<Vec<String>>]) -> (out: Table)
    requires
        slots@.len() == trades@.len(),
        have_cells(trades@, 2),
    ensures
        text::texts(out.header@) == trades_columns(
            symbol_is_loose(slots@),
            freq_is_loose(slots@),
            has_costs(slots@),
        ),
        are_shared(
            out.rows@,
            slots@,
            trades@,
            symbol_is_loose(slots@),
            freq_is_loose(slots@),
            symbol_is_loose(slots@),
        ),
{
    let symbol: bool = loose_symbol(slots);
    let freq: bool = loose_freq(slots);
    let header: Vec<String> = trades_header(symbol, freq, any_costs(slots));
    Table { header, rows: shared_rows(slots, trades, symbol, freq, symbol) }
}

/// The table of the returns of a bucket.
pub fn shared_returns(slots: &[Slot], gains: &[Vec<Vec<String>>]) -> (out: Table)
    requires
        slots@.len() == gains@.len(),
        have_cells(gains@, 1),
    ensures
        text::texts(out.header@) == loose_header(symbol_is_loose(slots@), freq_is_loose(slots@))
            + seq!["time"@, "equity"@, "return"@],
        are_shared(
            out.rows@,
            slots@,
            gains@,
            symbol_is_loose(slots@),
            freq_is_loose(slots@),
            false,
        ),
{
    let symbol: bool = loose_symbol(slots);
    let freq: bool = loose_freq(slots);
    let header: Vec<String> = returns_header(symbol, freq);
    Table { header, rows: shared_rows(slots, gains, symbol, freq, false) }
}

/// The table of the windows of a bucket.
pub fn shared_windows(
    slots: &[Slot],
    names: &[String],
    windows: &[Vec<Vec<String>>],
) -> (out: Table)
    requires
        slots@.len() == windows@.len(),
        have_cells(windows@, 1),
    ensures
        text::texts(out.header@) == loose_header(symbol_is_loose(slots@), freq_is_loose(slots@))
            + seq!["window_start"@, "window_end"@] + text::texts(names@),
        are_shared(
            out.rows@,
            slots@,
            windows@,
            symbol_is_loose(slots@),
            freq_is_loose(slots@),
            false,
        ),
{
    let symbol: bool = loose_symbol(slots);
    let freq: bool = loose_freq(slots);
    let header: Vec<String> = windowed_header(symbol, freq, names);
    Table { header, rows: shared_rows(slots, windows, symbol, freq, false) }
}

/// The table of the measures of a bucket: one row for each series, in their order.
pub fn shared_metrics(
    slots: &[Slot],
    names: &[String],
    values: &[Vec<Option<String>>],
) -> (out: Table)
    requires
        slots@.len() == values@.len(),
    ensures
        text::texts(out.header@) == loose_header(symbol_is_loose(slots@), freq_is_loose(slots@))
            + text::texts(names@),
        out.rows@.len() == slots@.len(),
        forall|i: int|
            0 <= i < slots@.len() ==> text::texts((#[trigger] out.rows@[i])@) == loose_values(
                slots@[i].symbol@,
                slots@[i].freq,
                symbol_is_loose(slots@),
                freq_is_loose(slots@),
            ) + shown_values(values@[i]@),
{
    let symbol: bool = loose_symbol(slots);
    let freq: bool = loose_freq(slots);
    let header: Vec<String> = metrics_header(symbol, freq, names);
    let mut rows: Vec<Vec<String>> = Vec::new();
    let n: usize = slots.len();
    for i in 0..n
        invariant
            n == slots@.len(),
            n == values@.len(),
            symbol == symbol_is_loose(slots@),
            freq == freq_is_loose(slots@),
            rows@.len() == i,
            forall|j: int|
                0 <= j < i ==> text::texts((#[trigger] rows@[j])@) == loose_values(
                    slots@[j].symbol@,
                    slots@[j].freq,
                    symbol,
                    freq,
                ) + shown_values(values@[j]@),
    {
        let loose: Vec<String> = loose_cols(&slots[i].symbol, slots[i].freq, symbol, freq);
        rows.push(metrics_row(&loose, &values[i]));
    }
    Table { header, rows }
}

// ---------------------------------------------------------------------------
// The whole batch
// ---------------------------------------------------------------------------

/// The runs that were made, in order.
pub open spec fn made<T>(slots: Seq<Result<Option<T>, String>>) -> Seq<T>
    decreases slots.len(),
{
    if slots.len() == 0 {
        seq![]
    } else {
        match slots.last() {
            Ok(Some(t)) => made(slots.drop_last()).push(t),
            _ => made(slots.drop_last()),
        }
    }
}

/// Whether a run is the first that failed.
pub open spec fn first_failed<T>(slots: Seq<Result<Option<T>, String>>, i: int) -> bool {
    0 <= i < slots.len() && slots[i] is Err && forall|j: int|
        0 <= j < i ==> (#[trigger] slots[j]) is Ok
}

/// Gather the runs of a batch: those that were made, and how many were skipped; or
/// what went wrong with the first that failed.
pub fn gather<T>(slots: Vec<Result<Option<T>, String>>) -> (out: Result<(Vec<T>, usize), String>)
    ensures
        match out {
            Ok((ready, skipped)) => (forall|i: int|
                0 <= i < slots@.len() ==> (#[trigger] slots@[i]) is Ok) && ready@ == made(slots@)
                && skipped == slots@.len() - ready@.len(),
            Err(e) => exists|i: int|
                #[trigger] first_failed(slots@, i) && slots@[i] == Err::<Option<T>, String>(e),
        },
{
    let ghost all = slots@;
    let n: usize = slots.len();
    let mut back: Vec<Result<Option<T>, String>> = reversed(slots);
    let mut ready: Vec<T> = Vec::new();
    let mut skipped: usize = 0;
    let ghost mut moved: int = 0;
    assert(all.take(0) =~= Seq::<Result<Option<T>, String>>::empty());
    while back.len() > 0
        invariant
            0 <= moved <= all.len(),
            moved + back@.len() == all.len(),
            all == slots@,
            all.len() == n,
            forall|i: int| 0 <= i < back@.len() ==> #[trigger] back@[i] == all[all.len() - 1 - i],
            forall|i: int| 0 <= i < moved ==> (#[trigger] all[i]) is Ok,
            ready@ == made(all.take(moved)),
            ready@.len() + skipped == moved,
        decreases back@.len(),
    {
        assert(all.take(moved + 1).drop_last() =~= all.take(moved));
        assert(back@[back@.len() - 1] == all[moved]);
        if let Some(slot) = back.pop() {
            assert(all.take(moved + 1).last() == slot);
            match slot {
                Ok(Some(t)) => {
                    ready.push(t);
                },
                Ok(None) => {
                    skipped = skipped + 1;
                },
                Err(e) => {
                    assert(all[moved] == Err::<Option<T>, String>(e));
                    assert(first_failed(all, moved));
                    return Err(e);
                },
            }
        }
        proof {
            moved = moved + 1;
        }
    }
    assert(all.take(moved) =~= all);
    Ok((ready, skipped))
}

/// The bars of all runs.
pub open spec fn bars_total(runs: Seq<SummaryRow>) -> int
    decreases runs.len(),
{
    if runs.len() == 0 {
        0
    } else {
        bars_total(runs.drop_last()) + runs.last().bars
    }
}

/// The fills of all runs.
pub open spec fn fills_total(runs: Seq<SummaryRow>) -> int
    decreases runs.len(),
{
    if runs.len() == 0 {
        0
    } else {
        fills_total(runs.drop_last()) + runs.last().fills
    }
}

proof fn totals_grow(runs: Seq<SummaryRow>, k: int)
    requires
        0 <= k <= runs.len(),
    ensures
        0 <= bars_total(runs.take(k)) <= bars_total(runs),
        0 <= fills_total(runs.take(k)) <= fills_total(runs),
    decreases runs.len(),
{
    if k == runs.len() {
        assert(runs.take(k) =~= runs);
        if k > 0 {
            totals_grow(runs.drop_last(), k - 1);
            assert(runs.drop_last().take(k - 1) =~= runs.drop_last());
        }
    } else {
        totals_grow(runs.drop_last(), k);
        assert(runs.drop_last().take(k) =~= runs.take(k));
    }
}

/// The bars and the fills of a whole batch.
pub fn totals(runs: &[SummaryRow]) -> (out: (usize, usize))
    requires
        bars_total(runs@) <= usize::MAX,
        fills_total(runs@) <= usize::MAX,
    ensures
        out.0 == bars_total(runs@),
        out.1 == fills_total(runs@),
{
    let mut bars: usize = 0;
    let mut fills: usize = 0;
    let n: usize = runs.len();
    assert(runs@.take(0) =~= Seq::<SummaryRow>::empty());
    for i in 0..n
        invariant
            n == runs@.len(),
            bars_total(runs@) <= usize::MAX,
            fills_total(runs@) <= usize::MAX,
            bars == bars_total(runs@.take(i as int)),
            fills == fills_total(runs@.take(i as int)),
    {
        assert(runs@.take(i + 1).drop_last() =~= runs@.take(i as int));
        proof {
            totals_grow(runs@, i + 1);
        }
        bars = bars + runs[i].bars;
        fills = fills + runs[i].fills;
    }
    assert(runs@.take(n as int) =~= runs@);
    (bars, fills)
}

// ---------------------------------------------------------------------------
// Laws
// ---------------------------------------------------------------------------

/// A bucket of one series has nothing loose.
pub proof fn one_series_has_nothing_loose(slots: Seq<Slot>)
    requires
        slots.len() <= 1,
    ensures
        !symbol_is_loose(slots),
        !freq_is_loose(slots),
{
}

/// The header of trades has as many columns as a row: a trade's texts are its time,
/// its symbol and four or five more.
pub proof fn trade_rows_fit_the_header(
    slot_symbol: Seq<char>,
    slot_freq: Option<Frequency>,
    trade: Seq<Seq<char>>,
    symbol: bool,
    freq: bool,
    costs: bool,
)
    requires
        trade.len() == if costs {
            7int
        } else {
            6
        },
    ensures
        trade_cells(loose_values(slot_symbol, slot_freq, symbol, freq), trade, symbol).len()
            == trades_columns(symbol, freq, costs).len(),
{
}

/// A shared table has every row of every series, and no other.
pub proof fn shared_tables_keep_every_row(
    out: Seq<Vec<String>>,
    slots: Seq<Slot>,
    rows: Seq<Vec<Vec<String>>>,
    symbol: bool,
    freq: bool,
    cut: bool,
)
    requires
        are_shared(out, slots, rows, symbol, freq, cut),
    ensures
        row_texts(out).to_multiset() == all_rows(slots, rows, symbol, freq, cut).to_multiset(),
{
    let (gathered, places) = choose|gathered: Seq<Vec<String>>, places: Seq<int>|
        row_texts(gathered) == all_rows(slots, rows, symbol, freq, cut)
            && #[trigger] rows_sorted(all_keys(slots, rows), gathered, out, places);
    sorting::arranged_is_same(row_texts(gathered), row_texts(out), places);
}

/// In sorted rows, those of a symbol at a shorter cadence stand before those of the
/// symbol at a longer one, and those of one series ascend by time.
pub proof fn shorter_cadences_come_first(
    keys: Seq<((Seq<char>, Option<Frequency>), Seq<char>)>,
    rows: Seq<Vec<String>>,
    sorted: Seq<Vec<String>>,
    places: Seq<int>,
    i: int,
    j: int,
)
    requires
        rows_sorted(keys, rows, sorted, places),
        0 <= i < rows.len(),
        0 <= j < rows.len(),
        ({
            let (a, b) = (keys[places[i]], keys[places[j]]);
            a.0.0 == b.0.0 && (sorting::freq_lt(a.0.1, b.0.1) || (a.0.1 == b.0.1
                && text::text_lt(a.1, b.1)))
        }),
    ensures
        i < j,
{
    let (a, b) = (keys[places[i]], keys[places[j]]);
    assert(TimedKey::before(a, b));
    if i == j {
        TimedKey::before_is_strict(a);
    } else if j < i {
        assert(TimedKey::before(b, a) || b == a);
        if b == a {
            TimedKey::before_is_strict(a);
        } else {
            TimedKey::before_chains(a, b, a);
            TimedKey::before_is_strict(a);
        }
    }
}

/// Every thing is in the bucket of its directory, and what goes to a directory is
/// what has a text that spells it.
pub proof fn buckets_hold_everything<T>(
    buckets: Map<Seq<PartModel>, Bucket<T>>,
    items: Seq<(String, T)>,
    i: int,
)
    requires
        bucketed(buckets, items),
        0 <= i < items.len(),
    ensures
        buckets.dom().contains(paths::parts_of(items[i].0@)),
        buckets[paths::parts_of(items[i].0@)].items@.contains(items[i].1),
        forall|dir: Seq<PartModel>, k: int|
            0 <= k < going_to(items, dir).len() ==> paths::parts_of(
                (#[trigger] going_to(items, dir)[k]).0@,
            ) == dir,
{
    let dir = paths::parts_of(items[i].0@);
    let all = going_to(items, dir);
    goes_there(items, i);
    let k = choose|k: int| 0 <= k < all.len() && all[k] == items[i];
    assert(buckets.dom().contains(dir));
    assert(buckets[dir].items@[k] == items[i].1);
    assert forall|d: Seq<PartModel>, k: int|
        0 <= k < going_to(items, d).len() implies paths::parts_of(
        (#[trigger] going_to(items, d)[k]).0@,
    ) == d by {
        came_from_there(items, d, k);
    }
}

proof fn goes_there<T>(items: Seq<(String, T)>, i: int)
    requires
        0 <= i < items.len(),
    ensures
        going_to(items, paths::parts_of(items[i].0@)).contains(items[i]),
    decreases items.len(),
{
    let dir = paths::parts_of(items[i].0@);
    let all = going_to(items, dir);
    if i == items.len() - 1 {
        assert(all[all.len() - 1] == items[i]);
    } else {
        goes_there(items.drop_last(), i);
        assert(items.drop_last()[i] == items[i]);
        let before = going_to(items.drop_last(), dir);
        let k = choose|k: int| 0 <= k < before.len() && before[k] == items[i];
        assert(all[k] == items[i]);
    }
}

proof fn came_from_there<T>(items: Seq<(String, T)>, dir: Seq<PartModel>, k: int)
    requires
        0 <= k < going_to(items, dir).len(),
    ensures
        paths::parts_of(going_to(items, dir)[k].0@) == dir,
    decreases items.len(),
{
    if items.len() > 0 {
        if k < going_to(items.drop_last(), dir).len() {
            came_from_there(items.drop_last(), dir, k);
        }
    }
}

/// The cells of a trade stand under the columns of their own names: the time, the
/// symbol, the side, the units, the price, the kind and, with costs, the commission.
pub proof fn trade_cells_stand_under_their_columns(
    slot_symbol: Seq<char>,
    slot_freq: Option<Frequency>,
    trade: Seq<Seq<char>>,
    symbol: bool,
    freq: bool,
    costs: bool,
)
    requires
        trade.len() == (if costs {
            7int
        } else {
            6
        }),
    ensures
        ({
            let header = trades_columns(symbol, freq, costs);
            let cells = trade_cells(
                loose_values(slot_symbol, slot_freq, symbol, freq),
                trade,
                symbol,
            );
            let k = (if symbol {
                1int
            } else {
                0
            }) + (if freq {
                1int
            } else {
                0
            });
            let at = if symbol {
                k
            } else {
                k + 1
            };
            &&& header.len() == cells.len()
            &&& symbol ==> header[0] == "symbol"@ && cells[0] == slot_symbol
            &&& freq ==> header[k - 1] == "freq"@
            &&& freq && slot_freq is Some ==> cells[k - 1] == slot_freq->0.code()
            &&& freq && slot_freq is None ==> cells[k - 1].len() == 0
            &&& header[k] == "time"@ && cells[k] == trade[0]
            &&& !symbol ==> header[k + 1] == "symbol"@ && cells[k + 1] == trade[1]
            &&& header[at + 1] == "side"@ && cells[at + 1] == trade[2]
            &&& header[at + 2] == "units"@ && cells[at + 2] == trade[3]
            &&& header[at + 3] == "price"@ && cells[at + 3] == trade[4]
            &&& header[at + 4] == "kind"@ && cells[at + 4] == trade[5]
            &&& costs ==> header[at + 5] == "commission"@ && cells[at + 5] == trade[6]
        }),
{
}

/// The totals of two lists of runs are those of the one and of the other together, and
/// the totals of one run are its bars and its fills.
pub proof fn totals_add_up(a: Seq<SummaryRow>, b: Seq<SummaryRow>, one: SummaryRow)
    ensures
        bars_total(a + b) == bars_total(a) + bars_total(b),
        fills_total(a + b) == fills_total(a) + fills_total(b),
        bars_total(seq![one]) == one.bars,
        fills_total(seq![one]) == one.fills,
    decreases b.len(),
{
    if b.len() == 0 {
        assert(a + b =~= a);
    } else {
        assert((a + b).drop_last() =~= a + b.drop_last());
        totals_add_up(a, b.drop_last(), one);
    }
    let none = Seq::<SummaryRow>::empty();
    assert(seq![one].drop_last() =~= none);
    assert(bars_total(none) == 0 && fills_total(none) == 0);
}

/// What the runs made is gathered in their order; a run that was skipped adds nothing.
pub proof fn what_was_made_is_gathered<T>(slots: Seq<Result<Option<T>, String>>)
    ensures
        made(slots) == slots.filter_map(
            |s: Result<Option<T>, String>|
                match s {
                    Ok(t) => t,
                    Err(_) => None,
                },
        ),
    decreases slots.len(),
{
    let f = |s: Result<Option<T>, String>|
        match s {
            Ok(t) => t,
            Err(_) => None,
        };
    reveal(Seq::filter_map);
    if slots.len() > 0 {
        what_was_made_is_gathered(slots.drop_last());
        if let Ok(Some(t)) = slots.last() {
            assert(made(slots) =~= made(slots.drop_last()) + seq![t]);
        }
    }
    assert(made(slots) =~= slots.filter_map(f));
}

/// A series runs at the cadence that was asked for, whatever else is known; else at the
/// one that the data names, where that is a cadence; else at the one that its times
/// show.
pub proof fn an_asked_cadence_comes_first(
    asked: Frequency,
    named: Option<Seq<char>>,
    code: Seq<char>,
    f: Frequency,
    shown: Option<Frequency>,
)
    requires
        f.count() > 0,
    ensures
        series_cadence(Some(asked), named, shown) == Some(asked),
        series_cadence(None, Some(f.code()), shown) == Some(f),
        frequency::parsed_frequency(code) is None ==> series_cadence(None, Some(code), shown)
            == shown,
        series_cadence(None, None, shown) == shown,
{
    frequency::code_reads_back(f);
}

/// A series is called by its symbol, with the cadence in brackets behind it where that
/// is known: two series with one name have one symbol, where both have the same cadence
/// or none.
pub proof fn labels_tell_symbols_apart(a: Seq<char>, b: Seq<char>, freq: Option<Seq<char>>)
    requires
        series_label(a, freq) == series_label(b, freq),
    ensures
        a == b,
        series_label(a, None) == a,
        freq matches Some(f) ==> series_label(a, freq).len() == a.len() + f.len() + 2
            && series_label(a, freq).take(a.len() as int) == a && series_label(a, freq).last()
            == ']' && series_label(a, freq)[a.len() as int] == '[' && series_label(
            a,
            freq,
        ).subrange(a.len() as int + 1, a.len() as int + 1 + f.len() as int) == f,
{
    reveal_strlit("[");
    reveal_strlit("]");
    if let Some(f) = freq {
        let x = series_label(a, freq);
        let y = series_label(b, freq);
        assert(x.len() == a.len() + f.len() + 2 && y.len() == b.len() + f.len() + 2);
        assert(x.take(a.len() as int) =~= a);
        assert(y.take(b.len() as int) =~= b);
        assert(x.subrange(a.len() as int + 1, a.len() as int + 1 + f.len() as int) =~= f);
        assert("["@[0] == '[' && "]"@[0] == ']');
    }
}

} // verus!
