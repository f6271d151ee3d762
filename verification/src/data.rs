//! The long frame that all `--series` arguments are joined into.
//!
//! Rows are keyed by symbol, cadence label and time, and stand in that order. A
//! row without a label of its own takes the sole label that its symbol declares,
//! where there is just one; rows under the same key are merged, and the later
//! one wins a column that both have.

use std::sync::Arc;

use vstd::prelude::*;

use crate::calendar::parse_time_to_millis;
use crate::calendar;
use crate::csv_source;
use crate::frequency::Frequency;
use crate::frequency;
use crate::market::{
    share, Atom, AtomModel, Candle, OverlayInfo, OverlayModel, OverlayType, OverlayValue, Schema,
    Timestamp,
};
use crate::market;
use crate::number::Real;
use crate::ordmap::{Key, OrdMap};
use crate::ordmap;
use crate::series::{Row, SeriesData, SeriesSpec, Terms};
use crate::series;
use crate::table::{cell_to_overlay, Cell, CellModel, ColumnState};
use crate::table;
use crate::text;

verus! {

/// A row as values.
pub type RowModel = Map<Seq<char>, CellModel>;

/// A key as values: symbol, cadence label and time.
pub type KeyModel = (Seq<char>, Seq<char>, Seq<char>);

// ---------------------------------------------------------------------------
// Keys
// ---------------------------------------------------------------------------

/// The key of a row.
#[derive(Debug)]
pub struct RowKey {
    pub symbol: String,
    pub freq: String,
    pub time: String,
}

impl Key for RowKey {
    type Model = KeyModel;

    open spec fn model(&self) -> KeyModel {
        (self.symbol@, self.freq@, self.time@)
    }

    open spec fn before(a: KeyModel, b: KeyModel) -> bool {
        text::text_lt(a.0, b.0) || (a.0 == b.0 && (text::text_lt(a.1, b.1) || (a.1 == b.1
            && text::text_lt(a.2, b.2))))
    }

    proof fn before_is_strict(a: KeyModel) {
        text::text_lt_irreflexive(a.0);
        text::text_lt_irreflexive(a.1);
        text::text_lt_irreflexive(a.2);
    }

    proof fn before_chains(a: KeyModel, b: KeyModel, c: KeyModel) {
        if text::text_lt(a.0, b.0) && text::text_lt(b.0, c.0) {
            text::text_lt_transitive(a.0, b.0, c.0);
        }
        if text::text_lt(a.1, b.1) && text::text_lt(b.1, c.1) {
            text::text_lt_transitive(a.1, b.1, c.1);
        }
        if text::text_lt(a.2, b.2) && text::text_lt(b.2, c.2) {
            text::text_lt_transitive(a.2, b.2, c.2);
        }
    }

    proof fn before_decides(a: KeyModel, b: KeyModel) {
        text::text_lt_total(a.0, b.0);
        text::text_lt_total(a.1, b.1);
        text::text_lt_total(a.2, b.2);
    }

    fn precedes(&self, other: &RowKey) -> (out: bool) {
        if text::less(&self.symbol, &other.symbol) {
            true
        } else if !text::same(&self.symbol, &other.symbol) {
            false
        } else if text::less(&self.freq, &other.freq) {
            true
        } else if !text::same(&self.freq, &other.freq) {
            false
        } else {
            text::less(&self.time, &other.time)
        }
    }
}

// ---------------------------------------------------------------------------
// Labels
// ---------------------------------------------------------------------------

/// The label that a row carries: its `freq` cell, trimmed, unless it is missing
/// or blank. Its case is kept: `1M` is a month, `1m` a minute.
pub open spec fn own_label(row: RowModel) -> Option<Seq<char>> {
    if row.dom().contains("freq"@) && text::trimmed(row["freq"@].text).len() > 0 {
        Some(text::trimmed(row["freq"@].text))
    } else {
        None
    }
}

/// Whether a row of `symbol` carries the label `label`.
pub open spec fn declares(row: RowModel, symbol: Seq<char>, label: Seq<char>) -> bool {
    row.dom().contains("symbol"@) && row["symbol"@].text == symbol && own_label(row) == Some(label)
}

/// Whether `label` is the one label that the rows of `symbol` carry.
pub open spec fn is_sole_label(
    rows: Seq<RowModel>,
    symbol: Seq<char>,
    label: Seq<char>,
) -> bool {
    &&& exists|i: int| 0 <= i < rows.len() && declares(#[trigger] rows[i], symbol, label)
    &&& forall|i: int, other: Seq<char>|
        0 <= i < rows.len() && #[trigger] declares(rows[i], symbol, other) ==> other == label
}

/// The one label that the rows of `symbol` carry, where there is just one.
pub open spec fn sole_label(rows: Seq<RowModel>, symbol: Seq<char>) -> Option<Seq<char>> {
    if exists|label: Seq<char>| is_sole_label(rows, symbol, label) {
        Some(choose|label: Seq<char>| is_sole_label(rows, symbol, label))
    } else {
        None
    }
}

/// The label that a row carries.
pub fn declared_cadence(row: &Row) -> (out: Option<&str>)
    requires
        row.wf(),
    ensures
        match out {
            Some(s) => own_label(row@) == Some(s@),
            None => own_label(row@) is None,
        },
{
    match row.get("freq") {
        Some(cell) => {
            let label = text::trim(&cell.text);
            if label.is_empty() {
                None
            } else {
                Some(label)
            }
        },
        None => None,
    }
}

/// What is known of the labels of each symbol: one, or that there are several.
pub struct Labels {
    /// `None` for a symbol with several labels.
    pub by_symbol: OrdMap<String, Option<String>>,
}

impl Labels {
    /// Whether this is what `rows` declare.
    pub open spec fn of(&self, rows: Seq<RowModel>) -> bool {
        &&& self.by_symbol.wf()
        &&& forall|symbol: Seq<char>| #[trigger]
            self.by_symbol@.dom().contains(symbol) <==> exists|i: int, label: Seq<char>|
                0 <= i < rows.len() && #[trigger] declares(rows[i], symbol, label)
        &&& forall|symbol: Seq<char>| #[trigger]
            self.by_symbol@.dom().contains(symbol) ==> match self.by_symbol@[symbol] {
                Some(label) => is_sole_label(rows, symbol, label@),
                None => exists|i: int, j: int, a: Seq<char>, b: Seq<char>|
                    0 <= i < rows.len() && 0 <= j < rows.len() && a != b && #[trigger] declares(
                        rows[i],
                        symbol,
                        a,
                    ) && #[trigger] declares(rows[j], symbol, b),
            }
    }

    /// The one label of a symbol, where there is just one.
    fn sole(&self, symbol: &str, Ghost(rows): Ghost<Seq<RowModel>>) -> (out: Option<&String>)
        requires
            self.of(rows),
        ensures
            match out {
                Some(s) => sole_label(rows, symbol@) == Some(s@),
                None => sole_label(rows, symbol@) is None,
            },
    {
        match self.by_symbol.get(&symbol.to_owned()) {
            Some(Some(label)) => {
                proof {
                    let chosen = choose|l: Seq<char>| is_sole_label(rows, symbol@, l);
                    assert(is_sole_label(rows, symbol@, label@));
                    let i = choose|i: int|
                        0 <= i < rows.len() && declares(#[trigger] rows[i], symbol@, label@);
                    assert(declares(rows[i], symbol@, label@));
                }
                Some(label)
            },
            Some(None) => {
                proof {
                    let (i, j, a, b) = choose|i: int, j: int, a: Seq<char>, b: Seq<char>|
                        0 <= i < rows.len() && 0 <= j < rows.len() && a != b && #[trigger] declares(
                            rows[i],
                            symbol@,
                            a,
                        ) && #[trigger] declares(rows[j], symbol@, b);
                    assert forall|l: Seq<char>| !is_sole_label(rows, symbol@, l) by {
                        if is_sole_label(rows, symbol@, l) {
                            assert(declares(rows[i], symbol@, a));
                            assert(declares(rows[j], symbol@, b));
                        }
                    }
                }
                None
            },
            None => {
                proof {
                    assert forall|l: Seq<char>| !is_sole_label(rows, symbol@, l) by {
                        if is_sole_label(rows, symbol@, l) {
                            let i = choose|i: int|
                                0 <= i < rows.len() && declares(#[trigger] rows[i], symbol@, l);
                            assert(declares(rows[i], symbol@, l));
                        }
                    }
                }
                None
            },
        }
    }
}

proof fn labels_unchanged(
    before: OrdMap<String, Option<String>>,
    rows: Seq<RowModel>,
    row: RowModel,
)
    requires
        (Labels { by_symbol: before }).of(rows),
        !row.dom().contains("symbol"@) || own_label(row) is None,
    ensures
        (Labels { by_symbol: before }).of(rows.push(row)),
{
    labels_grow(before@, before@, rows, row);
}

/// What holds of the labels after one more row, given what holds for the symbol
/// of that row.
proof fn labels_grow(
    before: Map<Seq<char>, Option<String>>,
    after: Map<Seq<char>, Option<String>>,
    rows: Seq<RowModel>,
    row: RowModel,
)
    requires
        forall|symbol: Seq<char>| #[trigger]
            before.dom().contains(symbol) <==> exists|i: int, label: Seq<char>|
                0 <= i < rows.len() && #[trigger] declares(rows[i], symbol, label),
        forall|symbol: Seq<char>| #[trigger]
            before.dom().contains(symbol) ==> match before[symbol] {
                Some(label) => is_sole_label(rows, symbol, label@),
                None => exists|i: int, j: int, a: Seq<char>, b: Seq<char>|
                    0 <= i < rows.len() && 0 <= j < rows.len() && a != b && #[trigger] declares(
                        rows[i],
                        symbol,
                        a,
                    ) && #[trigger] declares(rows[j], symbol, b),
            },
        ({
            let symbol = row["symbol"@].text;
            match own_label(row) {
                None => after == before,
                Some(label) => if !row.dom().contains("symbol"@) {
                    after == before
                } else {
                    &&& forall|s: Seq<char>|
                        s != symbol ==> (#[trigger] after.dom().contains(s)
                            == before.dom().contains(s)) && after[s] == before[s]
                    &&& after.dom().contains(symbol)
                    &&& match after[symbol] {
                        Some(l) => l@ == label && (!before.dom().contains(symbol) || (
                        before[symbol] matches Some(p) && p@ == label)),
                        None => before.dom().contains(symbol) && (before[symbol] matches Some(p)
                            ==> p@ != label),
                    }
                },
            }
        }),
    ensures
        forall|symbol: Seq<char>| #[trigger]
            after.dom().contains(symbol) <==> exists|i: int, label: Seq<char>|
                0 <= i < rows.push(row).len() && #[trigger] declares(
                    rows.push(row)[i],
                    symbol,
                    label,
                ),
        forall|symbol: Seq<char>| #[trigger]
            after.dom().contains(symbol) ==> match after[symbol] {
                Some(label) => is_sole_label(rows.push(row), symbol, label@),
                None => exists|i: int, j: int, a: Seq<char>, b: Seq<char>|
                    0 <= i < rows.push(row).len() && 0 <= j < rows.push(row).len() && a != b
                        && #[trigger] declares(rows.push(row)[i], symbol, a)
                        && #[trigger] declares(rows.push(row)[j], symbol, b),
            },
{
    let all = rows.push(row);
    let n = rows.len() as int;
    assert(all[n] == row);
    assert forall|i: int| 0 <= i < n implies #[trigger] all[i] == rows[i] by {}
    assert forall|symbol: Seq<char>| #[trigger]
        after.dom().contains(symbol) <==> exists|i: int, label: Seq<char>|
            0 <= i < all.len() && #[trigger] declares(all[i], symbol, label) by {
        if after.dom().contains(symbol) {
            if before.dom().contains(symbol) {
                let (i, label) = choose|i: int, label: Seq<char>|
                    0 <= i < rows.len() && #[trigger] declares(rows[i], symbol, label);
                assert(declares(all[i], symbol, label));
            } else {
                assert(declares(all[n], symbol, own_label(row)->0));
            }
        }
        if exists|i: int, label: Seq<char>|
            0 <= i < all.len() && #[trigger] declares(all[i], symbol, label) {
            let (i, label) = choose|i: int, label: Seq<char>|
                0 <= i < all.len() && #[trigger] declares(all[i], symbol, label);
            if i < n {
                assert(declares(rows[i], symbol, label));
                assert(before.dom().contains(symbol));
            }
        }
    }
    assert forall|symbol: Seq<char>| #[trigger] after.dom().contains(symbol) implies match after[symbol] {
        Some(label) => is_sole_label(all, symbol, label@),
        None => exists|i: int, j: int, a: Seq<char>, b: Seq<char>|
            0 <= i < all.len() && 0 <= j < all.len() && a != b && #[trigger] declares(
                all[i],
                symbol,
                a,
            ) && #[trigger] declares(all[j], symbol, b),
    } by {
        match after[symbol] {
            Some(label) => {
                if before.dom().contains(symbol) {
                    assert(is_sole_label(rows, symbol, before[symbol]->0@));
                    let i = choose|i: int|
                        0 <= i < rows.len() && declares(
                            #[trigger] rows[i],
                            symbol,
                            before[symbol]->0@,
                        );
                    assert(declares(all[i], symbol, label@));
                    assert forall|k: int, other: Seq<char>|
                        0 <= k < all.len() && #[trigger] declares(
                            all[k],
                            symbol,
                            other,
                        ) implies other == label@ by {
                        if k < n {
                            assert(declares(rows[k], symbol, other));
                        }
                    }
                } else {
                    assert(declares(all[n], symbol, label@));
                    assert forall|k: int, other: Seq<char>|
                        0 <= k < all.len() && #[trigger] declares(
                            all[k],
                            symbol,
                            other,
                        ) implies other == label@ by {
                        if k < n {
                            assert(declares(rows[k], symbol, other));
                        }
                    }
                }
            },
            None => {
                if before[symbol] is None {
                    let (i, j, a, b) = choose|i: int, j: int, a: Seq<char>, b: Seq<char>|
                        0 <= i < rows.len() && 0 <= j < rows.len() && a != b && #[trigger] declares(
                            rows[i],
                            symbol,
                            a,
                        ) && #[trigger] declares(rows[j], symbol, b);
                    assert(declares(all[i], symbol, a));
                    assert(declares(all[j], symbol, b));
                } else {
                    let p = before[symbol]->0@;
                    assert(is_sole_label(rows, symbol, p));
                    let i = choose|i: int|
                        0 <= i < rows.len() && declares(#[trigger] rows[i], symbol, p);
                    assert(declares(all[i], symbol, p));
                    assert(declares(all[n], symbol, own_label(row)->0));
                }
            },
        }
    }
}

/// The labels that rows declare, symbol by symbol.
pub fn sole_declared_cadences(rows: &[Row]) -> (out: Labels)
    requires
        series::all_wf(rows@),
    ensures
        out.of(series::row_models(rows@)),
{
    let mut by_symbol: OrdMap<String, Option<String>> = OrdMap::new();
    let n: usize = rows.len();
    let ghost all = series::row_models(rows@);
    for i in 0..n
        invariant
            n == rows@.len(),
            all == series::row_models(rows@),
            series::all_wf(rows@),
            (Labels { by_symbol }).of(all.take(i as int)),
    {
        let row: &Row = &rows[i];
        let ghost before = by_symbol;
        let ghost seen = all.take(i as int);
        assert(all.take(i + 1) =~= seen.push(row@));
        if let (Some(symbol), Some(label)) = (row.get("symbol"), declared_cadence(row)) {
            let known: Option<Option<bool>> = match by_symbol.get(&symbol.text) {
                Some(Some(l)) => Some(Some(text::same(l, label))),
                Some(None) => Some(None),
                None => None,
            };
            let ghost s = symbol.text@;
            match known {
                None => {
                    by_symbol.insert(symbol.text.clone(), Some(label.to_owned()));
                },
                Some(Some(true)) => {},
                Some(Some(false)) => {
                    by_symbol.insert(symbol.text.clone(), None);
                },
                Some(None) => {},
            }
            proof {
                labels_grow(before@, by_symbol@, seen, row@);
            }
        } else {
            proof {
                labels_unchanged(before, seen, row@);
            }
        }
    }
    assert(all.take(n as int) =~= all);
    Labels { by_symbol }
}

// ---------------------------------------------------------------------------
// Joining
// ---------------------------------------------------------------------------

/// The key of a row in a load: its symbol, its label (its own, else the sole one
/// of its symbol, else the empty one) and its time; or what is said where one of
/// them is missing.
pub open spec fn key_of(spec: Seq<char>, row: RowModel, load: Seq<RowModel>) -> Result<
    KeyModel,
    Seq<char>,
> {
    if !row.dom().contains("symbol"@) {
        Err("series `"@ + spec + "`: a row is missing a `symbol` column"@)
    } else if !row.dom().contains("time"@) {
        Err("series `"@ + spec + "`: a row is missing a `time` column"@)
    } else {
        let symbol = row["symbol"@].text;
        let label = match own_label(row) {
            Some(l) => l,
            None => match sole_label(load, symbol) {
                Some(l) => l,
                None => seq![],
            },
        };
        Ok((symbol, label, row["time"@].text))
    }
}

/// `frame` with `row` merged under `key`; its cells win.
pub open spec fn merged(
    frame: Map<KeyModel, RowModel>,
    key: KeyModel,
    row: RowModel,
) -> Map<KeyModel, RowModel> {
    let held = if frame.dom().contains(key) {
        frame[key]
    } else {
        Map::empty()
    };
    frame.insert(key, held.union_prefer_right(row))
}

/// The rows of a load and the argument that each comes from.
pub struct Load {
    pub specs: Seq<Seq<char>>,
    pub rows: Seq<RowModel>,
}

/// The rows of the first `n` arguments, or what is said of the first thing that
/// is wrong.
pub open spec fn loaded(specs: Seq<SeriesSpec>, data: Seq<SeriesData>, n: int) -> Result<
    Load,
    Seq<char>,
>
    decreases n,
{
    if n <= 0 {
        Ok(Load { specs: seq![], rows: seq![] })
    } else {
        match loaded(specs, data, n - 1) {
            Err(m) => Err(m),
            Ok(load) => match series::series_rows(
                specs[n - 1]@,
                data[n - 1],
                specs[n - 1].files@.len() as int,
            ) {
                Err(m) => Err(m),
                Ok(rows) => Ok(
                    Load {
                        specs: load.specs + Seq::new(rows.len(), |i: int| specs[n - 1].raw@),
                        rows: load.rows + rows,
                    },
                ),
            },
        }
    }
}

/// The frame of the first `n` rows of a load, or what is said of the first row
/// that has no key.
pub open spec fn joined(load: Load, n: int) -> Result<Map<KeyModel, RowModel>, Seq<char>>
    decreases n,
{
    if n <= 0 {
        Ok(Map::empty())
    } else {
        match joined(load, n - 1) {
            Err(m) => Err(m),
            Ok(frame) => match key_of(load.specs[n - 1], load.rows[n - 1], load.rows) {
                Err(m) => Err(m),
                Ok(key) => Ok(merged(frame, key, load.rows[n - 1])),
            },
        }
    }
}

proof fn loaded_stays_wrong(specs: Seq<SeriesSpec>, data: Seq<SeriesData>, k: int, n: int)
    requires
        0 <= k <= n,
    ensures
        loaded(specs, data, k) is Err ==> loaded(specs, data, n) == loaded(specs, data, k),
    decreases n - k,
{
    if k < n {
        loaded_stays_wrong(specs, data, k, n - 1);
    }
}

proof fn joined_stays_wrong(load: Load, k: int, n: int)
    requires
        0 <= k <= n,
    ensures
        joined(load, k) is Err ==> joined(load, n) == joined(load, k),
    decreases n - k,
{
    if k < n {
        joined_stays_wrong(load, k, n - 1);
    }
}

/// Rows under their keys, as values.
pub open spec fn frame_map(m: Map<KeyModel, Row>) -> Map<KeyModel, RowModel> {
    Map::new(|k: KeyModel| m.dom().contains(k), |k: KeyModel| m[k]@)
}

/// Entries as values.
pub open spec fn entry_models(e: Seq<(RowKey, Row)>) -> Seq<(KeyModel, RowModel)> {
    Seq::new(e.len(), |i: int| (e[i].0.model(), e[i].1@))
}

/// Whether all rows of a map are in order.
pub open spec fn rows_wf(m: Map<KeyModel, Row>) -> bool {
    forall|k: KeyModel| #[trigger] m.dom().contains(k) ==> m[k].wf()
}

// ---------------------------------------------------------------------------
// Overlay columns
// ---------------------------------------------------------------------------

/// The cells that the rows have in a column, in order.
pub open spec fn cells_named(entries: Seq<(KeyModel, RowModel)>, name: Seq<char>) -> Seq<CellModel>
    decreases entries.len(),
{
    if entries.len() == 0 {
        seq![]
    } else if entries.last().1.dom().contains(name) {
        cells_named(entries.drop_last(), name).push(entries.last().1[name])
    } else {
        cells_named(entries.drop_last(), name)
    }
}

/// Whether some row has a cell in a column that holds no part of the bar.
pub open spec fn has_overlay(entries: Seq<(KeyModel, RowModel)>, name: Seq<char>) -> bool {
    !csv_source::is_bar_column(name) && exists|i: int|
        0 <= i < entries.len() && (#[trigger] entries[i]).1.dom().contains(name)
}

/// Whether `columns` are the overlay columns of the rows: each name once, in
/// ascending order, with the type that its cells give it.
pub open spec fn are_overlay_columns(
    columns: Seq<(Seq<char>, OverlayType)>,
    entries: Seq<(KeyModel, RowModel)>,
) -> bool {
    &&& forall|i: int, j: int|
        0 <= i < j < columns.len() ==> text::text_lt(
            (#[trigger] columns[i]).0,
            (#[trigger] columns[j]).0,
        )
    &&& forall|i: int|
        0 <= i < columns.len() ==> has_overlay(entries, (#[trigger] columns[i]).0)
            && columns[i].1 == table::column_type(cells_named(entries, columns[i].0))
    &&& forall|name: Seq<char>| #[trigger]
        has_overlay(entries, name) ==> exists|i: int|
            0 <= i < columns.len() && (#[trigger] columns[i]).0 == name
}

/// Whether `schema` is the schema of the rows: none where there are no overlay
/// columns.
pub open spec fn is_schema(
    schema: Option<Arc<Schema>>,
    entries: Seq<(KeyModel, RowModel)>,
) -> bool {
    match schema {
        Some(s) => s@.len() > 0 && are_overlay_columns(s@, entries),
        None => are_overlay_columns(seq![], entries),
    }
}

/// The long frame.
#[derive(Debug)]
pub struct DataFrame {
    pub rows: OrdMap<RowKey, Row>,
    /// The one schema that all bars of the frame share.
    pub schema: Option<Arc<Schema>>,
}

impl View for DataFrame {
    type V = Map<KeyModel, RowModel>;

    open spec fn view(&self) -> Map<KeyModel, RowModel> {
        frame_map(self.rows@)
    }
}

impl DataFrame {
    /// The rows in order.
    pub open spec fn entries(&self) -> Seq<(KeyModel, RowModel)> {
        entry_models(self.rows.entries@)
    }

    /// Whether keys and cells are in order and the schema is that of the rows.
    pub open spec fn wf(&self) -> bool {
        &&& self.rows.wf()
        &&& rows_wf(self.rows@)
        &&& is_schema(self.schema, self.entries())
    }
}

/// The rows of a frame stand in ascending order of their keys, and are those of
/// its map.
pub proof fn entries_ascend(frame: DataFrame)
    requires
        frame.wf(),
    ensures
        forall|i: int, j: int|
            0 <= i < j < frame.entries().len() ==> RowKey::before(
                (#[trigger] frame.entries()[i]).0,
                (#[trigger] frame.entries()[j]).0,
            ),
        forall|i: int|
            0 <= i < frame.entries().len() ==> frame@.dom().contains(
                (#[trigger] frame.entries()[i]).0,
            ) && frame@[frame.entries()[i].0] == frame.entries()[i].1,
        forall|k: KeyModel| #[trigger]
            frame@.dom().contains(k) ==> exists|i: int|
                0 <= i < frame.entries().len() && (#[trigger] frame.entries()[i]).0 == k,
{
    let e = frame.rows.entries@;
    assert forall|i: int, j: int| 0 <= i < j < frame.entries().len() implies RowKey::before(
        (#[trigger] frame.entries()[i]).0,
        (#[trigger] frame.entries()[j]).0,
    ) by {
        assert(RowKey::before(e[i].0.model(), e[j].0.model()));
    }
    assert forall|i: int| 0 <= i < frame.entries().len() implies frame@.dom().contains(
        (#[trigger] frame.entries()[i]).0,
    ) && frame@[frame.entries()[i].0] == frame.entries()[i].1 by {
        ordmap::place_is_unique(e, i);
    }
    assert forall|k: KeyModel| #[trigger] frame@.dom().contains(k) implies exists|i: int|
        0 <= i < frame.entries().len() && (#[trigger] frame.entries()[i]).0 == k by {
        let i = choose|i: int| ordmap::holds(e, k, i);
        assert(ordmap::holds(e, k, i));
        assert(frame.entries()[i].0 == k);
    }
}

/// What is known of the columns so far.
spec fn columns_sum_up(
    states: Map<Seq<char>, ColumnState>,
    entries: Seq<(KeyModel, RowModel)>,
) -> bool {
    &&& forall|name: Seq<char>| #[trigger] states.dom().contains(name) <==> has_overlay(entries, name)
    &&& forall|name: Seq<char>| #[trigger]
        states.dom().contains(name) ==> states[name].sums_up(cells_named(entries, name))
}

/// What is known of the columns after the first `k` cells of one more row.
spec fn columns_partly(
    states: Map<Seq<char>, ColumnState>,
    entries: Seq<(KeyModel, RowModel)>,
    row: Seq<(String, Cell)>,
    k: int,
) -> bool {
    &&& forall|name: Seq<char>| #[trigger]
        states.dom().contains(name) <==> has_overlay(entries, name) || (
        !csv_source::is_bar_column(name) && exists|i: int|
            0 <= i < k && (#[trigger] row[i]).0@ == name)
    &&& forall|name: Seq<char>| #[trigger]
        states.dom().contains(name) ==> states[name].sums_up(
            if exists|i: int| 0 <= i < k && (#[trigger] row[i]).0@ == name {
                cells_named(entries, name).push(
                    row[choose|i: int| 0 <= i < k && (#[trigger] row[i]).0@ == name].1@,
                )
            } else {
                cells_named(entries, name)
            },
        )
}

proof fn no_cells_without_overlay(entries: Seq<(KeyModel, RowModel)>, name: Seq<char>)
    requires
        forall|i: int| 0 <= i < entries.len() ==> !(#[trigger] entries[i]).1.dom().contains(name),
    ensures
        cells_named(entries, name) == Seq::<CellModel>::empty(),
    decreases entries.len(),
{
    if entries.len() > 0 {
        let rest = entries.drop_last();
        assert forall|i: int| 0 <= i < rest.len() implies !(#[trigger] rest[i]).1.dom().contains(
            name,
        ) by {
            assert(rest[i] == entries[i]);
        }
        no_cells_without_overlay(rest, name);
        assert(!entries[entries.len() - 1].1.dom().contains(name));
    }
}

fn observe_cells(
    states: &mut OrdMap<String, ColumnState>,
    row: &Row,
    Ghost(entries): Ghost<Seq<(KeyModel, RowModel)>>,
    Ghost(key): Ghost<KeyModel>,
)
    requires
        old(states).wf(),
        row.wf(),
        columns_sum_up(old(states)@, entries),
    ensures
        final(states).wf(),
        columns_sum_up(final(states)@, entries.push((key, row@))),
{
    let ghost e = row.cells.entries@;
    let n: usize = row.cells.entries.len();
    for k in 0..n
        invariant
            n == row.cells.entries@.len(),
            e == row.cells.entries@,
            row.wf(),
            states.wf(),
            columns_partly(states@, entries, e, k as int),
    {
        let name: &String = &row.cells.entries[k].0;
        let ghost before = states@;
        let ghost m = name@;
        proof {
            assert forall|i: int| 0 <= i < k implies (#[trigger] e[i]).0@ != m by {
                assert(<String as Key>::before(e[i].0.model(), e[k as int].0.model()));
                text::text_lt_irreflexive(m);
            }
        }
        if !csv_source::bar_column(name) {
            let mut state: ColumnState = match states.get(name) {
                Some(s) => *s,
                None => ColumnState::new(),
            };
            proof {
                if !before.dom().contains(m) {
                    assert forall|i: int| 0 <= i < entries.len() implies !(
                    #[trigger] entries[i]).1.dom().contains(m) by {
                        if entries[i].1.dom().contains(m) {
                            assert(has_overlay(entries, m));
                        }
                    }
                    no_cells_without_overlay(entries, m);
                }
                assert(state.sums_up(cells_named(entries, m)));
            }
            state.observe(&row.cells.entries[k].1);
            states.insert(name.clone(), state);
            assert(state.sums_up(cells_named(entries, m).push(e[k as int].1@)));
        }
        proof {
            let after = states@;
            let kk = k + 1;
            assert(e[k as int].0@ == m);
            assert forall|x: Seq<char>| #[trigger]
                after.dom().contains(x) <==> has_overlay(entries, x) || (
                !csv_source::is_bar_column(x) && exists|i: int|
                    0 <= i < kk && (#[trigger] e[i]).0@ == x) by {
                if x != m {
                    assert(after.dom().contains(x) == before.dom().contains(x));
                    if exists|i: int| 0 <= i < kk && (#[trigger] e[i]).0@ == x {
                        let i = choose|i: int| 0 <= i < kk && (#[trigger] e[i]).0@ == x;
                        assert(i < k);
                        assert(e[i].0@ == x);
                    }
                } else if csv_source::is_bar_column(m) {
                    assert(after.dom().contains(x) == before.dom().contains(x));
                }
            }
            assert forall|x: Seq<char>| #[trigger] after.dom().contains(x) implies after[x].sums_up(
                if exists|i: int| 0 <= i < kk && (#[trigger] e[i]).0@ == x {
                    cells_named(entries, x).push(
                        e[choose|i: int| 0 <= i < kk && (#[trigger] e[i]).0@ == x].1@,
                    )
                } else {
                    cells_named(entries, x)
                },
            ) by {
                if x == m {
                    let c = choose|i: int| 0 <= i < kk && (#[trigger] e[i]).0@ == x;
                    assert(0 <= c < kk && e[c].0@ == x);
                    assert(c == k);
                } else {
                    assert(before.dom().contains(x));
                    if exists|i: int| 0 <= i < k && (#[trigger] e[i]).0@ == x {
                        let c0 = choose|i: int| 0 <= i < k && (#[trigger] e[i]).0@ == x;
                        let c1 = choose|i: int| 0 <= i < kk && (#[trigger] e[i]).0@ == x;
                        assert(0 <= c1 < kk && e[c1].0@ == x);
                        ordmap::place_is_unique(e, c0);
                        ordmap::place_is_unique(e, c1);
                        assert(c0 == c1);
                    } else {
                        assert(!(exists|i: int| 0 <= i < kk && (#[trigger] e[i]).0@ == x));
                    }
                }
            }
        }
    }
    proof {
        let more = entries.push((key, row@));
        let last = more[entries.len() as int];
        assert(last == (key, row@));
        assert(more.drop_last() =~= entries);
        assert forall|x: Seq<char>| row@.dom().contains(x) <==> exists|i: int|
            0 <= i < n && (#[trigger] e[i]).0@ == x by {
            if row@.dom().contains(x) {
                let i = choose|i: int| ordmap::holds(e, x, i);
                assert(ordmap::holds(e, x, i));
                assert(e[i].0@ == x);
            }
            if exists|i: int| 0 <= i < n && (#[trigger] e[i]).0@ == x {
                let i = choose|i: int| 0 <= i < n && (#[trigger] e[i]).0@ == x;
                ordmap::place_is_unique(e, i);
            }
        }
        assert forall|x: Seq<char>| #[trigger] states@.dom().contains(x) <==> has_overlay(more, x) by {
            if has_overlay(entries, x) {
                let i = choose|i: int|
                    0 <= i < entries.len() && (#[trigger] entries[i]).1.dom().contains(x);
                assert(more[i] == entries[i]);
                assert(more[i].1.dom().contains(x));
            }
            if row@.dom().contains(x) && !csv_source::is_bar_column(x) {
                assert(last.1.dom().contains(x));
                assert(has_overlay(more, x));
            }
            if has_overlay(more, x) {
                let i = choose|i: int|
                    0 <= i < more.len() && (#[trigger] more[i]).1.dom().contains(x);
                if i < entries.len() {
                    assert(entries[i].1.dom().contains(x));
                }
            }
        }
        assert forall|x: Seq<char>| #[trigger] states@.dom().contains(x) implies states@[x].sums_up(
            cells_named(more, x),
        ) by {
            if row@.dom().contains(x) {
                let c = choose|i: int| 0 <= i < n && (#[trigger] e[i]).0@ == x;
                assert(0 <= c < n && e[c].0@ == x);
                ordmap::place_is_unique(e, c);
                assert(row@[x] == e[c].1@);
            }
        }
    }
}

/// The schema of rows in order.
fn build_schema(rows: &OrdMap<RowKey, Row>) -> (out: Option<Arc<Schema>>)
    requires
        rows.wf(),
        rows_wf(rows@),
    ensures
        is_schema(out, entry_models(rows.entries@)),
{
    let mut states: OrdMap<String, ColumnState> = OrdMap::new();
    let ghost all = entry_models(rows.entries@);
    let n: usize = rows.entries.len();
    for i in 0..n
        invariant
            n == rows.entries@.len(),
            all == entry_models(rows.entries@),
            rows.wf(),
            rows_wf(rows@),
            states.wf(),
            columns_sum_up(states@, all.take(i as int)),
    {
        proof {
            ordmap::place_is_unique(rows.entries@, i as int);
            assert(all.take(i + 1) =~= all.take(i as int).push(all[i as int]));
        }
        observe_cells(
            &mut states,
            &rows.entries[i].1,
            Ghost(all.take(i as int)),
            Ghost(rows.entries@[i as int].0.model()),
        );
    }
    assert(all.take(n as int) =~= all);
    let mut columns: Vec<(String, OverlayType)> = Vec::new();
    let m: usize = states.entries.len();
    let ghost e = states.entries@;
    for k in 0..m
        invariant
            m == states.entries@.len(),
            e == states.entries@,
            states.wf(),
            columns_sum_up(states@, all),
            columns@.len() == k,
            forall|j: int|
                0 <= j < k ==> (#[trigger] columns@[j]).0@ == e[j].0@ && columns@[j].1
                    == table::column_type(cells_named(all, e[j].0@)),
    {
        proof {
            ordmap::place_is_unique(e, k as int);
            assert(states@.dom().contains(e[k as int].0@));
            assert(e[k as int].1.sums_up(cells_named(all, e[k as int].0@)));
        }
        let ty: OverlayType = states.entries[k].1.resolve();
        columns.push((states.entries[k].0.clone(), ty));
    }
    let ghost model = market::columns_of(columns@);
    proof {
        assert forall|i: int, j: int| 0 <= i < j < model.len() implies text::text_lt(
            (#[trigger] model[i]).0,
            (#[trigger] model[j]).0,
        ) by {
            assert(<String as Key>::before(e[i].0.model(), e[j].0.model()));
        }
        assert forall|i: int| 0 <= i < model.len() implies has_overlay(all, (#[trigger] model[i]).0)
            && model[i].1 == table::column_type(cells_named(all, model[i].0)) by {
            ordmap::place_is_unique(e, i);
            assert(states@.dom().contains(e[i].0@));
        }
        assert forall|name: Seq<char>| #[trigger] has_overlay(all, name) implies exists|i: int|
            0 <= i < model.len() && (#[trigger] model[i]).0 == name by {
            assert(states@.dom().contains(name));
            let i = choose|i: int| ordmap::holds(e, name, i);
            assert(ordmap::holds(e, name, i));
            assert(model[i].0 == name);
        }
        assert(are_overlay_columns(model, all));
    }
    if columns.len() == 0 {
        assert(model =~= Seq::<(Seq<char>, OverlayType)>::empty());
        None
    } else {
        Some(Arc::new(Schema { columns }))
    }
}


// ---------------------------------------------------------------------------
// Reading the frame
// ---------------------------------------------------------------------------

/// The symbols of rows in order, each once.
pub open spec fn symbols_in(entries: Seq<(KeyModel, RowModel)>) -> Seq<Seq<char>>
    decreases entries.len(),
{
    if entries.len() == 0 {
        seq![]
    } else {
        let rest = symbols_in(entries.drop_last());
        if rest.len() > 0 && rest.last() == entries.last().0.0 {
            rest
        } else {
            rest.push(entries.last().0.0)
        }
    }
}

/// The labels that the rows of a symbol carry, in order, each once.
pub open spec fn labels_in(entries: Seq<(KeyModel, RowModel)>, symbol: Seq<char>) -> Seq<Seq<char>>
    decreases entries.len(),
{
    if entries.len() == 0 {
        seq![]
    } else {
        let rest = labels_in(entries.drop_last(), symbol);
        if entries.last().0.0 != symbol || (rest.len() > 0 && rest.last() == entries.last().0.1) {
            rest
        } else {
            rest.push(entries.last().0.1)
        }
    }
}

/// `stamps` with `x` put behind the last one that is not above it.
pub open spec fn with_stamp(stamps: Seq<i64>, x: i64) -> Seq<i64>
    decreases stamps.len(),
{
    if stamps.len() == 0 || stamps.last() <= x {
        stamps.push(x)
    } else {
        with_stamp(stamps.drop_last(), x).push(stamps.last())
    }
}

/// One group of rows: symbol, label, and the times that its rows spell, in
/// ascending order.
pub struct GroupModel {
    pub symbol: Seq<char>,
    pub freq: Seq<char>,
    pub stamps: Seq<i64>,
}

/// The groups of rows, in order. A row whose time spells none adds no stamp.
pub open spec fn groups_in(entries: Seq<(KeyModel, RowModel)>) -> Seq<GroupModel>
    decreases entries.len(),
{
    if entries.len() == 0 {
        seq![]
    } else {
        let rest = groups_in(entries.drop_last());
        let (symbol, freq, time) = entries.last().0;
        let opened = if rest.len() > 0 && rest.last().symbol == symbol && rest.last().freq == freq {
            rest
        } else {
            rest.push(GroupModel { symbol, freq, stamps: seq![] })
        };
        match calendar::parsed_millis(time) {
            Some(ms) => opened.drop_last().push(
                GroupModel { symbol, freq, stamps: with_stamp(opened.last().stamps, ms as i64) },
            ),
            None => opened,
        }
    }
}

/// One group of rows.
#[derive(Debug)]
pub struct CadenceGroup {
    pub symbol: String,
    pub freq: String,
    pub stamps: Vec<i64>,
}

impl View for CadenceGroup {
    type V = GroupModel;

    open spec fn view(&self) -> GroupModel {
        GroupModel { symbol: self.symbol@, freq: self.freq@, stamps: self.stamps@ }
    }
}

/// Groups as values.
pub open spec fn group_models(v: Seq<CadenceGroup>) -> Seq<GroupModel> {
    Seq::new(v.len(), |i: int| v[i]@)
}

fn insert_stamp(v: &mut Vec<i64>, x: i64)
    ensures
        final(v)@ == with_stamp(old(v)@, x),
{
    let mut k: usize = v.len();
    let ghost s = v@;
    assert(s.take(k as int) =~= s);
    assert(with_stamp(s.take(k as int), x) + s.skip(k as int) =~= with_stamp(s, x));
    while k > 0 && v[k - 1] > x
        invariant
            v@ == s,
            k <= s.len(),
            with_stamp(s.take(k as int), x) + s.skip(k as int) == with_stamp(s, x),
        decreases k,
    {
        proof {
            let t = s.take(k as int);
            assert(t.drop_last() =~= s.take(k - 1));
            assert(with_stamp(t, x) == with_stamp(s.take(k - 1), x).push(s[k - 1]));
            assert(with_stamp(s.take(k - 1), x) + s.skip(k - 1) =~= with_stamp(t, x) + s.skip(
                k as int,
            ));
        }
        k = k - 1;
    }
    proof {
        let t = s.take(k as int);
        assert(with_stamp(t, x) == t.push(x));
    }
    v.insert(k, x);
    assert(v@ =~= s.take(k as int).push(x) + s.skip(k as int));
}

/// What one group of rows has in its `time` cells: how many are not blank, how
/// many of these spell a time, and the first one that does not.
#[derive(Debug)]
pub struct TimeGroup {
    pub symbol: String,
    pub freq: String,
    pub with_cell: usize,
    pub parsed: usize,
    pub example: Option<String>,
}

/// A time group as values.
pub struct TimeGroupModel {
    pub symbol: Seq<char>,
    pub freq: Seq<char>,
    pub with_cell: nat,
    pub parsed: nat,
    pub example: Option<Seq<char>>,
}

impl View for TimeGroup {
    type V = TimeGroupModel;

    open spec fn view(&self) -> TimeGroupModel {
        TimeGroupModel {
            symbol: self.symbol@,
            freq: self.freq@,
            with_cell: self.with_cell as nat,
            parsed: self.parsed as nat,
            example: calendar::text_of(self.example),
        }
    }
}

/// Time groups as values.
pub open spec fn time_models(v: Seq<TimeGroup>) -> Seq<TimeGroupModel> {
    Seq::new(v.len(), |i: int| v[i]@)
}

/// A group after one more `time` cell.
pub open spec fn with_time(g: TimeGroupModel, time: Seq<char>) -> TimeGroupModel {
    if text::trimmed(time).len() == 0 {
        g
    } else if calendar::parsed_millis(time) is Some {
        TimeGroupModel { with_cell: g.with_cell + 1, parsed: g.parsed + 1, ..g }
    } else {
        TimeGroupModel {
            with_cell: g.with_cell + 1,
            example: match g.example {
                Some(e) => Some(e),
                None => Some(time),
            },
            ..g
        }
    }
}

/// What the groups of rows have in their `time` cells, in order.
pub open spec fn times_in(entries: Seq<(KeyModel, RowModel)>) -> Seq<TimeGroupModel>
    decreases entries.len(),
{
    if entries.len() == 0 {
        seq![]
    } else {
        let rest = times_in(entries.drop_last());
        let (symbol, freq, time) = entries.last().0;
        if rest.len() > 0 && rest.last().symbol == symbol && rest.last().freq == freq {
            rest.drop_last().push(with_time(rest.last(), time))
        } else {
            rest.push(
                with_time(
                    TimeGroupModel { symbol, freq, with_cell: 0, parsed: 0, example: None },
                    time,
                ),
            )
        }
    }
}

/// No group counts more parsed cells than cells, nor more than there are rows.
pub proof fn time_groups_fit(entries: Seq<(KeyModel, RowModel)>)
    ensures
        forall|i: int|
            0 <= i < times_in(entries).len() ==> (#[trigger] times_in(entries)[i]).parsed
                <= times_in(entries)[i].with_cell && times_in(entries)[i].with_cell
                <= entries.len() && (times_in(entries)[i].example is None <==> times_in(
                entries,
            )[i].parsed == times_in(entries)[i].with_cell),
    decreases entries.len(),
{
    if entries.len() > 0 {
        time_groups_fit(entries.drop_last());
        let rest = times_in(entries.drop_last());
        let all = times_in(entries);
        assert forall|i: int| 0 <= i < all.len() implies (#[trigger] all[i]).parsed
            <= all[i].with_cell && all[i].with_cell <= entries.len() && (all[i].example is None
            <==> all[i].parsed == all[i].with_cell) by {
            if i < all.len() - 1 {
                assert(all[i] == rest[i]);
            } else if rest.len() == all.len() {
                assert(rest[i] == rest.last());
            }
        }
    }
}

// ---------------------------------------------------------------------------
// Bars
// ---------------------------------------------------------------------------

/// Whether a row has a price column that is not blank.
pub open spec fn filled(row: RowModel, name: Seq<char>) -> bool {
    row.dom().contains(name) && text::trimmed(row[name].text).len() > 0
}

/// The price columns.
pub open spec fn price_columns() -> Seq<Seq<char>> {
    seq!["open"@, "high"@, "low"@, "close"@]
}

/// The price columns that a row has not filled, in order.
pub open spec fn missing_columns(row: RowModel, names: Seq<Seq<char>>) -> Seq<Seq<char>>
    decreases names.len(),
{
    if names.len() == 0 {
        seq![]
    } else if filled(row, names.last()) {
        missing_columns(row, names.drop_last())
    } else {
        missing_columns(row, names.drop_last()).push(names.last())
    }
}

/// The number of a cell as it is written, or what is said of it: it has to be
/// one, and a finite one.
pub open spec fn finite_number(at: Seq<char>, name: Seq<char>, cell: CellModel) -> Result<
    Real,
    Seq<char>,
> {
    let shown = at + ": column `"@ + name + "` = "@ + text::debug_text(cell.text);
    if cell.number is None || text::trimmed(cell.text) != cell.text {
        Err(shown + ": "@ + csv_source::number_complaint(cell.text))
    } else if !cell.number->0.finite() {
        Err(
            shown
                + " is not a finite number — a price has no \"absent\" value; omit the row instead"@,
        )
    } else {
        Ok(cell.number->0)
    }
}

/// The volume of a row: zero where it has none.
pub open spec fn volume_of(at: Seq<char>, row: RowModel) -> Result<Real, Seq<char>> {
    if row.dom().contains("volume"@) && row["volume"@].text.len() > 0 {
        finite_number(at, "volume"@, row["volume"@])
    } else {
        Ok(Real { bits: 0 })
    }
}

/// The bar of a row: none where it fills no price column; or what is said where
/// it fills some but not all, or a number is wrong.
pub open spec fn candle_of(symbol: Seq<char>, time: Seq<char>, row: RowModel) -> Result<
    Option<Candle>,
    Seq<char>,
> {
    let at = symbol + " @ "@ + time;
    let missing = missing_columns(row, price_columns());
    let volume = volume_of(at, row);
    let open = finite_number(at, "open"@, row["open"@]);
    let high = finite_number(at, "high"@, row["high"@]);
    let low = finite_number(at, "low"@, row["low"@]);
    let close = finite_number(at, "close"@, row["close"@]);
    if missing.len() == 4 {
        Ok(None)
    } else if missing.len() > 0 {
        Err(
            at + ": price bar is missing `"@ + text::joined(missing, "`, `"@)
                + "` — a row with some OHLC columns but not all is a malformed candle, not an overlay-only series"@,
        )
    } else if volume is Err {
        Err(volume->Err_0)
    } else if open is Err {
        Err(open->Err_0)
    } else if high is Err {
        Err(high->Err_0)
    } else if low is Err {
        Err(low->Err_0)
    } else if close is Err {
        Err(close->Err_0)
    } else {
        Ok(
            Some(
                Candle {
                    open: open->Ok_0,
                    high: high->Ok_0,
                    low: low->Ok_0,
                    close: close->Ok_0,
                    volume: volume->Ok_0,
                },
            ),
        )
    }
}

fn is_filled(row: &Row, name: &str) -> (out: bool)
    requires
        row.wf(),
    ensures
        out == filled(row@, name@),
{
    match row.get(name) {
        Some(cell) => !text::trim(&cell.text).is_empty(),
        None => false,
    }
}

fn note_missing(row: &Row, name: &str, missing: &mut Vec<String>)
    requires
        row.wf(),
    ensures
        text::texts(final(missing)@) == (if filled(row@, name@) {
            text::texts(old(missing)@)
        } else {
            text::texts(old(missing)@).push(name@)
        }),
{
    let ghost before = missing@;
    if !is_filled(row, name) {
        missing.push(name.to_owned());
        assert(text::texts(missing@) =~= text::texts(before).push(name@));
    }
}

fn find_missing(row: &Row) -> (out: Vec<String>)
    requires
        row.wf(),
    ensures
        text::texts(out@) == missing_columns(row@, price_columns()),
{
    let mut out: Vec<String> = Vec::new();
    assert(text::texts(out@) =~= Seq::<Seq<char>>::empty());
    note_missing(row, "open", &mut out);
    note_missing(row, "high", &mut out);
    note_missing(row, "low", &mut out);
    note_missing(row, "close", &mut out);
    proof {
        let all = price_columns();
        assert(all.drop_last() =~= seq!["open"@, "high"@, "low"@]);
        assert(all.drop_last().drop_last() =~= seq!["open"@, "high"@]);
        assert(all.drop_last().drop_last().drop_last() =~= seq!["open"@]);
        assert(all.drop_last().drop_last().drop_last().drop_last() =~= Seq::<Seq<char>>::empty());
        reveal_with_fuel(missing_columns, 5);
    }
    out
}

fn read_finite(at: &str, name: &str, cell: &Cell) -> (out: Result<Real, String>)
    ensures
        match (out, finite_number(at@, name@, cell@)) {
            (Ok(r), Ok(m)) => r == m,
            (Err(e), Err(m)) => e@ == m,
            _ => false,
        },
{
    let mut message: String = at.to_owned();
    message.append(": column `");
    message.append(name);
    message.append("` = ");
    message.append(&text::debug_quoted(&cell.text));
    let plain: bool = text::same(text::trim(&cell.text), &cell.text);
    match cell.number {
        Some(r) => {
            if plain {
                if r.is_finite() {
                    return Ok(r);
                }
                message.append(
                    " is not a finite number — a price has no \"absent\" value; omit the row instead",
                );
                return Err(message);
            }
        },
        None => {},
    }
    message.append(": ");
    if cell.text.as_str().is_empty() {
        message.append("cannot parse float from empty string");
    } else {
        message.append("invalid float literal");
    }
    Err(message)
}

fn read_price(at: &str, name: &str, row: &Row) -> (out: Result<Real, String>)
    requires
        row.wf(),
        row@.dom().contains(name@),
    ensures
        match (out, finite_number(at@, name@, row@[name@])) {
            (Ok(r), Ok(m)) => r == m,
            (Err(e), Err(m)) => e@ == m,
            _ => false,
        },
{
    match row.get(name) {
        Some(cell) => read_finite(at, name, cell),
        None => Err(String::new()),
    }
}

proof fn nothing_missing(row: RowModel)
    requires
        missing_columns(row, price_columns()).len() == 0,
    ensures
        filled(row, "open"@),
        filled(row, "high"@),
        filled(row, "low"@),
        filled(row, "close"@),
{
    let all = price_columns();
    assert(all.drop_last() =~= seq!["open"@, "high"@, "low"@]);
    assert(all.drop_last().drop_last() =~= seq!["open"@, "high"@]);
    assert(all.drop_last().drop_last().drop_last() =~= seq!["open"@]);
    reveal_with_fuel(missing_columns, 5);
}

/// The bar of a row: none where it fills no price column.
pub fn row_to_candle(symbol: &str, time: &str, row: &Row) -> (out: Result<Option<Candle>, String>)
    requires
        row.wf(),
    ensures
        match (out, candle_of(symbol@, time@, row@)) {
            (Ok(c), Ok(m)) => c == m,
            (Err(e), Err(m)) => e@ == m,
            _ => false,
        },
{
    let mut at: String = symbol.to_owned();
    at.append(" @ ");
    at.append(time);
    let missing: Vec<String> = find_missing(row);
    assert(text::texts(missing@).len() == missing@.len());
    if missing.len() == 4 {
        return Ok(None);
    }
    if missing.len() > 0 {
        at.append(": price bar is missing `");
        at.append(&text::join(&missing, "`, `"));
        at.append(
            "` — a row with some OHLC columns but not all is a malformed candle, not an overlay-only series",
        );
        return Err(at);
    }
    proof {
        nothing_missing(row@);
    }
    let volume: Real = match row.get("volume") {
        Some(cell) => {
            if cell.text.as_str().is_empty() {
                Real::zero()
            } else {
                match read_finite(&at, "volume", cell) {
                    Ok(r) => r,
                    Err(e) => return Err(e),
                }
            }
        },
        None => Real::zero(),
    };
    let open: Real = match read_price(&at, "open", row) {
        Ok(r) => r,
        Err(e) => return Err(e),
    };
    let high: Real = match read_price(&at, "high", row) {
        Ok(r) => r,
        Err(e) => return Err(e),
    };
    let low: Real = match read_price(&at, "low", row) {
        Ok(r) => r,
        Err(e) => return Err(e),
    };
    let close: Real = match read_price(&at, "close", row) {
        Ok(r) => r,
        Err(e) => return Err(e),
    };
    Ok(Some(Candle::new(open, high, low, close, volume)))
}

/// The bars of one symbol.
#[derive(Debug)]
pub struct AtomSeries {
    /// Each bar with its time as written, in the order of the frame.
    pub atoms: Vec<(String, Atom)>,
    /// Columns that were left out: none.
    pub skipped_columns: Vec<String>,
}

/// Bars as values.
pub open spec fn atom_models(v: Seq<(String, Atom)>) -> Seq<(Seq<char>, AtomModel)> {
    Seq::new(v.len(), |i: int| (v[i].0@, v[i].1@))
}

/// The overlay values of a row under a schema.
pub open spec fn overlays_of(columns: Seq<(Seq<char>, OverlayType)>, row: RowModel) -> Seq<
    OverlayModel,
> {
    Seq::new(
        columns.len(),
        |i: int|
            table::overlay_of(
                if row.dom().contains(columns[i].0) {
                    Some(row[columns[i].0])
                } else {
                    None
                },
                columns[i].1,
            ),
    )
}

/// A schema as values, where there is one.
pub open spec fn schema_model(schema: Option<Arc<Schema>>) -> Option<
    Seq<(Seq<char>, OverlayType)>,
> {
    match schema {
        Some(s) => Some(s@),
        None => None,
    }
}

/// The bars that a symbol has among the first `n` rows, or what is said of the
/// first row whose bar is wrong.
pub open spec fn bars_upto(
    entries: Seq<(KeyModel, RowModel)>,
    symbol: Seq<char>,
    columns: Option<Seq<(Seq<char>, OverlayType)>>,
    n: int,
) -> Result<Seq<(Seq<char>, AtomModel)>, Seq<char>>
    decreases n,
{
    if n <= 0 {
        Ok(seq![])
    } else {
        match bars_upto(entries, symbol, columns, n - 1) {
            Err(m) => Err(m),
            Ok(bars) => {
                let (key, row) = entries[n - 1];
                if key.0 != symbol {
                    Ok(bars)
                } else {
                    match candle_of(symbol, key.2, row) {
                        Err(m) => Err(m),
                        Ok(candle) => Ok(
                            bars.push(
                                (
                                    key.2,
                                    AtomModel {
                                        candle,
                                        time: match calendar::parsed_millis(key.2) {
                                            Some(ms) => Some(Timestamp(ms as i64)),
                                            None => None,
                                        },
                                        overlays: match columns {
                                            Some(c) => Some((c, overlays_of(c, row))),
                                            None => None,
                                        },
                                    },
                                ),
                            ),
                        ),
                    }
                }
            },
        }
    }
}

proof fn bars_stay_wrong(
    entries: Seq<(KeyModel, RowModel)>,
    symbol: Seq<char>,
    columns: Option<Seq<(Seq<char>, OverlayType)>>,
    k: int,
    n: int,
)
    requires
        0 <= k <= n,
    ensures
        bars_upto(entries, symbol, columns, k) is Err ==> bars_upto(entries, symbol, columns, n)
            == bars_upto(entries, symbol, columns, k),
    decreases n - k,
{
    if k < n {
        bars_stay_wrong(entries, symbol, columns, k, n - 1);
    }
}

/// A label as it is named to the user.
pub open spec fn label_name(label: Seq<char>) -> Seq<char> {
    if label.len() == 0 {
        "<untagged>"@
    } else {
        label
    }
}

/// The bars of a symbol, or what is said where it has no rows, rows under
/// several labels, or a row whose bar is wrong.
pub open spec fn bars_of(
    entries: Seq<(KeyModel, RowModel)>,
    symbol: Seq<char>,
    columns: Option<Seq<(Seq<char>, OverlayType)>>,
) -> Result<Seq<(Seq<char>, AtomModel)>, Seq<char>> {
    let labels = labels_in(entries, symbol);
    if labels.len() == 0 {
        Err("no rows found for symbol `"@ + symbol + "` across the given --series"@)
    } else if labels.len() > 1 {
        Err(
            "symbol `"@ + symbol + "` carries "@ + text::decimal(labels.len())
                + " cadences in the input series ("@ + text::joined(
                Seq::new(labels.len(), |i: int| label_name(labels[i])),
                ", "@,
            ) + ") — pass `-f/--frequency "@ + symbol + ":<CODE>` to say which one to trade"@,
        )
    } else {
        bars_upto(entries, symbol, columns, entries.len() as int)
    }
}

fn read_overlays(row: &Row, schema: &Schema) -> (out: Vec<OverlayValue>)
    requires
        row.wf(),
    ensures
        market::overlay_values(out@) == overlays_of(schema@, row@),
{
    let mut out: Vec<OverlayValue> = Vec::new();
    let n: usize = schema.columns.len();
    for i in 0..n
        invariant
            n == schema.columns@.len(),
            row.wf(),
            out@.len() == i,
            forall|k: int| 0 <= k < i ==> (#[trigger] out@[k])@ == overlays_of(schema@, row@)[k],
    {
        let cell: Option<&Cell> = row.get(&schema.columns[i].0);
        out.push(cell_to_overlay(cell, schema.columns[i].1));
    }
    assert(market::overlay_values(out@) =~= overlays_of(schema@, row@));
    out
}

/// The rows of a frame that are kept when only the label `freq` of `symbol` is.
pub open spec fn retained(
    frame: Map<KeyModel, RowModel>,
    symbol: Seq<char>,
    freq: Seq<char>,
) -> Map<KeyModel, RowModel> {
    Map::new(
        |k: KeyModel| frame.dom().contains(k) && (k.0 != symbol || k.1 == freq),
        |k: KeyModel| frame[k],
    )
}

impl DataFrame {
    /// The frame of these arguments and what each of them loads.
    pub fn from_series(specs: &[SeriesSpec], data: &[SeriesData]) -> (out: Result<
        DataFrame,
        String,
    >)
        requires
            specs@.len() == data@.len(),
            forall|i: int|
                0 <= i < specs@.len() ==> (#[trigger] data@[i]).tables@.len()
                    == specs@[i].files@.len(),
        ensures
            match loaded(specs@, data@, specs@.len() as int) {
                Err(m) => out matches Err(e) && e@ == m,
                Ok(load) => match joined(load, load.rows.len() as int) {
                    Err(m) => out matches Err(e) && e@ == m,
                    Ok(frame) => out matches Ok(f) && f.wf() && f@ == frame,
                },
            },
    {
        let mut names: Vec<String> = Vec::new();
        let mut rows: Vec<Row> = Vec::new();
        let n: usize = specs.len();
        assert(text::texts(names@) =~= Seq::<Seq<char>>::empty());
        assert(series::row_models(rows@) =~= Seq::<RowModel>::empty());
        for i in 0..n
            invariant
                n == specs@.len(),
                n == data@.len(),
                forall|k: int|
                    0 <= k < n ==> (#[trigger] data@[k]).tables@.len() == specs@[k].files@.len(),
                series::all_wf(rows@),
                names@.len() == rows@.len(),
                loaded(specs@, data@, i as int) == Ok::<Load, Seq<char>>(
                    Load { specs: text::texts(names@), rows: series::row_models(rows@) },
                ),
        {
            proof {
                loaded_stays_wrong(specs@, data@, i + 1, n as int);
            }
            match specs[i].rows(&data[i]) {
                Err(e) => {
                    return Err(e);
                },
                Ok(more) => {
                    let ghost old_rows = rows@;
                    let ghost old_names = names@;
                    let ghost added = more@;
                    let m: usize = more.len();
                    for j in 0..m
                        invariant
                            names@.len() == old_names.len() + j,
                            text::texts(names@) == text::texts(old_names) + Seq::new(
                                j as nat,
                                |k: int| specs@[i as int].raw@,
                            ),
                            i < specs@.len(),
                    {
                        let ghost before = names@;
                        names.push(specs[i].raw.clone());
                        assert(text::texts(names@) =~= text::texts(old_names) + Seq::new(
                            (j + 1) as nat,
                            |k: int| specs@[i as int].raw@,
                        )) by {
                            assert(text::texts(names@) =~= text::texts(before).push(
                                specs@[i as int].raw@,
                            ));
                        }
                    }
                    let mut more = more;
                    rows.append(&mut more);
                    assert(series::row_models(rows@) =~= series::row_models(old_rows)
                        + series::row_models(added));
                },
            }
        }
        let ghost load = Load { specs: text::texts(names@), rows: series::row_models(rows@) };
        let labels: Labels = sole_declared_cadences(&rows);
        let mut frame: OrdMap<RowKey, Row> = OrdMap::new();
        let total: usize = rows.len();
        // The rows, last first, so that each can be moved out of the end.
        let mut rest: Vec<Row> = Vec::new();
        while rows.len() > 0
            invariant
                rows@.len() + rest@.len() == total,
                load.rows.len() == total,
                series::all_wf(rows@),
                series::all_wf(rest@),
                series::row_models(rows@) == load.rows.take(rows@.len() as int),
                forall|i: int|
                    0 <= i < rest@.len() ==> (#[trigger] rest@[i])@ == load.rows[total - 1 - i],
            decreases rows@.len(),
        {
            let ghost before = rows@;
            let ghost done = rest@;
            if let Some(row) = rows.pop() {
                assert(before[before.len() - 1].wf());
                assert(row@ == series::row_models(before).last());
                rest.push(row);
                assert(series::row_models(rows@) =~= load.rows.take(rows@.len() as int));
                assert forall|i: int| 0 <= i < rest@.len() implies (#[trigger] rest@[i])@
                    == load.rows[total - 1 - i] && rest@[i].wf() by {
                    if i < done.len() {
                        assert(rest@[i] == done[i]);
                    }
                }
            }
        }
        let mut i: usize = 0;
        assert(frame_map(frame@) =~= Map::<KeyModel, RowModel>::empty());
        while rest.len() > 0
            invariant
                i + rest@.len() == total,
                load.rows.len() == total,
                load.specs.len() == total,
                load.specs == text::texts(names@),
                names@.len() == total,
                n == specs@.len(),
                loaded(specs@, data@, n as int) == Ok::<Load, Seq<char>>(load),
                labels.of(load.rows),
                series::all_wf(rest@),
                forall|k: int|
                    0 <= k < rest@.len() ==> (#[trigger] rest@[k])@ == load.rows[total - 1 - k],
                frame.wf(),
                rows_wf(frame@),
                joined(load, i as int) == Ok::<Map<KeyModel, RowModel>, Seq<char>>(
                    frame_map(frame@),
                ),
            decreases rest@.len(),
        {
            proof {
                joined_stays_wrong(load, i + 1, total as int);
                assert(rest@[rest@.len() - 1].wf());
                assert(rest@[rest@.len() - 1]@ == load.rows[i as int]);
            }
            let ghost before = frame@;
            let ghost row_model = load.rows[i as int];
            let popped: Option<Row> = rest.pop();
            if let Some(row) = popped {
                assert(row@ == row_model);
                let mut message: String = "series `".to_owned();
                message.append(&names[i]);
                let symbol: String = match row.get("symbol") {
                    Some(cell) => cell.text.clone(),
                    None => {
                        message.append("`: a row is missing a `symbol` column");
                        return Err(message);
                    },
                };
                let time: String = match row.get("time") {
                    Some(cell) => cell.text.clone(),
                    None => {
                        message.append("`: a row is missing a `time` column");
                        return Err(message);
                    },
                };
                let freq: String = match declared_cadence(&row) {
                    Some(l) => l.to_owned(),
                    None => match labels.sole(&symbol, Ghost(load.rows)) {
                        Some(l) => l.clone(),
                        None => String::new(),
                    },
                };
                let key: RowKey = RowKey { symbol, freq, time };
                let ghost k = key.model();
                assert(key_of(load.specs[i as int], row_model, load.rows) == Ok::<
                    KeyModel,
                    Seq<char>,
                >(k));
                let mut held: Row = match frame.remove(&key) {
                    Some(r) => r,
                    None => Row::new(),
                };
                held.extend(row);
                frame.insert(key, held);
                proof {
                    assert(frame@ =~= before.remove(k).insert(k, held));
                    assert(frame_map(frame@) =~= merged(frame_map(before), k, row_model));
                    assert forall|x: KeyModel| #[trigger] frame@.dom().contains(x) implies frame@[x].wf() by {
                        if x != k {
                            assert(before.dom().contains(x));
                        }
                    }
                }
            }
            i = i + 1;
        }
        let schema: Option<Arc<Schema>> = build_schema(&frame);
        Ok(DataFrame { rows: frame, schema })
    }

    /// How many rows the frame holds.
    pub fn len(&self) -> (out: usize)
        ensures
            out == self.entries().len(),
    {
        self.rows.len()
    }

    /// The cell of a column in the row under a key.
    pub fn cell(&self, symbol: &str, freq: &str, time: &str, name: &str) -> (out: Option<&Cell>)
        requires
            self.wf(),
        ensures
            ({
                let k = (symbol@, freq@, time@);
                match out {
                    Some(c) => self@.dom().contains(k) && self@[k].dom().contains(name@) && c@
                        == self@[k][name@],
                    None => !self@.dom().contains(k) || !self@[k].dom().contains(name@),
                }
            }),
    {
        let key: RowKey = RowKey {
            symbol: symbol.to_owned(),
            freq: freq.to_owned(),
            time: time.to_owned(),
        };
        match self.rows.get(&key) {
            Some(row) => {
                assert(self.rows@.dom().contains(key.model()));
                row.get(name)
            },
            None => None,
        }
    }

    /// The symbols of the frame, ascending, each once.
    pub fn symbols(&self) -> (out: Vec<String>)
        requires
            self.wf(),
        ensures
            text::texts(out@) == symbols_in(self.entries()),
    {
        let mut out: Vec<String> = Vec::new();
        let n: usize = self.rows.entries.len();
        let ghost all = self.entries();
        assert(text::texts(out@) =~= Seq::<Seq<char>>::empty());
        for i in 0..n
            invariant
                n == self.rows.entries@.len(),
                all == self.entries(),
                text::texts(out@) == symbols_in(all.take(i as int)),
        {
            assert(all.take(i + 1).drop_last() =~= all.take(i as int));
            let symbol: &String = &self.rows.entries[i].0.symbol;
            let k: usize = out.len();
            let ghost before = out@;
            if k == 0 || !text::same(&out[k - 1], symbol) {
                out.push(symbol.clone());
                assert(text::texts(out@) =~= text::texts(before).push(symbol@));
            }
        }
        assert(all.take(n as int) =~= all);
        out
    }

    /// The labels that the rows of `symbol` carry, ascending, each once; the
    /// empty one stands for rows without a label.
    pub fn frequencies_of(&self, symbol: &str) -> (out: Vec<String>)
        requires
            self.wf(),
        ensures
            text::texts(out@) == labels_in(self.entries(), symbol@),
    {
        let mut out: Vec<String> = Vec::new();
        let n: usize = self.rows.entries.len();
        let ghost all = self.entries();
        assert(text::texts(out@) =~= Seq::<Seq<char>>::empty());
        for i in 0..n
            invariant
                n == self.rows.entries@.len(),
                all == self.entries(),
                text::texts(out@) == labels_in(all.take(i as int), symbol@),
        {
            assert(all.take(i + 1).drop_last() =~= all.take(i as int));
            let key: &RowKey = &self.rows.entries[i].0;
            let k: usize = out.len();
            let ghost before = out@;
            if text::same(&key.symbol, symbol) && (k == 0 || !text::same(&out[k - 1], &key.freq)) {
                out.push(key.freq.clone());
                assert(text::texts(out@) =~= text::texts(before).push(key.freq@));
            }
        }
        assert(all.take(n as int) =~= all);
        out
    }

    /// The cadence that the rows of `symbol` declare: that of their one label,
    /// where they have just one and it spells a cadence.
    pub fn declared_frequency(&self, symbol: &str) -> (out: Option<Frequency>)
        requires
            self.wf(),
        ensures
            ({
                let labels = labels_in(self.entries(), symbol@);
                out == (if labels.len() == 1 && labels[0].len() > 0 {
                    frequency::parsed_frequency(labels[0])
                } else {
                    None
                })
            }),
    {
        let labels: Vec<String> = self.frequencies_of(symbol);
        assert(text::texts(labels@).len() == labels@.len());
        if labels.len() == 1 && !labels[0].as_str().is_empty() {
            assert(text::texts(labels@)[0] == labels@[0]@);
            match Frequency::parse(&labels[0]) {
                Ok(f) => Some(f),
                Err(_) => None,
            }
        } else {
            None
        }
    }

    /// The groups of the frame: each symbol and label, with the times of its
    /// rows in ascending order.
    pub fn cadence_groups(&self) -> (out: Vec<CadenceGroup>)
        requires
            self.wf(),
        ensures
            group_models(out@) == groups_in(self.entries()),
    {
        let mut out: Vec<CadenceGroup> = Vec::new();
        let n: usize = self.rows.entries.len();
        let ghost all = self.entries();
        assert(group_models(out@) =~= Seq::<GroupModel>::empty());
        for i in 0..n
            invariant
                n == self.rows.entries@.len(),
                all == self.entries(),
                group_models(out@) == groups_in(all.take(i as int)),
        {
            assert(all.take(i + 1).drop_last() =~= all.take(i as int));
            let key: &RowKey = &self.rows.entries[i].0;
            let k: usize = out.len();
            let ghost start = group_models(out@);
            let same_group: bool = k > 0 && text::same(&out[k - 1].symbol, &key.symbol)
                && text::same(&out[k - 1].freq, &key.freq);
            if !same_group {
                let ghost before = out@;
                let group: CadenceGroup = CadenceGroup {
                    symbol: key.symbol.clone(),
                    freq: key.freq.clone(),
                    stamps: Vec::new(),
                };
                out.push(group);
                assert(group_models(out@) =~= start.push(group@));
            }
            let ghost opened = group_models(out@);
            if let Some(ms) = parse_time_to_millis(&key.time) {
                let ghost before = out@;
                if let Some(group) = out.pop() {
                    let mut group: CadenceGroup = group;
                    insert_stamp(&mut group.stamps, ms);
                    out.push(group);
                    assert(group_models(out@) =~= opened.drop_last().push(group@));
                }
            }
        }
        assert(all.take(n as int) =~= all);
        out
    }

    /// What the groups of the frame have in their `time` cells.
    pub fn time_census(&self) -> (out: Vec<TimeGroup>)
        requires
            self.wf(),
        ensures
            time_models(out@) == times_in(self.entries()),
    {
        let mut out: Vec<TimeGroup> = Vec::new();
        let n: usize = self.rows.entries.len();
        let ghost all = self.entries();
        assert(time_models(out@) =~= Seq::<TimeGroupModel>::empty());
        for i in 0..n
            invariant
                n == self.rows.entries@.len(),
                all == self.entries(),
                time_models(out@) == times_in(all.take(i as int)),
        {
            assert(all.take(i + 1).drop_last() =~= all.take(i as int));
            let key: &RowKey = &self.rows.entries[i].0;
            let k: usize = out.len();
            let ghost start = time_models(out@);
            proof {
                time_groups_fit(all.take(i as int));
            }
            let same_group: bool = k > 0 && text::same(&out[k - 1].symbol, &key.symbol)
                && text::same(&out[k - 1].freq, &key.freq);
            let fresh: TimeGroup = TimeGroup {
                symbol: key.symbol.clone(),
                freq: key.freq.clone(),
                with_cell: 0,
                parsed: 0,
                example: None,
            };
            let mut group: TimeGroup = if same_group {
                assert(start.last() == out@.last()@);
                match out.pop() {
                    Some(g) => g,
                    None => fresh,
                }
            } else {
                fresh
            };
            let ghost kept = time_models(out@);
            let ghost g = group@;
            proof {
                if same_group {
                    assert(g == start[k - 1]);
                    assert(kept =~= start.drop_last());
                }
            }
            if !text::trim(&key.time).is_empty() {
                group.with_cell = group.with_cell + 1;
                if parse_time_to_millis(&key.time).is_some() {
                    group.parsed = group.parsed + 1;
                } else if group.example.is_none() {
                    group.example = Some(key.time.clone());
                }
            }
            assert(group@ == with_time(g, key.time@));
            out.push(group);
            assert(time_models(out@) =~= kept.push(group@));
        }
        assert(all.take(n as int) =~= all);
        out
    }

    /// Whether some row's time spells one.
    pub fn has_parseable_times(&self) -> (out: bool)
        requires
            self.wf(),
        ensures
            out == exists|i: int|
                0 <= i < self.entries().len() && calendar::parsed_millis(
                    (#[trigger] self.entries()[i]).0.2,
                ) is Some,
    {
        let n: usize = self.rows.entries.len();
        for i in 0..n
            invariant
                n == self.rows.entries@.len(),
                forall|k: int|
                    0 <= k < i ==> calendar::parsed_millis(
                        (#[trigger] self.entries()[k]).0.2,
                    ) is None,
        {
            if parse_time_to_millis(&self.rows.entries[i].0.time).is_some() {
                assert(self.entries()[i as int].0.2 == self.rows.entries@[i as int].0.time@);
                return true;
            }
        }
        false
    }

    /// Drop the rows of `symbol` that carry another label than `freq`.
    pub fn retain_cadence(&mut self, symbol: &str, freq: &str)
        requires
            old(self).wf(),
        ensures
            final(self).wf(),
            final(self)@ == retained(old(self)@, symbol@, freq@),
    {
        let ghost start = self@;
        let ghost held = self.rows@;
        let ghost e = self.rows.entries@;
        let mut rest: OrdMap<RowKey, Row> = OrdMap::new();
        std::mem::swap(&mut rest.entries, &mut self.rows.entries);
        let mut kept: OrdMap<RowKey, Row> = OrdMap::new();
        assert(rest.entries@ =~= e.take(e.len() as int));
        while rest.entries.len() > 0
            invariant
                ordmap::ascending(e),
                held == ordmap::map_of(e),
                rows_wf(held),
                rest.entries@.len() <= e.len(),
                rest.entries@ == e.take(rest.entries@.len() as int),
                kept.wf(),
                forall|k: KeyModel| #[trigger]
                    kept@.dom().contains(k) <==> (k.0 != symbol@ || k.1 == freq@) && exists|i: int|
                        rest.entries@.len() <= i < e.len() && (#[trigger] e[i]).0.model() == k,
                forall|k: KeyModel| #[trigger]
                    kept@.dom().contains(k) ==> kept@[k] == held[k] && held.dom().contains(k),
            decreases rest.entries@.len(),
        {
            let ghost n = rest.entries@.len() as int;
            let ghost before = kept@;
            if let Some((key, row)) = rest.entries.pop() {
                assert((key, row) == e[n - 1]);
                assert(rest.entries@ =~= e.take(n - 1));
                let ghost m = key.model();
                proof {
                    ordmap::place_is_unique(e, n - 1);
                }
                let keep: bool = !text::same(&key.symbol, symbol) || text::same(&key.freq, freq);
                if keep {
                    kept.insert(key, row);
                }
                proof {
                    assert forall|k: KeyModel| #[trigger]
                        kept@.dom().contains(k) <==> (k.0 != symbol@ || k.1 == freq@) && exists|i: int|
                            n - 1 <= i < e.len() && (#[trigger] e[i]).0.model() == k by {
                        if k == m {
                            assert(e[n - 1].0.model() == k);
                            if !keep {
                                assert(!kept@.dom().contains(k));
                            }
                        } else {
                            assert(kept@.dom().contains(k) == before.dom().contains(k));
                            if exists|i: int| n - 1 <= i < e.len() && (#[trigger] e[i]).0.model() == k {
                                let i = choose|i: int|
                                    n - 1 <= i < e.len() && (#[trigger] e[i]).0.model() == k;
                                assert(i >= n);
                                assert(e[i].0.model() == k);
                            }
                        }
                    }
                    assert forall|k: KeyModel| #[trigger] kept@.dom().contains(k) implies kept@[k]
                        == held[k] && held.dom().contains(k) by {
                        if k != m {
                            assert(before.dom().contains(k));
                        }
                    }
                }
            }
        }
        proof {
            assert forall|k: KeyModel| #[trigger] frame_map(kept@).dom().contains(k) <==> retained(
                start,
                symbol@,
                freq@,
            ).dom().contains(k) by {
                if kept@.dom().contains(k) {
                    assert(held.dom().contains(k));
                }
                if held.dom().contains(k) {
                    let i = choose|i: int| ordmap::holds(e, k, i);
                    assert(ordmap::holds(e, k, i));
                    assert(e[i].0.model() == k);
                }
            }
            assert forall|k: KeyModel| #[trigger] kept@.dom().contains(k) implies kept@[k].wf() by {
                assert(held.dom().contains(k));
            }
            assert(frame_map(kept@) =~= retained(start, symbol@, freq@));
        }
        self.schema = build_schema(&kept);
        self.rows = kept;
    }

    /// The one schema that all bars of the frame share; none where no row has an
    /// overlay column.
    pub fn shared_schema(&self) -> (out: Option<&Arc<Schema>>)
        requires
            self.wf(),
        ensures
            match out {
                Some(s) => self.schema == Some(*s) && s@.len() > 0 && are_overlay_columns(
                    s@,
                    self.entries(),
                ),
                None => are_overlay_columns(seq![], self.entries()),
            },
    {
        self.schema.as_ref()
    }

    /// The bars of `symbol`, ascending by time, with the overlay values of the
    /// frame's schema.
    pub fn atoms(&self, symbol: &str) -> (out: Result<AtomSeries, String>)
        requires
            self.wf(),
        ensures
            match (out, bars_of(self.entries(), symbol@, schema_model(self.schema))) {
                (Ok(s), Ok(m)) => atom_models(s.atoms@) == m && s.skipped_columns@.len() == 0,
                (Err(e), Err(m)) => e@ == m,
                _ => false,
            },
    {
        let labels: Vec<String> = self.frequencies_of(symbol);
        assert(text::texts(labels@).len() == labels@.len());
        if labels.len() == 0 {
            let mut message: String = "no rows found for symbol `".to_owned();
            message.append(symbol);
            message.append("` across the given --series");
            return Err(message);
        }
        if labels.len() > 1 {
            let mut named: Vec<String> = Vec::new();
            let m: usize = labels.len();
            for i in 0..m
                invariant
                    m == labels@.len(),
                    named@.len() == i,
                    forall|k: int| 0 <= k < i ==> (#[trigger] named@[k])@ == label_name(labels@[k]@),
            {
                if labels[i].as_str().is_empty() {
                    named.push("<untagged>".to_owned());
                } else {
                    named.push(labels[i].clone());
                }
            }
            let ghost all_labels = text::texts(labels@);
            assert(text::texts(named@) =~= Seq::new(
                all_labels.len(),
                |i: int| label_name(all_labels[i]),
            ));
            let mut message: String = "symbol `".to_owned();
            message.append(symbol);
            message.append("` carries ");
            message.append(&text::decimal_string(labels.len() as u64));
            message.append(" cadences in the input series (");
            message.append(&text::join(&named, ", "));
            message.append(") — pass `-f/--frequency ");
            message.append(symbol);
            message.append(":<CODE>` to say which one to trade");
            return Err(message);
        }
        let ghost all = self.entries();
        let ghost columns = schema_model(self.schema);
        let mut atoms: Vec<(String, Atom)> = Vec::new();
        let n: usize = self.rows.entries.len();
        assert(atom_models(atoms@) =~= Seq::<(Seq<char>, AtomModel)>::empty());
        for i in 0..n
            invariant
                n == self.rows.entries@.len(),
                self.wf(),
                all == self.entries(),
                columns == schema_model(self.schema),
                labels_in(all, symbol@).len() == 1,
                bars_upto(all, symbol@, columns, i as int) == Ok::<
                    Seq<(Seq<char>, AtomModel)>,
                    Seq<char>,
                >(atom_models(atoms@)),
        {
            proof {
                bars_stay_wrong(all, symbol@, columns, i + 1, n as int);
                ordmap::place_is_unique(self.rows.entries@, i as int);
            }
            let key: &RowKey = &self.rows.entries[i].0;
            let row: &Row = &self.rows.entries[i].1;
            assert(all[i as int] == (key.model(), row@));
            if text::same(&key.symbol, symbol) {
                let candle: Option<Candle> = match row_to_candle(symbol, &key.time, row) {
                    Ok(c) => c,
                    Err(e) => {
                        return Err(e);
                    },
                };
                let time: Option<Timestamp> = match parse_time_to_millis(&key.time) {
                    Some(ms) => Some(Timestamp(ms)),
                    None => None,
                };
                let overlays: Option<OverlayInfo> = match &self.schema {
                    Some(schema) => {
                        let values: Vec<OverlayValue> = read_overlays(row, schema);
                        Some(OverlayInfo { schema: share(schema), values })
                    },
                    None => None,
                };
                let ghost before = atoms@;
                let atom: Atom = Atom { candle, time, overlays };
                let label: String = key.time.clone();
                atoms.push((label, atom));
                assert(atom_models(atoms@) =~= atom_models(before).push((label@, atom@)));
            }
        }
        Ok(AtomSeries { atoms, skipped_columns: Vec::new() })
    }
}

impl Default for DataFrame {
    fn default() -> (out: DataFrame)
        ensures
            out.wf(),
            out@ == Map::<KeyModel, RowModel>::empty(),
    {
        let out: DataFrame = DataFrame { rows: OrdMap::new(), schema: None };
        assert(out@ =~= Map::<KeyModel, RowModel>::empty());
        out
    }
}


// ---------------------------------------------------------------------------
// Laws
// ---------------------------------------------------------------------------

/// The labels of a symbol's rows are among those that are listed for it.
pub proof fn labels_are_listed(entries: Seq<(KeyModel, RowModel)>, i: int)
    requires
        0 <= i < entries.len(),
    ensures
        labels_in(entries, entries[i].0.0).contains(entries[i].0.1),
    decreases entries.len(),
{
    let symbol = entries[i].0.0;
    let rest = labels_in(entries.drop_last(), symbol);
    let all = labels_in(entries, symbol);
    if i < entries.len() - 1 {
        labels_are_listed(entries.drop_last(), i);
        let k = choose|k: int| 0 <= k < rest.len() && rest[k] == entries[i].0.1;
        assert(all[k] == entries[i].0.1);
    } else {
        assert(all[all.len() - 1] == entries[i].0.1);
    }
}

/// Every label that is listed for a symbol is carried by one of its rows.
pub proof fn listed_labels_are_carried(
    entries: Seq<(KeyModel, RowModel)>,
    symbol: Seq<char>,
    j: int,
)
    requires
        0 <= j < labels_in(entries, symbol).len(),
    ensures
        exists|i: int|
            0 <= i < entries.len() && (#[trigger] entries[i]).0.0 == symbol && entries[i].0.1
                == labels_in(entries, symbol)[j],
    decreases entries.len(),
{
    let rest = labels_in(entries.drop_last(), symbol);
    if j < rest.len() {
        listed_labels_are_carried(entries.drop_last(), symbol, j);
        let i = choose|i: int|
            0 <= i < entries.drop_last().len() && (#[trigger] entries.drop_last()[i]).0.0 == symbol
                && entries.drop_last()[i].0.1 == rest[j];
        assert(entries[i] == entries.drop_last()[i]);
    } else {
        assert(entries[entries.len() - 1].0.0 == symbol);
    }
}

/// Choosing a cadence of one symbol leaves the rows of every other symbol as
/// they were, and no row of that symbol under another label.
pub proof fn retaining_prunes_one_symbol(
    frame: Map<KeyModel, RowModel>,
    symbol: Seq<char>,
    freq: Seq<char>,
    k: KeyModel,
)
    ensures
        k.0 != symbol ==> (retained(frame, symbol, freq).dom().contains(k)
            <==> frame.dom().contains(k)) && (frame.dom().contains(k) ==> retained(
            frame,
            symbol,
            freq,
        )[k] == frame[k]),
        k.0 == symbol && k.1 != freq ==> !retained(frame, symbol, freq).dom().contains(k),
        retained(retained(frame, symbol, freq), symbol, freq) == retained(frame, symbol, freq),
{
    assert(retained(retained(frame, symbol, freq), symbol, freq) =~= retained(frame, symbol, freq));
}

/// Rows of one symbol and time under different labels do not meet.
pub proof fn cadences_do_not_collide(
    spec: Seq<char>,
    a: RowModel,
    b: RowModel,
    load: Seq<RowModel>,
)
    requires
        own_label(a) is Some,
        own_label(b) is Some,
        own_label(a) != own_label(b),
        key_of(spec, a, load) is Ok,
        key_of(spec, b, load) is Ok,
    ensures
        key_of(spec, a, load)->Ok_0 != key_of(spec, b, load)->Ok_0,
{
}

/// A row without a label joins the one label of its symbol; where the symbol
/// has several, it stays apart.
pub proof fn untagged_rows_join_the_sole_label(
    spec: Seq<char>,
    row: RowModel,
    load: Seq<RowModel>,
    label: Seq<char>,
)
    requires
        own_label(row) is None,
        key_of(spec, row, load) is Ok,
    ensures
        is_sole_label(load, row["symbol"@].text, label) ==> key_of(spec, row, load)->Ok_0.1
            == label,
        (forall|l: Seq<char>| !is_sole_label(load, row["symbol"@].text, l)) ==> key_of(
            spec,
            row,
            load,
        )->Ok_0.1 == Seq::<char>::empty(),
{
    let symbol = row["symbol"@].text;
    if is_sole_label(load, symbol, label) {
        let chosen = choose|l: Seq<char>| is_sole_label(load, symbol, l);
        assert(is_sole_label(load, symbol, chosen));
        let i = choose|i: int| 0 <= i < load.len() && declares(#[trigger] load[i], symbol, label);
        assert(declares(load[i], symbol, label));
    }
}

/// Of two rows merged under one key, the later one wins a column that both
/// have, and the earlier one keeps the others.
pub proof fn later_rows_win(
    frame: Map<KeyModel, RowModel>,
    key: KeyModel,
    a: RowModel,
    b: RowModel,
    name: Seq<char>,
)
    ensures
        ({
            let row = merged(merged(frame, key, a), key, b)[key];
            &&& b.dom().contains(name) ==> row.dom().contains(name) && row[name] == b[name]
            &&& !b.dom().contains(name) && a.dom().contains(name) ==> row.dom().contains(name)
                && row[name] == a[name]
        }),
{
}

/// The rows of a frame determine its overlay columns.
pub proof fn overlay_columns_are_determined(
    a: Seq<(Seq<char>, OverlayType)>,
    b: Seq<(Seq<char>, OverlayType)>,
    entries: Seq<(KeyModel, RowModel)>,
)
    requires
        are_overlay_columns(a, entries),
        are_overlay_columns(b, entries),
    ensures
        a == b,
{
    same_columns_upto(a, b, entries, a.len() as int);
    same_columns_upto(b, a, entries, b.len() as int);
    assert(a =~= b);
}

proof fn same_columns_upto(
    a: Seq<(Seq<char>, OverlayType)>,
    b: Seq<(Seq<char>, OverlayType)>,
    entries: Seq<(KeyModel, RowModel)>,
    n: int,
)
    requires
        are_overlay_columns(a, entries),
        are_overlay_columns(b, entries),
        0 <= n <= a.len(),
    ensures
        n <= b.len(),
        forall|i: int| 0 <= i < n ==> a[i] == b[i],
    decreases n,
{
    if n > 0 {
        same_columns_upto(a, b, entries, n - 1);
        let m = n - 1;
        assert(has_overlay(entries, a[m].0));
        let k = choose|k: int| 0 <= k < b.len() && (#[trigger] b[k]).0 == a[m].0;
        assert(b[k].0 == a[m].0);
        text::text_lt_irreflexive(a[m].0);
        if k < m {
            assert(a[k].0 == b[k].0);
            assert(text::text_lt(a[k].0, a[m].0));
        }
        if k > m {
            assert(text::text_lt(b[m].0, b[k].0));
            assert(has_overlay(entries, b[m].0));
            let j = choose|j: int| 0 <= j < a.len() && (#[trigger] a[j]).0 == b[m].0;
            assert(a[j].0 == b[m].0);
            text::text_lt_irreflexive(b[m].0);
            if j < m {
                assert(a[j] == b[j]);
                assert(text::text_lt(b[j].0, b[m].0));
            } else if j > m {
                assert(text::text_lt(a[m].0, a[j].0));
                text::text_lt_transitive(a[m].0, a[j].0, b[k].0);
            }
        }
        assert(k == m);
    }
}

/// The stamps of a group stay in ascending order.
pub proof fn with_stamp_ascends(stamps: Seq<i64>, x: i64)
    requires
        forall|i: int, j: int| 0 <= i <= j < stamps.len() ==> stamps[i] <= stamps[j],
    ensures
        ({
            let r = with_stamp(stamps, x);
            &&& r.len() == stamps.len() + 1
            &&& forall|i: int, j: int| 0 <= i <= j < r.len() ==> r[i] <= r[j]
            &&& forall|i: int| 0 <= i < r.len() ==> #[trigger] r[i] == x || stamps.contains(r[i])
        }),
    decreases stamps.len(),
{
    let r = with_stamp(stamps, x);
    if stamps.len() == 0 || stamps.last() <= x {
        assert forall|i: int| 0 <= i < r.len() implies #[trigger] r[i] == x || stamps.contains(
            r[i],
        ) by {
            if i < stamps.len() {
                assert(stamps[i] == r[i]);
            }
        }
    } else {
        let t = stamps.drop_last();
        with_stamp_ascends(t, x);
        let head = with_stamp(t, x);
        assert forall|i: int| 0 <= i < r.len() implies (#[trigger] r[i] == x || stamps.contains(
            r[i],
        )) && r[i] <= stamps.last() by {
            if i < head.len() {
                assert(r[i] == head[i]);
                if r[i] != x {
                    let k = choose|k: int| 0 <= k < t.len() && t[k] == r[i];
                    assert(stamps[k] == r[i]);
                }
            } else {
                assert(stamps[stamps.len() - 1] == r[i]);
            }
        }
    }
}

/// The stamps of every group ascend.
pub proof fn group_stamps_ascend(entries: Seq<(KeyModel, RowModel)>)
    ensures
        forall|g: int, i: int, j: int|
            0 <= g < groups_in(entries).len() && 0 <= i <= j < groups_in(entries)[g].stamps.len()
                ==> #[trigger] groups_in(entries)[g].stamps[i]
                <= #[trigger] groups_in(entries)[g].stamps[j],
    decreases entries.len(),
{
    if entries.len() > 0 {
        group_stamps_ascend(entries.drop_last());
        let rest = groups_in(entries.drop_last());
        let all = groups_in(entries);
        let (symbol, freq, time) = entries.last().0;
        let joins = rest.len() > 0 && rest.last().symbol == symbol && rest.last().freq == freq;
        let base = if joins {
            rest.last().stamps
        } else {
            Seq::<i64>::empty()
        };
        assert forall|i: int, j: int| 0 <= i <= j < base.len() implies base[i] <= base[j] by {
            assert(rest[rest.len() - 1].stamps[i] <= rest[rest.len() - 1].stamps[j]);
        }
        if let Some(ms) = calendar::parsed_millis(time) {
            with_stamp_ascends(base, ms as i64);
        }
        assert forall|g: int, i: int, j: int|
            0 <= g < all.len() && 0 <= i <= j < all[g].stamps.len() implies #[trigger] all[g].stamps[i]
            <= #[trigger] all[g].stamps[j] by {
            if g < all.len() - 1 {
                assert(all[g] == rest[g]);
                assert(rest[g].stamps[i] <= rest[g].stamps[j]);
            } else {
                match calendar::parsed_millis(time) {
                    Some(ms) => {
                        assert(all[g].stamps == with_stamp(base, ms as i64));
                    },
                    None => {
                        assert(all[g].stamps == base);
                    },
                }
            }
        }
    }
}

/// Whether a row has a cell under a name that is written as a finite number.
pub open spec fn spells(row: RowModel, name: Seq<char>, x: Real) -> bool {
    row.dom().contains(name) && row[name].number == Some(x) && x.finite() && text::trimmed(
        row[name].text,
    ) == row[name].text && row[name].text.len() > 0
}

/// A row whose four price cells spell numbers is the bar with these numbers, each
/// under its own name, and with the number of the volume cell, or zero where that
/// cell is missing or empty.
pub proof fn a_row_is_the_bar_it_spells(
    symbol: Seq<char>,
    time: Seq<char>,
    row: RowModel,
    bar: Candle,
)
    requires
        spells(row, "open"@, bar.open),
        spells(row, "high"@, bar.high),
        spells(row, "low"@, bar.low),
        spells(row, "close"@, bar.close),
        spells(row, "volume"@, bar.volume) || ((row.dom().contains("volume"@)
            ==> row["volume"@].text.len() == 0) && bar.volume == (Real { bits: 0 })),
    ensures
        candle_of(symbol, time, row) == Ok::<Option<Candle>, Seq<char>>(Some(bar)),
{
    missing_are_unfilled(row);
}

/// A bar that is read from a row has the numbers of the row's own cells.
pub proof fn a_bar_has_its_cells(symbol: Seq<char>, time: Seq<char>, row: RowModel, bar: Candle)
    requires
        candle_of(symbol, time, row) == Ok::<Option<Candle>, Seq<char>>(Some(bar)),
    ensures
        spells(row, "open"@, bar.open),
        spells(row, "high"@, bar.high),
        spells(row, "low"@, bar.low),
        spells(row, "close"@, bar.close),
        row.dom().contains("volume"@) && row["volume"@].text.len() > 0 ==> spells(
            row,
            "volume"@,
            bar.volume,
        ),
        !(row.dom().contains("volume"@) && row["volume"@].text.len() > 0) ==> bar.volume == (Real {
            bits: 0,
        }),
{
    missing_are_unfilled(row);
}

/// A row has no bar, and no fault, exactly where it fills none of the four price
/// columns.
pub proof fn rows_without_prices_have_no_bar(symbol: Seq<char>, time: Seq<char>, row: RowModel)
    ensures
        candle_of(symbol, time, row) == Ok::<Option<Candle>, Seq<char>>(None) <==> !filled(
            row,
            "open"@,
        ) && !filled(row, "high"@) && !filled(row, "low"@) && !filled(row, "close"@),
{
    missing_are_unfilled(row);
}

proof fn missing_are_unfilled(row: RowModel)
    ensures
        missing_columns(row, price_columns()).len() == (if filled(row, "open"@) {
            0int
        } else {
            1
        }) + (if filled(row, "high"@) {
            0int
        } else {
            1
        }) + (if filled(row, "low"@) {
            0int
        } else {
            1
        }) + (if filled(row, "close"@) {
            0int
        } else {
            1
        }),
{
    let names = seq!["open"@, "high"@, "low"@, "close"@];
    assert(names.drop_last() =~= seq!["open"@, "high"@, "low"@]);
    assert(seq!["open"@, "high"@, "low"@].drop_last() =~= seq!["open"@, "high"@]);
    assert(seq!["open"@, "high"@].drop_last() =~= seq!["open"@]);
    assert(seq!["open"@].drop_last() =~= Seq::<Seq<char>>::empty());
    assert(price_columns() =~= names);
    reveal_with_fuel(missing_columns, 6);
}

/// A row stands under its own symbol and time, and under its own label where it has
/// one.
pub proof fn a_key_is_its_cells(spec: Seq<char>, row: RowModel, load: Seq<RowModel>)
    ensures
        key_of(spec, row, load) is Ok <==> row.dom().contains("symbol"@) && row.dom().contains(
            "time"@,
        ),
        key_of(spec, row, load) matches Ok(key) ==> {
            &&& key.0 == row["symbol"@].text
            &&& key.2 == row["time"@].text
            &&& row.dom().contains("freq"@) && text::trimmed(row["freq"@].text).len() > 0 ==> key.1
                == text::trimmed(row["freq"@].text)
        },
{
}

/// Whether row `i` of a load is the last one under a key, among the first `n`, that
/// has a column.
pub open spec fn is_last_with(load: Load, n: int, key: KeyModel, name: Seq<char>, i: int) -> bool {
    &&& 0 <= i < n
    &&& key_of(load.specs[i], load.rows[i], load.rows) == Ok::<KeyModel, Seq<char>>(key)
    &&& load.rows[i].dom().contains(name)
    &&& forall|j: int|
        i < j < n && key_of(load.specs[j], #[trigger] load.rows[j], load.rows) == Ok::<
            KeyModel,
            Seq<char>,
        >(key) ==> !load.rows[j].dom().contains(name)
}

/// A frame has the cell of the last row that has one under the key and the column,
/// and no other cell.
pub proof fn the_last_row_wins_each_cell(load: Load, n: int, key: KeyModel, name: Seq<char>)
    requires
        0 <= n <= load.rows.len(),
        joined(load, n) is Ok,
    ensures
        ({
            let frame = joined(load, n)->Ok_0;
            &&& forall|i: int| #[trigger]
                is_last_with(load, n, key, name, i) ==> frame.dom().contains(key)
                    && frame[key].dom().contains(name) && frame[key][name] == load.rows[i][name]
            &&& frame.dom().contains(key) && frame[key].dom().contains(name) ==> exists|i: int|
                #[trigger] is_last_with(load, n, key, name, i)
        }),
    decreases n,
{
    if n > 0 {
        the_last_row_wins_each_cell(load, n - 1, key, name);
        let before = joined(load, n - 1)->Ok_0;
        let frame = joined(load, n)->Ok_0;
        let row = load.rows[n - 1];
        let own = key_of(load.specs[n - 1], row, load.rows)->Ok_0;
        assert(frame == merged(before, own, row));
        assert forall|i: int| #[trigger] is_last_with(load, n, key, name, i) implies
            frame.dom().contains(key) && frame[key].dom().contains(name) && frame[key][name]
            == load.rows[i][name] by {
            if i < n - 1 {
                assert(is_last_with(load, n - 1, key, name, i));
                assert(before[key][name] == load.rows[i][name]);
                if own == key {
                    assert(!load.rows[n - 1].dom().contains(name));
                    assert(frame[key] == before[key].union_prefer_right(row));
                }
            } else if before.dom().contains(key) {
                assert(frame[key] == before[key].union_prefer_right(row));
            } else {
                assert(frame[key] == Map::empty().union_prefer_right(row));
            }
        }
        if frame.dom().contains(key) && frame[key].dom().contains(name) {
            if own == key && row.dom().contains(name) {
                assert(is_last_with(load, n, key, name, n - 1));
            } else {
                assert(before.dom().contains(key) && before[key].dom().contains(name));
                let i = choose|i: int| #[trigger] is_last_with(load, n - 1, key, name, i);
                assert(is_last_with(load, n, key, name, i));
            }
        }
    }
}

/// A symbol's bars are those of its own rows, in their order: each has its row's time,
/// the bar that its cells spell, the instant that the time names, and the value of its
/// cell for each column.
pub proof fn bars_are_those_of_the_rows(
    entries: Seq<(KeyModel, RowModel)>,
    symbol: Seq<char>,
    columns: Option<Seq<(Seq<char>, OverlayType)>>,
    n: int,
)
    requires
        0 <= n <= entries.len(),
        bars_upto(entries, symbol, columns, n) is Ok,
    ensures
        ({
            let bars = bars_upto(entries, symbol, columns, n)->Ok_0;
            let own = entries.take(n).filter(|e: (KeyModel, RowModel)| e.0.0 == symbol);
            &&& bars.len() == own.len()
            &&& forall|j: int|
                0 <= j < own.len() ==> {
                    let bar = #[trigger] bars[j];
                    let (key, row) = own[j];
                    &&& bar.0 == key.2
                    &&& candle_of(symbol, key.2, row) == Ok::<Option<Candle>, Seq<char>>(
                        bar.1.candle,
                    )
                    &&& calendar::parsed_millis(key.2) is Some <==> bar.1.time is Some
                    &&& calendar::parsed_millis(key.2) matches Some(ms) ==> bar.1.time == Some(
                        Timestamp(ms as i64),
                    )
                    &&& columns is Some <==> bar.1.overlays is Some
                    &&& columns matches Some(c) ==> (bar.1.overlays->0).0 == c
                        && (bar.1.overlays->0).1.len() == c.len() && forall|k: int|
                        0 <= k < c.len() ==> #[trigger] (bar.1.overlays->0).1[k]
                            == table::overlay_of(
                            if row.dom().contains(c[k].0) {
                                Some(row[c[k].0])
                            } else {
                                None
                            },
                            c[k].1,
                        )
                }
        }),
    decreases n,
{
    reveal(Seq::filter);
    let keep = |e: (KeyModel, RowModel)| e.0.0 == symbol;
    if n > 0 {
        bars_are_those_of_the_rows(entries, symbol, columns, n - 1);
        let less = entries.take(n - 1);
        let more = entries.take(n);
        assert(more.drop_last() =~= less);
        assert(more.last() == entries[n - 1]);
        let bars = bars_upto(entries, symbol, columns, n)->Ok_0;
        let before = bars_upto(entries, symbol, columns, n - 1)->Ok_0;
        let own = more.filter(keep);
        let held = less.filter(keep);
        assert forall|j: int| 0 <= j < held.len() implies own[j] == held[j] && #[trigger] bars[j]
            == before[j] by {}
    } else {
        assert(entries.take(0) =~= Seq::<(KeyModel, RowModel)>::empty());
    }
}

/// The symbols that are listed are those of the rows; where the rows stand in order,
/// each is listed once, in ascending order.
pub proof fn symbols_are_those_of_the_rows(entries: Seq<(KeyModel, RowModel)>)
    requires
        forall|i: int, j: int|
            0 <= i <= j < entries.len() ==> text::text_le(
                (#[trigger] entries[i]).0.0,
                (#[trigger] entries[j]).0.0,
            ),
    ensures
        forall|i: int| 0 <= i < entries.len() ==> symbols_in(entries).contains(
            (#[trigger] entries[i]).0.0,
        ),
        forall|k: int|
            0 <= k < symbols_in(entries).len() ==> exists|i: int|
                0 <= i < entries.len() && (#[trigger] entries[i]).0.0
                    == #[trigger] symbols_in(entries)[k],
        forall|k: int, l: int|
            0 <= k < l < symbols_in(entries).len() ==> text::text_lt(
                #[trigger] symbols_in(entries)[k],
                #[trigger] symbols_in(entries)[l],
            ),
        entries.len() > 0 ==> symbols_in(entries).len() > 0 && symbols_in(entries).last()
            == entries.last().0.0,
    decreases entries.len(),
{
    if entries.len() > 0 {
        let less = entries.drop_last();
        symbols_are_those_of_the_rows(less);
        let rest = symbols_in(less);
        let all = symbols_in(entries);
        let last = entries.last().0.0;
        assert forall|i: int| 0 <= i < entries.len() implies all.contains(
            (#[trigger] entries[i]).0.0,
        ) by {
            if i < less.len() {
                assert(less[i] == entries[i]);
                let k = choose|k: int| 0 <= k < rest.len() && rest[k] == entries[i].0.0;
                assert(all[k] == rest[k]);
            } else {
                assert(all[all.len() - 1] == last);
            }
        }
        assert forall|k: int| 0 <= k < all.len() implies exists|i: int|
            0 <= i < entries.len() && (#[trigger] entries[i]).0.0 == #[trigger] all[k] by {
            if k < rest.len() {
                assert(all[k] == rest[k]);
                let i = choose|i: int|
                    0 <= i < less.len() && (#[trigger] less[i]).0.0 == rest[k];
                assert(entries[i] == less[i]);
            } else {
                assert(entries[entries.len() - 1].0.0 == all[k]);
            }
        }
        assert forall|k: int, l: int| 0 <= k < l < all.len() implies text::text_lt(
            #[trigger] all[k],
            #[trigger] all[l],
        ) by {
            if l < rest.len() {
                assert(all[k] == rest[k] && all[l] == rest[l]);
            } else {
                assert(all[k] == rest[k] && all[l] == last);
                let i = choose|i: int|
                    0 <= i < less.len() && (#[trigger] less[i]).0.0 == rest[k];
                assert(entries[i] == less[i]);
                assert(text::text_le(entries[i].0.0, entries[entries.len() - 1].0.0));
                let m = less.len() - 1;
                assert(less[m] == entries[m]);
                assert(rest.last() == less.last().0.0);
                if rest[k] == last {
                    // Then the last symbol before it is the same, and nothing is added.
                    if k < rest.len() - 1 {
                        assert(text::text_lt(rest[k], rest[rest.len() - 1]));
                        assert(text::text_le(entries[m].0.0, entries[entries.len() - 1].0.0));
                        text::text_lt_irreflexive(last);
                        if rest.last() != last {
                            text::text_lt_transitive(last, rest.last(), last);
                        }
                    }
                }
            }
        }
    }
}

} // verus!
