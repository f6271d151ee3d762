//! Bars from a delimited table with the columns `symbol`, `freq`, `time`, `open`,
//! `high`, `low`, `close` and `volume`. Every other column becomes an overlay
//! column of the bars.

use std::sync::Arc;

use vstd::prelude::*;

use crate::calendar::parse_time_to_millis;
use crate::calendar;
use crate::frequency::{parse_interval, Interval};
use crate::frequency;
use crate::market::{
    share, Atom, AtomModel, Candle, OverlayInfo, OverlayModel, OverlayType, OverlayValue, Schema,
    Timestamp,
};
use crate::market;
use crate::number::Real;
use crate::table::{
    cell_to_overlay, find_column, normalize_header, read_table, Cell, CellModel, ColumnState,
    NumberedTable, RawTable,
};
use crate::table;
use crate::text;

verus! {

// ---------------------------------------------------------------------------
// Columns
// ---------------------------------------------------------------------------

/// Where the columns of a bar stand.
#[derive(Clone, Copy, Debug, PartialEq, Eq, Structural)]
pub struct Columns {
    pub symbol: usize,
    pub freq: usize,
    pub time: usize,
    pub open: usize,
    pub high: usize,
    pub low: usize,
    pub close: usize,
    pub volume: Option<usize>,
}

/// The place of a required column, or what is said where it is missing.
pub open spec fn required(path: Seq<char>, names: Seq<Seq<char>>, name: Seq<char>) -> Result<
    usize,
    Seq<char>,
> {
    let i = table::name_place(names, name);
    if i < names.len() {
        Ok(i as usize)
    } else {
        Err(path + ": missing required column `"@ + name + "`"@)
    }
}

/// Where the columns of a bar stand, or what is said of the first one that is
/// missing. A table may do without `volume`.
pub open spec fn located(path: Seq<char>, names: Seq<Seq<char>>) -> Result<Columns, Seq<char>> {
    let symbol = required(path, names, "symbol"@);
    let freq = required(path, names, "freq"@);
    let time = required(path, names, "time"@);
    let open = required(path, names, "open"@);
    let high = required(path, names, "high"@);
    let low = required(path, names, "low"@);
    let close = required(path, names, "close"@);
    let volume = table::name_place(names, "volume"@);
    if symbol is Err {
        Err(symbol->Err_0)
    } else if freq is Err {
        Err(freq->Err_0)
    } else if time is Err {
        Err(time->Err_0)
    } else if open is Err {
        Err(open->Err_0)
    } else if high is Err {
        Err(high->Err_0)
    } else if low is Err {
        Err(low->Err_0)
    } else if close is Err {
        Err(close->Err_0)
    } else {
        Ok(
            Columns {
                symbol: symbol->Ok_0,
                freq: freq->Ok_0,
                time: time->Ok_0,
                open: open->Ok_0,
                high: high->Ok_0,
                low: low->Ok_0,
                close: close->Ok_0,
                volume: if volume < names.len() {
                    Some(volume as usize)
                } else {
                    None
                },
            },
        )
    }
}

fn require_column(path: &str, names: &[String], name: &str) -> (out: Result<usize, String>)
    ensures
        match (out, required(path@, text::texts(names@), name@)) {
            (Ok(i), Ok(j)) => i == j,
            (Err(e), Err(m)) => e@ == m,
            _ => false,
        },
{
    match find_column(names, name) {
        Some(i) => Ok(i),
        None => {
            let mut message: String = path.to_owned();
            message.append(": missing required column `");
            message.append(name);
            message.append("`");
            Err(message)
        },
    }
}

/// Where the columns of a bar stand.
pub fn locate(path: &str, names: &[String]) -> (out: Result<Columns, String>)
    ensures
        match (out, located(path@, text::texts(names@))) {
            (Ok(c), Ok(m)) => c == m,
            (Err(e), Err(m)) => e@ == m,
            _ => false,
        },
{
    let symbol: usize = match require_column(path, names, "symbol") {
        Ok(i) => i,
        Err(e) => return Err(e),
    };
    let freq: usize = match require_column(path, names, "freq") {
        Ok(i) => i,
        Err(e) => return Err(e),
    };
    let time: usize = match require_column(path, names, "time") {
        Ok(i) => i,
        Err(e) => return Err(e),
    };
    let open: usize = match require_column(path, names, "open") {
        Ok(i) => i,
        Err(e) => return Err(e),
    };
    let high: usize = match require_column(path, names, "high") {
        Ok(i) => i,
        Err(e) => return Err(e),
    };
    let low: usize = match require_column(path, names, "low") {
        Ok(i) => i,
        Err(e) => return Err(e),
    };
    let close: usize = match require_column(path, names, "close") {
        Ok(i) => i,
        Err(e) => return Err(e),
    };
    let volume: Option<usize> = find_column(names, "volume");
    Ok(Columns { symbol, freq, time, open, high, low, close, volume })
}

// ---------------------------------------------------------------------------
// Rows
// ---------------------------------------------------------------------------

/// The cell of a record at `i`, its text trimmed; an empty one where the record
/// is too short.
pub open spec fn field_of(record: Seq<CellModel>, i: int) -> CellModel {
    if 0 <= i < record.len() {
        CellModel { text: text::trimmed(record[i].text), number: record[i].number }
    } else {
        CellModel { text: seq![], number: None }
    }
}

/// The cell of a record at `i`, its text trimmed.
pub fn field(record: &[Cell], i: usize) -> (out: Cell)
    ensures
        out@ == field_of(table::cells(record@), i as int),
{
    if i < record.len() {
        Cell { text: text::trim(&record[i].text).to_owned(), number: record[i].number }
    } else {
        Cell { text: String::new(), number: None }
    }
}

/// One row of prices: its symbol, cadence, time in milliseconds and bar.
pub struct PriceRow {
    pub symbol: String,
    pub interval: Interval,
    pub time_ms: i64,
    pub candle: Candle,
}

/// A row of prices as values.
pub struct PriceRowModel {
    pub symbol: Seq<char>,
    pub interval: Interval,
    pub time_ms: i64,
    pub candle: Candle,
}

impl View for PriceRow {
    type V = PriceRowModel;

    open spec fn view(&self) -> PriceRowModel {
        PriceRowModel {
            symbol: self.symbol@,
            interval: self.interval,
            time_ms: self.time_ms,
            candle: self.candle,
        }
    }
}

/// What is said of a text that is no number.
pub open spec fn number_complaint(raw: Seq<char>) -> Seq<char> {
    if raw.len() == 0 {
        "cannot parse float from empty string"@
    } else {
        "invalid float literal"@
    }
}

/// Where a row stands: the file and the line.
pub open spec fn row_place(path: Seq<char>, line: nat) -> Seq<char> {
    path + ": row "@ + text::decimal(line)
}

/// The number of a cell, or what is said of it.
pub open spec fn number_of(at: Seq<char>, name: Seq<char>, cell: CellModel) -> Result<
    Real,
    Seq<char>,
> {
    match cell.number {
        Some(r) => Ok(r),
        None => Err(
            at + ": column `"@ + name + "` = "@ + text::debug_text(cell.text) + ": "@
                + number_complaint(cell.text),
        ),
    }
}

/// The volume of a row: zero where there is no such column or its cell is empty.
pub open spec fn volume_of(at: Seq<char>, columns: Columns, record: Seq<CellModel>) -> Result<
    Real,
    Seq<char>,
> {
    match columns.volume {
        None => Ok(Real { bits: 0 }),
        Some(i) => {
            let cell = field_of(record, i as int);
            if cell.text.len() == 0 {
                Ok(Real { bits: 0 })
            } else {
                number_of(at, "volume"@, cell)
            }
        },
    }
}

/// The row that a record holds, given what its time cell reads as; or what is
/// said of the first thing that is wrong with it.
pub open spec fn price_row(
    path: Seq<char>,
    line: nat,
    columns: Columns,
    record: Seq<CellModel>,
    time: Result<i64, Seq<char>>,
) -> Result<PriceRowModel, Seq<char>> {
    let at = row_place(path, line);
    let token = field_of(record, columns.freq as int).text;
    let volume = volume_of(at, columns, record);
    let open = number_of(at, "open"@, field_of(record, columns.open as int));
    let high = number_of(at, "high"@, field_of(record, columns.high as int));
    let low = number_of(at, "low"@, field_of(record, columns.low as int));
    let close = number_of(at, "close"@, field_of(record, columns.close as int));
    let symbol = field_of(record, columns.symbol as int).text;
    if frequency::parsed_interval(token) is None {
        Err(at + ": column `freq`: "@ + frequency::interval_complaint(token))
    } else if time is Err {
        Err(at + time->Err_0)
    } else if volume is Err {
        Err(volume->Err_0)
    } else if open is Err {
        Err(open->Err_0)
    } else if high is Err {
        Err(high->Err_0)
    } else if low is Err {
        Err(low->Err_0)
    } else if close is Err {
        Err(close->Err_0)
    } else if symbol.len() == 0 {
        Err(at + ": column `symbol` is empty"@)
    } else {
        Ok(
            PriceRowModel {
                symbol,
                interval: frequency::parsed_interval(token)->0,
                time_ms: time->Ok_0,
                candle: Candle {
                    open: open->Ok_0,
                    high: high->Ok_0,
                    low: low->Ok_0,
                    close: close->Ok_0,
                    volume: volume->Ok_0,
                },
            },
        )
    }
}

fn place_of_row(path: &str, line: u64) -> (out: String)
    ensures
        out@ == row_place(path@, line as nat),
{
    let mut at: String = path.to_owned();
    at.append(": row ");
    at.append(&text::decimal_string(line));
    at
}

fn read_number(at: &str, name: &str, cell: &Cell) -> (out: Result<Real, String>)
    ensures
        match (out, number_of(at@, name@, cell@)) {
            (Ok(r), Ok(m)) => r == m,
            (Err(e), Err(m)) => e@ == m,
            _ => false,
        },
{
    match cell.number {
        Some(r) => Ok(r),
        None => {
            let mut message: String = at.to_owned();
            message.append(": column `");
            message.append(name);
            message.append("` = ");
            message.append(&text::debug_quoted(&cell.text));
            message.append(": ");
            if cell.text.as_str().is_empty() {
                message.append("cannot parse float from empty string");
            } else {
                message.append("invalid float literal");
            }
            Err(message)
        },
    }
}

/// What a time cell reads as, as values.
pub open spec fn time_model(time: Result<i64, String>) -> Result<i64, Seq<char>> {
    match time {
        Ok(t) => Ok(t),
        Err(e) => Err(e@),
    }
}

/// The row that a record holds, given what its time cell reads as.
pub fn read_price_row(
    path: &str,
    line: u64,
    columns: Columns,
    record: &[Cell],
    time: Result<i64, String>,
) -> (out: Result<PriceRow, String>)
    ensures
        match (
            out,
            price_row(path@, line as nat, columns, table::cells(record@), time_model(time)),
        ) {
            (Ok(r), Ok(m)) => r@ == m,
            (Err(e), Err(m)) => e@ == m,
            _ => false,
        },
{
    let at: String = place_of_row(path, line);
    let token: Cell = field(record, columns.freq);
    let interval: Interval = match parse_interval(&token.text) {
        Ok(i) => i,
        Err(e) => {
            let mut message: String = at;
            message.append(": column `freq`: ");
            message.append(&e);
            return Err(message);
        },
    };
    let time_ms: i64 = match time {
        Ok(t) => t,
        Err(e) => {
            let mut message: String = at;
            message.append(&e);
            return Err(message);
        },
    };
    let volume: Real = match columns.volume {
        None => Real::zero(),
        Some(i) => {
            let cell: Cell = field(record, i);
            if cell.text.as_str().is_empty() {
                Real::zero()
            } else {
                match read_number(&at, "volume", &cell) {
                    Ok(r) => r,
                    Err(e) => return Err(e),
                }
            }
        },
    };
    let open: Real = match read_number(&at, "open", &field(record, columns.open)) {
        Ok(r) => r,
        Err(e) => return Err(e),
    };
    let high: Real = match read_number(&at, "high", &field(record, columns.high)) {
        Ok(r) => r,
        Err(e) => return Err(e),
    };
    let low: Real = match read_number(&at, "low", &field(record, columns.low)) {
        Ok(r) => r,
        Err(e) => return Err(e),
    };
    let close: Real = match read_number(&at, "close", &field(record, columns.close)) {
        Ok(r) => r,
        Err(e) => return Err(e),
    };
    let symbol: String = field(record, columns.symbol).text;
    if symbol.as_str().is_empty() {
        let mut message: String = at;
        message.append(": column `symbol` is empty");
        return Err(message);
    }
    Ok(PriceRow { symbol, interval, time_ms, candle: Candle::new(open, high, low, close, volume) })
}

/// What is said of a record that its reader refused.
pub open spec fn refused(path: Seq<char>, line: nat, error: Seq<char>) -> Seq<char> {
    path + ": reading row "@ + text::decimal(line) + ": "@ + error
}

/// What is said of a record that its reader refused.
pub fn refusal(path: &str, line: u64, error: &str) -> (out: String)
    ensures
        out@ == refused(path@, line as nat, error@),
{
    let mut message: String = path.to_owned();
    message.append(": reading row ");
    message.append(&text::decimal_string(line));
    message.append(": ");
    message.append(error);
    message
}

/// What is said of a header that its reader refused.
pub open spec fn header_refused(path: Seq<char>, error: Seq<char>) -> Seq<char> {
    "reading header of "@ + path + ": "@ + error
}

/// What is said of a header that its reader refused.
pub fn header_refusal(path: &str, error: &str) -> (out: String)
    ensures
        out@ == header_refused(path@, error@),
{
    let mut message: String = "reading header of ".to_owned();
    message.append(path);
    message.append(": ");
    message.append(error);
    message
}

// ---------------------------------------------------------------------------
// Overlay columns
// ---------------------------------------------------------------------------

/// Whether a column holds a part of the bar.
pub open spec fn is_bar_column(name: Seq<char>) -> bool {
    name == "symbol"@ || name == "freq"@ || name == "time"@ || name == "open"@ || name == "high"@
        || name == "low"@ || name == "close"@ || name == "volume"@
}

/// Whether a column holds a part of the bar.
pub fn bar_column(name: &str) -> (out: bool)
    ensures
        out == is_bar_column(name@),
{
    text::same(name, "symbol") || text::same(name, "freq") || text::same(name, "time")
        || text::same(name, "open") || text::same(name, "high") || text::same(name, "low")
        || text::same(name, "close") || text::same(name, "volume")
}

/// The places of the columns that hold no part of the bar, in order.
pub open spec fn extra_places(names: Seq<Seq<char>>) -> Seq<int>
    decreases names.len(),
{
    if names.len() == 0 {
        seq![]
    } else if is_bar_column(names.last()) {
        extra_places(names.drop_last())
    } else {
        extra_places(names.drop_last()).push(names.len() - 1)
    }
}

proof fn extra_places_in_range(names: Seq<Seq<char>>)
    ensures
        forall|i: int|
            0 <= i < extra_places(names).len() ==> 0 <= #[trigger] extra_places(names)[i]
                < names.len(),
    decreases names.len(),
{
    if names.len() > 0 {
        extra_places_in_range(names.drop_last());
        let rest = extra_places(names.drop_last());
        let all = extra_places(names);
        assert forall|i: int| 0 <= i < all.len() implies 0 <= #[trigger] all[i] < names.len() by {
            if i < rest.len() {
                assert(all[i] == rest[i]);
            }
        }
    }
}

/// The cells of the column at `i`, row by row.
pub open spec fn column_cells(rows: Seq<Seq<CellModel>>, i: int) -> Seq<CellModel> {
    Seq::new(rows.len(), |r: int| field_of(rows[r], i))
}

/// The overlay columns of a table: the name of each, and the type that its cells
/// give it.
pub open spec fn overlay_columns(names: Seq<Seq<char>>, rows: Seq<Seq<CellModel>>) -> Seq<
    (Seq<char>, OverlayType),
> {
    let places = extra_places(names);
    Seq::new(
        places.len(),
        |k: int| (names[places[k]], table::column_type(column_cells(rows, places[k]))),
    )
}

/// The overlay values of one row.
pub open spec fn row_overlays(
    names: Seq<Seq<char>>,
    rows: Seq<Seq<CellModel>>,
    record: Seq<CellModel>,
) -> Seq<OverlayModel> {
    let places = extra_places(names);
    Seq::new(
        places.len(),
        |k: int|
            table::overlay_of(
                Some(field_of(record, places[k])),
                table::column_type(column_cells(rows, places[k])),
            ),
    )
}

// ---------------------------------------------------------------------------
// The source
// ---------------------------------------------------------------------------

/// A table of bars in a file.
#[derive(Debug)]
pub struct CsvSource {
    pub path: String,
}

/// One row of the table.
#[derive(Debug)]
pub struct CsvBar {
    pub symbol: String,
    pub interval: Interval,
    pub atom: Atom,
}

/// A row of the table as values.
pub struct CsvBarModel {
    pub symbol: Seq<char>,
    pub interval: Interval,
    pub atom: AtomModel,
}

impl View for CsvBar {
    type V = CsvBarModel;

    open spec fn view(&self) -> CsvBarModel {
        CsvBarModel { symbol: self.symbol@, interval: self.interval, atom: self.atom@ }
    }
}

/// Rows as values.
pub open spec fn bar_models(v: Seq<CsvBar>) -> Seq<CsvBarModel> {
    Seq::new(v.len(), |i: int| v[i]@)
}

/// What a time cell reads as, or what is said of it.
pub open spec fn bar_time(cell: Seq<char>) -> Result<i64, Seq<char>> {
    match calendar::parsed_millis(cell) {
        Some(t) => Ok(t as i64),
        None => Err(
            ": column `time` = "@ + text::debug_text(cell)
                + " — expected RFC3339, `YYYY-MM-DD [HH:MM:SS]`, or an epoch stamp in seconds/millis"@,
        ),
    }
}

fn read_bar_time(cell: &str) -> (out: Result<i64, String>)
    ensures
        time_model(out) == bar_time(cell@),
{
    match parse_time_to_millis(cell) {
        Some(t) => Ok(t),
        None => {
            let mut message: String = ": column `time` = ".to_owned();
            message.append(&text::debug_quoted(cell));
            message.append(
                " — expected RFC3339, `YYYY-MM-DD [HH:MM:SS]`, or an epoch stamp in seconds/millis",
            );
            Err(message)
        },
    }
}

/// The rows of prices of the first `n` records with the cells they come from, or
/// what is said of the first record that is wrong. The header is line 1.
pub open spec fn price_rows(
    path: Seq<char>,
    columns: Columns,
    records: Seq<Result<Seq<CellModel>, Seq<char>>>,
    n: int,
) -> Result<Seq<(PriceRowModel, Seq<CellModel>)>, Seq<char>>
    decreases n,
{
    if n <= 0 {
        Ok(seq![])
    } else {
        match price_rows(path, columns, records, n - 1) {
            Err(m) => Err(m),
            Ok(rows) => match records[n - 1] {
                Err(e) => Err(refused(path, (n + 1) as nat, e)),
                Ok(record) => match price_row(
                    path,
                    (n + 1) as nat,
                    columns,
                    record,
                    bar_time(field_of(record, columns.time as int).text),
                ) {
                    Err(m) => Err(m),
                    Ok(row) => Ok(rows.push((row, record))),
                },
            },
        }
    }
}

/// The cells of rows.
pub open spec fn row_cells(rows: Seq<(PriceRowModel, Seq<CellModel>)>) -> Seq<Seq<CellModel>> {
    Seq::new(rows.len(), |i: int| rows[i].1)
}

/// The bars of rows: each with its prices and time, and with the values of the
/// overlay columns where the table has any.
pub open spec fn bars_of(
    names: Seq<Seq<char>>,
    rows: Seq<(PriceRowModel, Seq<CellModel>)>,
) -> Seq<CsvBarModel> {
    let all = row_cells(rows);
    Seq::new(
        rows.len(),
        |i: int|
            CsvBarModel {
                symbol: rows[i].0.symbol,
                interval: rows[i].0.interval,
                atom: AtomModel {
                    candle: Some(rows[i].0.candle),
                    time: Some(Timestamp(rows[i].0.time_ms)),
                    overlays: if extra_places(names).len() == 0 {
                        None
                    } else {
                        Some((overlay_columns(names, all), row_overlays(names, all, rows[i].1)))
                    },
                },
            },
    )
}

/// The bars of a table, or what is said of the first thing that is wrong with
/// it: the header, a missing column, or a record.
pub open spec fn table_bars(
    path: Seq<char>,
    header: Result<Seq<Seq<char>>, Seq<char>>,
    records: Seq<Result<Seq<CellModel>, Seq<char>>>,
) -> Result<Seq<CsvBarModel>, Seq<char>> {
    match header {
        Err(e) => Err(header_refused(path, e)),
        Ok(fields) => {
            let names = table::column_names(fields);
            match located(path, names) {
                Err(m) => Err(m),
                Ok(columns) => match price_rows(path, columns, records, records.len() as int) {
                    Err(m) => Err(m),
                    Ok(rows) => Ok(bars_of(names, rows)),
                },
            }
        },
    }
}

/// The places of the overlay columns.
fn find_extras(names: &[String]) -> (out: Vec<usize>)
    ensures
        out@.len() == extra_places(text::texts(names@)).len(),
        forall|i: int|
            0 <= i < out@.len() ==> #[trigger] out@[i] == extra_places(text::texts(names@))[i]
                && out@[i] < names@.len(),
{
    let ghost all = text::texts(names@);
    let mut out: Vec<usize> = Vec::new();
    let n: usize = names.len();
    assert(all.take(0) =~= Seq::<Seq<char>>::empty());
    for i in 0..n
        invariant
            n == names@.len(),
            all == text::texts(names@),
            out@.len() == extra_places(all.take(i as int)).len(),
            forall|k: int|
                0 <= k < out@.len() ==> #[trigger] out@[k] == extra_places(all.take(i as int))[k],
    {
        assert(all.take(i + 1).drop_last() =~= all.take(i as int));
        if !bar_column(&names[i]) {
            out.push(i);
        }
    }
    proof {
        assert(all.take(n as int) =~= all);
        extra_places_in_range(all);
    }
    out
}

/// Whether `states` sum up the columns at `places` over `rows`.
spec fn states_sum_up(states: Seq<ColumnState>, places: Seq<usize>, rows: Seq<Seq<CellModel>>) -> bool {
    &&& states.len() == places.len()
    &&& forall|k: int|
        0 <= k < places.len() ==> (#[trigger] states[k]).sums_up(
            column_cells(rows, places[k] as int),
        )
}

fn observe_row(states: &mut Vec<ColumnState>, places: &Vec<usize>, record: &[Cell])
    requires
        old(states)@.len() == places@.len(),
    ensures
        forall|rows: Seq<Seq<CellModel>>|
            states_sum_up(old(states)@, places@, rows) ==> #[trigger] states_sum_up(
                final(states)@,
                places@,
                rows.push(table::cells(record@)),
            ),
        final(states)@.len() == places@.len(),
{
    let ghost before = states@;
    let ghost model = table::cells(record@);
    let n: usize = places.len();
    for k in 0..n
        invariant
            n == places@.len(),
            states@.len() == n,
            before.len() == n,
            model == table::cells(record@),
            forall|j: int| k <= j < n ==> states@[j] == before[j],
            forall|j: int, cells: Seq<CellModel>|
                0 <= j < k && before[j].sums_up(cells) ==> #[trigger] states@[j].sums_up(
                    #[trigger] cells.push(field_of(model, places@[j] as int)),
                ),
    {
        let mut state: ColumnState = states[k];
        let cell: Cell = field(record, places[k]);
        state.observe(&cell);
        states[k] = state;
    }
    proof {
        assert forall|rows: Seq<Seq<CellModel>>| states_sum_up(before, places@, rows) implies #[trigger] states_sum_up(
            states@,
            places@,
            rows.push(model),
        ) by {
            assert forall|k: int| 0 <= k < places@.len() implies (#[trigger] states@[k]).sums_up(
                column_cells(rows.push(model), places@[k] as int),
            ) by {
                let i = places@[k] as int;
                let seen = column_cells(rows, i);
                assert(before[k].sums_up(seen));
                assert(states@[k].sums_up(seen.push(field_of(model, i))));
                assert(seen.push(field_of(model, i)) =~= column_cells(rows.push(model), i));
            }
        }
    }
}

fn build_schema(
    names: &[String],
    places: &Vec<usize>,
    states: &Vec<ColumnState>,
    Ghost(rows): Ghost<Seq<Seq<CellModel>>>,
) -> (out: Schema)
    requires
        states_sum_up(states@, places@, rows),
        places@.len() == extra_places(text::texts(names@)).len(),
        forall|i: int|
            0 <= i < places@.len() ==> #[trigger] places@[i] == extra_places(text::texts(names@))[i]
                && places@[i] < names@.len(),
    ensures
        out@ == overlay_columns(text::texts(names@), rows),
{
    let mut columns: Vec<(String, OverlayType)> = Vec::new();
    let n: usize = places.len();
    let ghost all = text::texts(names@);
    for k in 0..n
        invariant
            n == places@.len(),
            all == text::texts(names@),
            states_sum_up(states@, places@, rows),
            places@.len() == extra_places(all).len(),
            forall|i: int|
                0 <= i < places@.len() ==> #[trigger] places@[i] == extra_places(all)[i]
                    && places@[i] < names@.len(),
            columns@.len() == k,
            forall|j: int|
                0 <= j < k ==> ((#[trigger] columns@[j]).0@, columns@[j].1) == overlay_columns(
                    all,
                    rows,
                )[j],
    {
        let i: usize = places[k];
        assert(states@[k as int].sums_up(column_cells(rows, i as int)));
        let ty: OverlayType = states[k].resolve();
        columns.push((names[i].clone(), ty));
    }
    let out: Schema = Schema { columns };
    assert(out@ =~= overlay_columns(all, rows));
    out
}

fn read_overlays(record: &[Cell], places: &Vec<usize>, schema: &Schema) -> (out: Vec<OverlayValue>)
    requires
        schema@.len() == places@.len(),
    ensures
        market::overlay_values(out@) == Seq::new(
            places@.len(),
            |k: int|
                table::overlay_of(
                    Some(field_of(table::cells(record@), places@[k] as int)),
                    schema@[k].1,
                ),
        ),
{
    let mut out: Vec<OverlayValue> = Vec::new();
    let n: usize = places.len();
    for k in 0..n
        invariant
            n == places@.len(),
            schema@.len() == n,
            out@.len() == k,
            forall|j: int|
                0 <= j < k ==> (#[trigger] out@[j])@ == table::overlay_of(
                    Some(field_of(table::cells(record@), places@[j] as int)),
                    schema@[j].1,
                ),
    {
        let cell: Cell = field(record, places[k]);
        out.push(cell_to_overlay(Some(&cell), schema.columns[k].1));
    }
    assert(market::overlay_values(out@) =~= Seq::new(
        places@.len(),
        |k: int|
            table::overlay_of(
                Some(field_of(table::cells(record@), places@[k] as int)),
                schema@[k].1,
            ),
    ));
    out
}

impl CsvSource {
    /// The source at `path`.
    pub fn new(path: &str) -> (out: CsvSource)
        ensures
            out.path@ == path@,
    {
        CsvSource { path: path.to_owned() }
    }

    /// The table that the bytes of the file hold.
    pub fn table(&self, bytes: &[u8]) -> (out: RawTable)
        ensures
            out@ == table::delimited(
                bytes@,
                table::likely_delimiter(table::first_line(bytes@)),
            ),
    {
        read_table(bytes)
    }

    /// The bars of the table: its header's fields and, record by record, its
    /// cells with the numbers they spell. `symbol`, `freq`, `time`, `open`,
    /// `high`, `low` and `close` are required columns; `volume` counts as zero
    /// where it is missing or blank.
    pub fn read(&self, table: &NumberedTable) -> (out: Result<Vec<CsvBar>, String>)
        requires
            table.records@.len() < usize::MAX,
        ensures
            match (
                out,
                table_bars(
                    self.path@,
                    table::line_model(table.header),
                    table::record_models(table.records@),
                ),
            ) {
                (Ok(v), Ok(m)) => bar_models(v@) == m,
                (Err(e), Err(m)) => e@ == m,
                _ => false,
            },
    {
        let path: &str = &self.path;
        let header: &Vec<String> = match &table.header {
            Ok(fields) => fields,
            Err(e) => return Err(header_refusal(path, e)),
        };
        let names: Vec<String> = normalize_header(header);
        let ghost all_names = text::texts(names@);
        let columns: Columns = match locate(path, &names) {
            Ok(c) => c,
            Err(e) => return Err(e),
        };
        let places: Vec<usize> = find_extras(&names);
        let mut states: Vec<ColumnState> = Vec::new();
        let m: usize = places.len();
        for k in 0..m
            invariant
                m == places@.len(),
                states@.len() == k,
                forall|j: int| 0 <= j < k ==> (#[trigger] states@[j]).sums_up(seq![]),
        {
            states.push(ColumnState::new());
        }
        let ghost records = table::record_models(table.records@);
        let mut rows: Vec<PriceRow> = Vec::new();
        let n: usize = table.records.len();
        let ghost mut model: Seq<(PriceRowModel, Seq<CellModel>)> = seq![];
        proof {
            assert forall|k: int| 0 <= k < m implies (#[trigger] states@[k]).sums_up(
                column_cells(row_cells(model), places@[k] as int),
            ) by {
                assert(column_cells(row_cells(model), places@[k] as int) =~= Seq::<
                    CellModel,
                >::empty());
            }
        }
        for i in 0..n
            invariant
                n == table.records@.len(),
                n < usize::MAX,
                path@ == self.path@,
                records == table::record_models(table.records@),
                price_rows(self.path@, columns, records, i as int) == Ok::<
                    Seq<(PriceRowModel, Seq<CellModel>)>,
                    Seq<char>,
                >(model),
                table::line_model(table.header) is Ok,
                all_names == table::column_names(table::line_model(table.header)->Ok_0),
                located(self.path@, all_names) == Ok::<Columns, Seq<char>>(columns),
                rows@.len() == i,
                model.len() == i,
                forall|k: int| 0 <= k < i ==> (#[trigger] rows@[k])@ == model[k].0,
                forall|k: int|
                    0 <= k < i ==> (#[trigger] table.records@[k]) is Ok && model[k].1
                        == table::cells(table.records@[k]->Ok_0@),
                states_sum_up(states@, places@, row_cells(model)),
        {
            proof {
                // One wrong record decides for the whole table.
                price_rows_stay_wrong(self.path@, columns, records, i + 1, n as int);
            }
            let line: u64 = i as u64 + 2;
            match &table.records[i] {
                Err(e) => {
                    return Err(refusal(path, line, e));
                },
                Ok(record) => {
                    let time: Result<i64, String> = read_bar_time(
                        &field(record, columns.time).text,
                    );
                    match read_price_row(path, line, columns, record, time) {
                        Err(e) => {
                            return Err(e);
                        },
                        Ok(row) => {
                            observe_row(&mut states, &places, record);
                            proof {
                                let before = model;
                                model = before.push((row@, table::cells(record@)));
                                assert(row_cells(model) =~= row_cells(before).push(
                                    table::cells(record@),
                                ));
                                assert(states_sum_up(
                                    states@,
                                    places@,
                                    row_cells(before).push(table::cells(record@)),
                                ));
                            }
                            rows.push(row);
                        },
                    }
                },
            }
        }
        let ghost cells = row_cells(model);
        let schema: Arc<Schema> = Arc::new(build_schema(&names, &places, &states, Ghost(cells)));
        let mut out: Vec<CsvBar> = Vec::new();
        for i in 0..n
            invariant
                n == table.records@.len(),
                rows@.len() == n,
                model.len() == n,
                cells == row_cells(model),
                m == places@.len(),
                places@.len() == extra_places(all_names).len(),
                forall|k: int|
                    0 <= k < places@.len() ==> #[trigger] places@[k] == extra_places(all_names)[k],
                schema@ == overlay_columns(all_names, cells),
                forall|k: int| 0 <= k < n ==> (#[trigger] rows@[k])@ == model[k].0,
                forall|k: int|
                    0 <= k < n ==> (#[trigger] table.records@[k]) is Ok && model[k].1
                        == table::cells(table.records@[k]->Ok_0@),
                out@.len() == i,
                forall|k: int| 0 <= k < i ==> (#[trigger] out@[k])@ == bars_of(all_names, model)[k],
        {
            let row: &PriceRow = &rows[i];
            assert(row@ == model[i as int].0);
            let overlays: Option<OverlayInfo> = if m == 0 {
                None
            } else {
                match &table.records[i] {
                    Ok(record) => {
                        let values: Vec<OverlayValue> = read_overlays(record, &places, &schema);
                        assert(market::overlay_values(values@) =~= row_overlays(
                            all_names,
                            cells,
                            model[i as int].1,
                        ));
                        Some(OverlayInfo { schema: share(&schema), values })
                    },
                    Err(_) => None,
                }
            };
            out.push(
                CsvBar {
                    symbol: row.symbol.clone(),
                    interval: row.interval,
                    atom: Atom {
                        candle: Some(row.candle),
                        time: Some(Timestamp(row.time_ms)),
                        overlays,
                    },
                },
            );
        }
        assert(bar_models(out@) =~= bars_of(all_names, model));
        Ok(out)
    }
}

proof fn price_rows_stay_wrong(
    path: Seq<char>,
    columns: Columns,
    records: Seq<Result<Seq<CellModel>, Seq<char>>>,
    k: int,
    n: int,
)
    requires
        0 <= k <= n,
    ensures
        price_rows(path, columns, records, k) is Err ==> price_rows(path, columns, records, n)
            == price_rows(path, columns, records, k),
    decreases n - k,
{
    if k < n {
        price_rows_stay_wrong(path, columns, records, k, n - 1);
    }
}

/// Every column is found at the first place that has its own name; the volume may be
/// missing, the others may not.
pub proof fn columns_stand_under_their_names(path: Seq<char>, names: Seq<Seq<char>>)
    requires
        names.len() <= usize::MAX,
    ensures
        located(path, names) matches Ok(c) ==> {
            &&& c.symbol < names.len() && names[c.symbol as int] == "symbol"@
            &&& c.freq < names.len() && names[c.freq as int] == "freq"@
            &&& c.time < names.len() && names[c.time as int] == "time"@
            &&& c.open < names.len() && names[c.open as int] == "open"@
            &&& c.high < names.len() && names[c.high as int] == "high"@
            &&& c.low < names.len() && names[c.low as int] == "low"@
            &&& c.close < names.len() && names[c.close as int] == "close"@
            &&& c.volume matches Some(v) ==> v < names.len() && names[v as int] == "volume"@
            &&& c.volume is None ==> !names.contains("volume"@)
        },
        located(path, names) is Ok <==> names.contains("symbol"@) && names.contains("freq"@)
            && names.contains("time"@) && names.contains("open"@) && names.contains("high"@)
            && names.contains("low"@) && names.contains("close"@),
{
    table::a_name_is_found_at_its_place(names, "symbol"@);
    table::a_name_is_found_at_its_place(names, "freq"@);
    table::a_name_is_found_at_its_place(names, "time"@);
    table::a_name_is_found_at_its_place(names, "open"@);
    table::a_name_is_found_at_its_place(names, "high"@);
    table::a_name_is_found_at_its_place(names, "low"@);
    table::a_name_is_found_at_its_place(names, "close"@);
    table::a_name_is_found_at_its_place(names, "volume"@);
}

/// A row that is read has the symbol, the cadence and the numbers that stand in its
/// record under the columns' own places; its volume is zero where the record has none.
pub proof fn a_price_row_is_its_record(
    path: Seq<char>,
    line: nat,
    columns: Columns,
    record: Seq<CellModel>,
    time: Result<i64, Seq<char>>,
    row: PriceRowModel,
)
    requires
        price_row(path, line, columns, record, time) == Ok::<PriceRowModel, Seq<char>>(row),
    ensures
        columns.symbol < record.len(),
        row.symbol == text::trimmed(record[columns.symbol as int].text),
        row.symbol.len() > 0,
        columns.open < record.len() && record[columns.open as int].number == Some(row.candle.open),
        columns.high < record.len() && record[columns.high as int].number == Some(row.candle.high),
        columns.low < record.len() && record[columns.low as int].number == Some(row.candle.low),
        columns.close < record.len() && record[columns.close as int].number == Some(
            row.candle.close,
        ),
        (columns.volume matches Some(v) && v < record.len() && text::trimmed(
            record[v as int].text,
        ).len() > 0) ==> record[columns.volume->0 as int].number == Some(row.candle.volume),
        !(columns.volume matches Some(v) && v < record.len() && text::trimmed(
            record[v as int].text,
        ).len() > 0) ==> row.candle.volume == (Real { bits: 0 }),
        time == Ok::<i64, Seq<char>>(row.time_ms),
        columns.freq < record.len() ==> frequency::parsed_interval(
            text::trimmed(record[columns.freq as int].text),
        ) == Some(row.interval),
{
}

/// A row that has all it needs is read.
pub proof fn a_whole_record_is_read(
    path: Seq<char>,
    line: nat,
    columns: Columns,
    record: Seq<CellModel>,
    time: i64,
)
    requires
        columns.symbol < record.len() && text::trimmed(record[columns.symbol as int].text).len()
            > 0,
        columns.freq < record.len() && frequency::parsed_interval(
            text::trimmed(record[columns.freq as int].text),
        ) is Some,
        columns.open < record.len() && record[columns.open as int].number is Some,
        columns.high < record.len() && record[columns.high as int].number is Some,
        columns.low < record.len() && record[columns.low as int].number is Some,
        columns.close < record.len() && record[columns.close as int].number is Some,
        columns.volume matches Some(v) && v < record.len() ==> record[columns.volume->0 as int].number
            is Some || text::trimmed(record[columns.volume->0 as int].text).len() == 0,
    ensures
        price_row(path, line, columns, record, Ok(time)) is Ok,
{
}

/// A table's bars are those of its records, one for each and in their order: each with
/// its record's symbol, cadence, numbers and instant, and with the value of its cell
/// for each column that is not a bar's own.
pub proof fn bars_are_those_of_the_records(
    path: Seq<char>,
    columns: Columns,
    records: Seq<Result<Seq<CellModel>, Seq<char>>>,
    n: int,
)
    requires
        0 <= n <= records.len(),
        price_rows(path, columns, records, n) is Ok,
    ensures
        ({
            let rows = price_rows(path, columns, records, n)->Ok_0;
            &&& rows.len() == n
            &&& forall|i: int|
                0 <= i < n ==> {
                    let (row, record) = #[trigger] rows[i];
                    &&& records[i] == Ok::<Seq<CellModel>, Seq<char>>(record)
                    &&& exists|time: Result<i64, Seq<char>>| #[trigger]
                        price_row(path, (i + 2) as nat, columns, record, time) == Ok::<
                            PriceRowModel,
                            Seq<char>,
                        >(row)
                    &&& calendar::parsed_millis(
                        field_of(record, columns.time as int).text,
                    ) is Some
                    &&& row.time_ms == calendar::parsed_millis(
                        field_of(record, columns.time as int).text,
                    )->0 as i64
                }
        }),
    decreases n,
{
    if n > 0 {
        bars_are_those_of_the_records(path, columns, records, n - 1);
        let rows = price_rows(path, columns, records, n)->Ok_0;
        let before = price_rows(path, columns, records, n - 1)->Ok_0;
        let record = records[n - 1]->Ok_0;
        let time = bar_time(field_of(record, columns.time as int).text);
        assert(price_row(path, (n + 1) as nat, columns, record, time) == Ok::<
            PriceRowModel,
            Seq<char>,
        >(rows[n - 1].0));
        assert forall|i: int| 0 <= i < n - 1 implies #[trigger] rows[i] == before[i] by {}
    }
}

/// The columns that are not a bar's own stand in the order of the header, each once.
pub proof fn extra_columns_are_the_others(names: Seq<Seq<char>>)
    ensures
        forall|k: int|
            0 <= k < extra_places(names).len() ==> 0 <= #[trigger] extra_places(names)[k]
                < names.len() && !is_bar_column(names[extra_places(names)[k]]),
        forall|i: int|
            0 <= i < names.len() && !is_bar_column(#[trigger] names[i]) ==> extra_places(
                names,
            ).contains(i),
        forall|k: int, l: int|
            0 <= k < l < extra_places(names).len() ==> #[trigger] extra_places(names)[k]
                < #[trigger] extra_places(names)[l],
    decreases names.len(),
{
    if names.len() > 0 {
        let less = names.drop_last();
        extra_columns_are_the_others(less);
        let rest = extra_places(less);
        let all = extra_places(names);
        assert forall|k: int| 0 <= k < all.len() implies 0 <= #[trigger] all[k] < names.len()
            && !is_bar_column(names[all[k]]) by {
            if k < rest.len() {
                assert(all[k] == rest[k]);
                assert(less[rest[k]] == names[rest[k]]);
            }
        }
        assert forall|i: int| 0 <= i < names.len() && !is_bar_column(#[trigger] names[i]) implies
            all.contains(i) by {
            if i < less.len() {
                assert(less[i] == names[i]);
                let k = choose|k: int| 0 <= k < rest.len() && rest[k] == i;
                assert(all[k] == i);
            } else {
                assert(all[all.len() - 1] == i);
            }
        }
        assert forall|k: int, l: int| 0 <= k < l < all.len() implies #[trigger] all[k]
            < #[trigger] all[l] by {
            assert(all[k] == rest[k]);
            if l < rest.len() {
                assert(all[l] == rest[l]);
            }
        }
    }
}

/// Each bar of a table is its row's, with the values of the row's own cells under the
/// columns that are not a bar's own.
pub proof fn csv_bars_are_their_rows(
    names: Seq<Seq<char>>,
    rows: Seq<(PriceRowModel, Seq<CellModel>)>,
    i: int,
)
    requires
        0 <= i < rows.len(),
    ensures
        bars_of(names, rows).len() == rows.len(),
        ({
            let bar = bars_of(names, rows)[i];
            let places = extra_places(names);
            &&& bar.symbol == rows[i].0.symbol
            &&& bar.interval == rows[i].0.interval
            &&& bar.atom.candle == Some(rows[i].0.candle)
            &&& bar.atom.time == Some(Timestamp(rows[i].0.time_ms))
            &&& bar.atom.overlays is None <==> places.len() == 0
            &&& bar.atom.overlays matches Some((columns, values)) ==> columns.len() == places.len()
                && values.len() == places.len() && forall|k: int|
                0 <= k < places.len() ==> (#[trigger] columns[k]).0 == names[places[k]]
                    && values[k] == table::overlay_of(
                    Some(field_of(rows[i].1, places[k])),
                    columns[k].1,
                )
        }),
{
}

} // verus!
