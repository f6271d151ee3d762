//! Bars from a delimited table, without its other columns.

use vstd::prelude::*;

use crate::calendar::read_rfc3339;
use crate::calendar;
use crate::csv_source::{
    field, header_refusal, locate, read_price_row, refusal, Columns, PriceRow, PriceRowModel,
};
use crate::csv_source;
use crate::frequency::Interval;
use crate::market::{Candle, Timestamp};
use crate::table::{normalize_header, read_table, CellModel, NumberedTable, RawTable};
use crate::table;
use crate::text;

verus! {

/// A table of bars in a file.
#[derive(Debug)]
pub struct FileSource {
    pub path: String,
}

/// One row of the table.
#[derive(Debug)]
pub struct FileBar {
    pub symbol: String,
    pub interval: Interval,
    pub time: Timestamp,
    pub candle: Candle,
}

impl FileBar {
    /// Whether the bar holds what the row does.
    pub open spec fn shows(self, row: PriceRowModel) -> bool {
        &&& self.symbol@ == row.symbol
        &&& self.interval == row.interval
        &&& self.time == Timestamp(row.time_ms)
        &&& self.candle == row.candle
    }
}

/// The milliseconds of a time, given the instant that it names in RFC 3339: that
/// instant, else the number of milliseconds that the text spells, else what is
/// said of it.
pub open spec fn file_time_of(cell: Seq<char>, instant: Option<(i64, u16)>) -> Result<
    i64,
    Seq<char>,
> {
    let s = text::trimmed(cell);
    match instant {
        Some((seconds, millis)) => Ok((seconds * 1000 + millis) as i64),
        None => match text::parsed_signed(s) {
            Some(ms) => Ok(ms as i64),
            None => Err(
                ": column `time`: expected RFC3339 timestamp or millisecond epoch, got "@
                    + text::debug_text(s),
            ),
        },
    }
}

/// The milliseconds of a time cell: an RFC 3339 instant or a number of
/// milliseconds.
pub open spec fn file_time(cell: Seq<char>) -> Result<i64, Seq<char>> {
    file_time_of(cell, calendar::rfc3339_instant(text::trimmed(cell)))
}

/// The milliseconds of a time, given the instant that it names in RFC 3339.
pub fn time_from_instant(cell: &str, instant: Option<(i64, u16)>) -> (out: Result<i64, String>)
    requires
        instant matches Some((v, m)) ==> -calendar::SECONDS_LIMIT <= v <= calendar::SECONDS_LIMIT
            && m < 1000,
    ensures
        csv_source::time_model(out) == file_time_of(cell@, instant),
{
    let s = text::trim(cell);
    if let Some((seconds, millis)) = instant {
        return Ok(seconds * 1000 + millis as i64);
    }
    if let Some(ms) = text::parse_signed(s) {
        return Ok(ms);
    }
    let mut message: String =
        ": column `time`: expected RFC3339 timestamp or millisecond epoch, got ".to_owned();
    message.append(&text::debug_quoted(s));
    Err(message)
}

/// The milliseconds of a time cell.
pub fn parse_time(cell: &str) -> (out: Result<i64, String>)
    ensures
        csv_source::time_model(out) == file_time(cell@),
{
    time_from_instant(cell, read_rfc3339(text::trim(cell)))
}

/// The rows of the first `n` records, or what is said of the first record that
/// is wrong. The header is line 1.
pub open spec fn file_rows(
    path: Seq<char>,
    columns: Columns,
    records: Seq<Result<Seq<CellModel>, Seq<char>>>,
    n: int,
) -> Result<Seq<PriceRowModel>, Seq<char>>
    decreases n,
{
    if n <= 0 {
        Ok(seq![])
    } else {
        match file_rows(path, columns, records, n - 1) {
            Err(m) => Err(m),
            Ok(rows) => match records[n - 1] {
                Err(e) => Err(csv_source::refused(path, (n + 1) as nat, e)),
                Ok(record) => match csv_source::price_row(
                    path,
                    (n + 1) as nat,
                    columns,
                    record,
                    file_time(csv_source::field_of(record, columns.time as int).text),
                ) {
                    Err(m) => Err(m),
                    Ok(row) => Ok(rows.push(row)),
                },
            },
        }
    }
}

proof fn file_rows_stay_wrong(
    path: Seq<char>,
    columns: Columns,
    records: Seq<Result<Seq<CellModel>, Seq<char>>>,
    k: int,
    n: int,
)
    requires
        0 <= k <= n,
    ensures
        file_rows(path, columns, records, k) is Err ==> file_rows(path, columns, records, n)
            == file_rows(path, columns, records, k),
    decreases n - k,
{
    if k < n {
        file_rows_stay_wrong(path, columns, records, k, n - 1);
    }
}

/// The rows of a table, or what is said of the first thing that is wrong with
/// it.
pub open spec fn table_rows(
    path: Seq<char>,
    header: Result<Seq<Seq<char>>, Seq<char>>,
    records: Seq<Result<Seq<CellModel>, Seq<char>>>,
) -> Result<Seq<PriceRowModel>, Seq<char>> {
    match header {
        Err(e) => Err(csv_source::header_refused(path, e)),
        Ok(fields) => match csv_source::located(path, table::column_names(fields)) {
            Err(m) => Err(m),
            Ok(columns) => file_rows(path, columns, records, records.len() as int),
        },
    }
}

impl FileSource {
    /// The source at `path`.
    pub fn new(path: &str) -> (out: FileSource)
        ensures
            out.path@ == path@,
    {
        FileSource { path: path.to_owned() }
    }

    /// The table that the bytes of the file hold.
    pub fn table(&self, bytes: &[u8]) -> (out: RawTable)
        ensures
            out@ == table::delimited(
                bytes@,
                table::likely_delimiter(table::first_line(bytes@)),
            ),
    {
        read_table(bytes)
    }

    /// The bars of the table. `symbol`, `freq`, `time`, `open`, `high`, `low` and
    /// `close` are required columns; `volume` counts as zero where it is missing
    /// or blank; any other column is passed over.
    pub fn read(&self, table: &NumberedTable) -> (out: Result<Vec<FileBar>, String>)
        requires
            table.records@.len() < usize::MAX,
        ensures
            match (
                out,
                table_rows(
                    self.path@,
                    table::line_model(table.header),
                    table::record_models(table.records@),
                ),
            ) {
                (Ok(v), Ok(m)) => v@.len() == m.len() && forall|i: int|
                    0 <= i < m.len() ==> (#[trigger] v@[i]).shows(m[i]),
                (Err(e), Err(m)) => e@ == m,
                _ => false,
            },
    {
        let path: &str = &self.path;
        let header: &Vec<String> = match &table.header {
            Ok(fields) => fields,
            Err(e) => return Err(header_refusal(path, e)),
        };
        let names: Vec<String> = normalize_header(header);
        let columns: Columns = match locate(path, &names) {
            Ok(c) => c,
            Err(e) => return Err(e),
        };
        let ghost records = table::record_models(table.records@);
        let mut out: Vec<FileBar> = Vec::new();
        let n: usize = table.records.len();
        for i in 0..n
            invariant
                n == table.records@.len(),
                n < usize::MAX,
                path@ == self.path@,
                records == table::record_models(table.records@),
                table::line_model(table.header) is Ok,
                csv_source::located(
                    self.path@,
                    table::column_names(table::line_model(table.header)->Ok_0),
                ) == Ok::<Columns, Seq<char>>(columns),
                file_rows(self.path@, columns, records, i as int) matches Ok(rows) && rows.len() == i
                    && out@.len() == i && forall|k: int|
                    0 <= k < i ==> (#[trigger] out@[k]).shows(rows[k]),
        {
            proof {
                file_rows_stay_wrong(self.path@, columns, records, i + 1, n as int);
            }
            let line: u64 = i as u64 + 2;
            match &table.records[i] {
                Err(e) => {
                    return Err(refusal(path, line, e));
                },
                Ok(record) => {
                    let time: Result<i64, String> = parse_time(&field(record, columns.time).text);
                    match read_price_row(path, line, columns, record, time) {
                        Err(e) => {
                            return Err(e);
                        },
                        Ok(row) => {
                            let PriceRow { symbol, interval, time_ms, candle } = row;
                            out.push(
                                FileBar { symbol, interval, time: Timestamp(time_ms), candle },
                            );
                        },
                    }
                },
            }
        }
        Ok(out)
    }
}

/// A time is the instant that it names, to the millisecond, else a stamp in
/// milliseconds.
pub proof fn a_file_time_is_in_milliseconds(cell: Seq<char>, seconds: i64, millis: u16)
    requires
        -1_000_000_000_000 <= seconds <= 1_000_000_000_000,
        millis < 1000,
    ensures
        file_time_of(cell, Some((seconds, millis))) matches Ok(t) && t == 1000 * seconds + millis,
        text::parsed_signed(text::trimmed(cell)) matches Some(n) ==> (file_time_of(cell, None)
            matches Ok(t) && t == n),
        text::parsed_signed(text::trimmed(cell)) is None ==> file_time_of(cell, None) is Err,
{
}

/// A file's rows are those of its records, one for each and in their order.
pub proof fn file_rows_are_those_of_the_records(
    path: Seq<char>,
    columns: Columns,
    records: Seq<Result<Seq<CellModel>, Seq<char>>>,
    n: int,
)
    requires
        0 <= n <= records.len(),
        file_rows(path, columns, records, n) is Ok,
    ensures
        ({
            let rows = file_rows(path, columns, records, n)->Ok_0;
            &&& rows.len() == n
            &&& forall|i: int|
                0 <= i < n ==> records[i] is Ok && csv_source::price_row(
                    path,
                    (i + 2) as nat,
                    columns,
                    records[i]->Ok_0,
                    Ok((#[trigger] rows[i]).time_ms),
                ) == Ok::<PriceRowModel, Seq<char>>(rows[i]) && file_time(
                    csv_source::field_of(records[i]->Ok_0, columns.time as int).text,
                ) == Ok::<i64, Seq<char>>(rows[i].time_ms)
        }),
    decreases n,
{
    if n > 0 {
        file_rows_are_those_of_the_records(path, columns, records, n - 1);
        let rows = file_rows(path, columns, records, n)->Ok_0;
        let before = file_rows(path, columns, records, n - 1)->Ok_0;
        assert forall|i: int| 0 <= i < n - 1 implies #[trigger] rows[i] == before[i] by {}
    }
}

} // verus!
