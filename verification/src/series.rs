//! One `--series` argument and the rows it loads.
//!
//! An argument is a list of terms, separated by commas: `key=value` is a literal
//! column that every row gets, `@path` a table whose rows are loaded.

use std::str::FromStr;

use vstd::prelude::*;

use crate::csv_source;
use crate::number::Real;
use crate::ordmap::OrdMap;
use crate::ordmap;
use crate::table::{normalize_header, to_lowercase, Cell, CellModel, NumberedTable};
use crate::table;
use crate::text;

verus! {

// ---------------------------------------------------------------------------
// Arguments
// ---------------------------------------------------------------------------

/// One `--series` argument.
#[derive(Debug, Clone)]
pub struct SeriesSpec {
    /// The argument as it was given.
    pub raw: String,
    /// The literal columns: name in lower case, and value.
    pub literals: Vec<(String, String)>,
    /// The files whose rows are loaded, in order.
    pub files: Vec<String>,
}

/// The terms of an argument as values: literal columns and files.
pub struct Terms {
    pub literals: Seq<(Seq<char>, Seq<char>)>,
    pub files: Seq<Seq<char>>,
}

/// Pairs of strings as values.
pub open spec fn pair_texts(v: Seq<(String, String)>) -> Seq<(Seq<char>, Seq<char>)> {
    Seq::new(v.len(), |i: int| (v[i].0@, v[i].1@))
}

impl View for SeriesSpec {
    type V = Terms;

    open spec fn view(&self) -> Terms {
        Terms { literals: pair_texts(self.literals@), files: text::texts(self.files@) }
    }
}

/// A text without the pair of equal quotes around it, where it has one.
pub open spec fn unquoted(s: Seq<char>) -> Seq<char> {
    if s.len() >= 2 && (s[0] == '\'' || s[0] == '"') && s.last() == s[0] {
        s.subrange(1, s.len() - 1)
    } else {
        s
    }
}

/// A text without the pair of equal quotes around it, where it has one.
pub fn unquote<'a>(s: &'a str) -> (out: &'a str)
    ensures
        out@ == unquoted(s@),
{
    let chars: Vec<char> = text::chars_of(s);
    let n: usize = chars.len();
    if n >= 2 && (chars[0] == '\'' || chars[0] == '"') && chars[n - 1] == chars[0] {
        s.substring_char(1, n - 1)
    } else {
        s
    }
}

/// What one term adds, or what is wrong with it. An empty term adds nothing.
pub open spec fn with_term(terms: Terms, piece: Seq<char>) -> Result<Terms, Seq<char>> {
    let term = text::trimmed(piece);
    if term.len() == 0 {
        Ok(terms)
    } else if term[0] == '@' {
        Ok(Terms { literals: terms.literals, files: terms.files.push(term.skip(1)) })
    } else {
        match text::split_at_first(term, '=') {
            Some((key, value)) => {
                let v = unquoted(text::trimmed(value));
                if v.contains('@') {
                    Err(
                        "series term `"@ + term
                            + "`: a literal value can't contain '@'. Series terms are separated by ',' — e.g. \"symbol=AAPL,@candles.csv\""@,
                    )
                } else {
                    Ok(
                        Terms {
                            literals: terms.literals.push(
                                (table::lowercase(text::trimmed(key)), v),
                            ),
                            files: terms.files,
                        },
                    )
                }
            },
            None => Err(
                "series term `"@ + term
                    + "` is neither a `key=value` literal nor an `@file`"@,
            ),
        }
    }
}

/// What the first `n` terms add up to, or what is wrong with the first bad one.
pub open spec fn terms_upto(pieces: Seq<Seq<char>>, n: int) -> Result<Terms, Seq<char>>
    decreases n,
{
    if n <= 0 {
        Ok(Terms { literals: seq![], files: seq![] })
    } else {
        match terms_upto(pieces, n - 1) {
            Err(m) => Err(m),
            Ok(terms) => with_term(terms, pieces[n - 1]),
        }
    }
}

/// The terms of an argument, or what is wrong with it. It has to name a file.
pub open spec fn parsed_series(spec: Seq<char>) -> Result<Terms, Seq<char>> {
    let pieces = text::pieces(spec, ',');
    match terms_upto(pieces, pieces.len() as int) {
        Err(m) => Err(m),
        Ok(terms) => if terms.files.len() == 0 {
            Err(
                "series `"@ + spec
                    + "` loads no CSV: every series needs at least one `@file.csv` term (terms are separated by ',')"@,
            )
        } else {
            Ok(terms)
        },
    }
}

proof fn terms_stay_wrong(pieces: Seq<Seq<char>>, k: int, n: int)
    requires
        0 <= k <= n,
    ensures
        terms_upto(pieces, k) is Err ==> terms_upto(pieces, n) == terms_upto(pieces, k),
    decreases n - k,
{
    if k < n {
        terms_stay_wrong(pieces, k, n - 1);
    }
}

fn holds_at_sign(s: &str) -> (out: bool)
    ensures
        out == s@.contains('@'),
{
    let chars: Vec<char> = text::chars_of(s);
    let k: usize = text::find(&chars, '@');
    proof {
        text::position_is_first(s@, '@');
        if k < s@.len() {
            assert(s@[k as int] == '@');
        }
    }
    k < chars.len()
}

/// A literal column or a file.
enum Term {
    Nothing,
    File(String),
    Literal(String, String),
}

/// What a term is, or what is wrong with it.
fn read_term(piece: &str) -> (out: Result<Term, String>)
    ensures
        forall|terms: Terms|
            match (out, #[trigger] with_term(terms, piece@)) {
                (Err(e), Err(m)) => e@ == m,
                (Ok(Term::Nothing), Ok(after)) => after == terms,
                (Ok(Term::File(f)), Ok(after)) => after == (Terms {
                    literals: terms.literals,
                    files: terms.files.push(f@),
                }),
                (Ok(Term::Literal(k, v)), Ok(after)) => after == (Terms {
                    literals: terms.literals.push((k@, v@)),
                    files: terms.files,
                }),
                _ => false,
            },
{
    let term = text::trim(piece);
    let chars: Vec<char> = text::chars_of(term);
    let n: usize = chars.len();
    if n == 0 {
        return Ok(Term::Nothing);
    }
    if chars[0] == '@' {
        let file: String = text::string_between(&chars, 1, n);
        assert(file@ =~= term@.skip(1));
        return Ok(Term::File(file));
    }
    match text::split_once(term, '=') {
        Some((key, value)) => {
            let value = unquote(text::trim(value));
            if holds_at_sign(value) {
                let mut message: String = "series term `".to_owned();
                message.append(term);
                message.append(
                    "`: a literal value can't contain '@'. Series terms are separated by ',' — e.g. \"symbol=AAPL,@candles.csv\"",
                );
                return Err(message);
            }
            Ok(Term::Literal(to_lowercase(text::trim(key)), value.to_owned()))
        },
        None => {
            let mut message: String = "series term `".to_owned();
            message.append(term);
            message.append("` is neither a `key=value` literal nor an `@file`");
            Err(message)
        },
    }
}

impl SeriesSpec {
    /// The argument that `spec` spells.
    pub fn parse(spec: &str) -> (out: Result<SeriesSpec, String>)
        ensures
            match (out, parsed_series(spec@)) {
                (Ok(s), Ok(terms)) => s.raw@ == spec@ && s@ == terms,
                (Err(e), Err(m)) => e@ == m,
                _ => false,
            },
    {
        let mut literals: Vec<(String, String)> = Vec::new();
        let mut files: Vec<String> = Vec::new();
        let pieces: Vec<String> = text::split(spec, ',');
        let ghost all = text::texts(pieces@);
        let n: usize = pieces.len();
        assert(pair_texts(literals@) =~= Seq::<(Seq<char>, Seq<char>)>::empty());
        assert(text::texts(files@) =~= Seq::<Seq<char>>::empty());
        for i in 0..n
            invariant
                n == pieces@.len(),
                all == text::texts(pieces@),
                all == text::pieces(spec@, ','),
                terms_upto(all, i as int) == Ok::<Terms, Seq<char>>(
                    Terms { literals: pair_texts(literals@), files: text::texts(files@) },
                ),
        {
            proof {
                terms_stay_wrong(all, i + 1, n as int);
            }
            let ghost before = Terms {
                literals: pair_texts(literals@),
                files: text::texts(files@),
            };
            let ghost next = with_term(before, all[i as int]);
            match read_term(&pieces[i]) {
                Err(e) => {
                    return Err(e);
                },
                Ok(Term::Nothing) => {},
                Ok(Term::File(f)) => {
                    let ghost old_files = files@;
                    files.push(f);
                    assert(text::texts(files@) =~= text::texts(old_files).push(f@));
                },
                Ok(Term::Literal(k, v)) => {
                    let ghost old_literals = literals@;
                    literals.push((k, v));
                    assert(pair_texts(literals@) =~= pair_texts(old_literals).push((k@, v@)));
                },
            }
        }
        if files.len() == 0 {
            let mut message: String = "series `".to_owned();
            message.append(spec);
            message.append(
                "` loads no CSV: every series needs at least one `@file.csv` term (terms are separated by ',')",
            );
            return Err(message);
        }
        Ok(SeriesSpec { raw: spec.to_owned(), literals, files })
    }
}

impl FromStr for SeriesSpec {
    type Err = String;

    fn from_str(s: &str) -> Result<SeriesSpec, String> {
        SeriesSpec::parse(s)
    }
}

// ---------------------------------------------------------------------------
// Rows
// ---------------------------------------------------------------------------

/// A row of a frame: its cells by the name of their column.
#[derive(Debug)]
pub struct Row {
    pub cells: OrdMap<String, Cell>,
}

/// A row as a mathematical map.
pub open spec fn row_map(m: Map<Seq<char>, Cell>) -> Map<Seq<char>, CellModel> {
    Map::new(|k: Seq<char>| m.dom().contains(k), |k: Seq<char>| m[k]@)
}

impl View for Row {
    type V = Map<Seq<char>, CellModel>;

    open spec fn view(&self) -> Map<Seq<char>, CellModel> {
        row_map(self.cells@)
    }
}

impl Row {
    /// Whether the cells are in order.
    pub open spec fn wf(&self) -> bool {
        self.cells.wf()
    }

    /// The row without cells.
    pub fn new() -> (out: Row)
        ensures
            out.wf(),
            out@ == Map::<Seq<char>, CellModel>::empty(),
    {
        let out: Row = Row { cells: OrdMap::new() };
        assert(out@ =~= Map::<Seq<char>, CellModel>::empty());
        out
    }

    /// The cell of a column, where the row has one.
    pub fn get(&self, name: &str) -> (out: Option<&Cell>)
        requires
            self.wf(),
        ensures
            match out {
                Some(c) => self@.dom().contains(name@) && c@ == self@[name@],
                None => !self@.dom().contains(name@),
            },
            table::cell_model(out) == (if self@.dom().contains(name@) {
                Some(self@[name@])
            } else {
                None
            }),
    {
        self.cells.get(&name.to_owned())
    }

    /// Give a column of the row this cell.
    pub fn set(&mut self, name: String, cell: Cell)
        requires
            old(self).wf(),
        ensures
            final(self).wf(),
            final(self)@ == old(self)@.insert(name@, cell@),
    {
        let ghost before = self.cells@;
        self.cells.insert(name, cell);
        assert(self@ =~= row_map(before).insert(name@, cell@));
    }

    /// Take over the cells of `other`; they win over those of the row.
    pub fn extend(&mut self, other: Row)
        requires
            old(self).wf(),
            other.wf(),
        ensures
            final(self).wf(),
            final(self)@ == old(self)@.union_prefer_right(other@),
    {
        let ghost start = self@;
        let ghost e = other.cells.entries@;
        let mut rest: Vec<(String, Cell)> = other.cells.entries;
        proof {
            assert(self@ =~= start.union_prefer_right(later(e, e.len() as int)));
        }
        while rest.len() > 0
            invariant
                self.wf(),
                ordmap::ascending(e),
                rest@ == e.take(rest@.len() as int),
                rest@.len() <= e.len(),
                self@ == start.union_prefer_right(later(e, rest@.len() as int)),
            decreases rest@.len(),
        {
            let ghost n = rest@.len() as int;
            let ghost before = self@;
            if let Some((name, cell)) = rest.pop() {
                proof {
                    assert((name, cell) == e[n - 1]);
                    later_grows(e, n);
                }
                self.set(name, cell);
                assert(self@ =~= start.union_prefer_right(later(e, n - 1)));
                assert(rest@ =~= e.take(n - 1));
            }
        }
        proof {
            assert(later(e, 0) =~= row_map(ordmap::map_of(e))) by {
                assert forall|k: Seq<char>| #[trigger] later(e, 0).dom().contains(k) <==> row_map(
                    ordmap::map_of(e),
                ).dom().contains(k) by {
                    if later(e, 0).dom().contains(k) {
                        let i = choose|i: int| 0 <= i < e.len() && (#[trigger] e[i]).0@ == k;
                        assert(ordmap::holds(e, k, i));
                    }
                    if ordmap::map_of(e).dom().contains(k) {
                        let i = choose|i: int| ordmap::holds(e, k, i);
                        assert(e[i].0@ == k);
                    }
                }
            }
        }
    }
}

/// The cells of the entries from `from` on.
spec fn later(e: Seq<(String, Cell)>, from: int) -> Map<Seq<char>, CellModel> {
    Map::new(
        |k: Seq<char>| exists|i: int| from <= i < e.len() && (#[trigger] e[i]).0@ == k,
        |k: Seq<char>| ordmap::map_of(e)[k]@,
    )
}

proof fn later_grows(e: Seq<(String, Cell)>, n: int)
    requires
        ordmap::ascending(e),
        0 < n <= e.len(),
    ensures
        later(e, n - 1) == later(e, n).insert(e[n - 1].0@, e[n - 1].1@),
{
    ordmap::place_is_unique(e, n - 1);
    assert forall|k: Seq<char>| #[trigger] later(e, n - 1).dom().contains(k) <==> later(e, n).insert(
        e[n - 1].0@,
        e[n - 1].1@,
    ).dom().contains(k) by {
        if later(e, n - 1).dom().contains(k) {
            let i = choose|i: int| n - 1 <= i < e.len() && (#[trigger] e[i]).0@ == k;
            if i >= n {
                assert(later(e, n).dom().contains(k));
            }
        }
        if later(e, n).dom().contains(k) {
            let i = choose|i: int| n <= i < e.len() && (#[trigger] e[i]).0@ == k;
            assert(e[i].0@ == k);
        }
        assert(e[n - 1].0@ == e[n - 1].0@);
    }
    assert(later(e, n - 1) =~= later(e, n).insert(e[n - 1].0@, e[n - 1].1@));
}

/// The row of a record: each column's cell, its text trimmed. Of columns with
/// the same name the last one counts; fields beyond the header do not.
pub open spec fn record_row(names: Seq<Seq<char>>, record: Seq<CellModel>, n: int) -> Map<
    Seq<char>,
    CellModel,
>
    decreases n,
{
    if n <= 0 {
        Map::empty()
    } else {
        record_row(names, record, n - 1).insert(
            names[n - 1],
            CellModel { text: text::trimmed(record[n - 1].text), number: record[n - 1].number },
        )
    }
}

/// How many columns a record fills.
pub open spec fn filled_columns(names: Seq<Seq<char>>, record: Seq<CellModel>) -> int {
    if names.len() <= record.len() {
        names.len() as int
    } else {
        record.len() as int
    }
}

/// `row` with each literal column set.
pub open spec fn with_literals(
    row: Map<Seq<char>, CellModel>,
    literals: Seq<(Seq<char>, CellModel)>,
) -> Map<Seq<char>, CellModel>
    decreases literals.len(),
{
    if literals.len() == 0 {
        row
    } else {
        with_literals(row, literals.drop_last()).insert(literals.last().0, literals.last().1)
    }
}

/// The literal columns of an argument with the numbers that their values spell.
pub open spec fn literal_cells(
    literals: Seq<(Seq<char>, Seq<char>)>,
    numbers: Seq<Option<Real>>,
) -> Seq<(Seq<char>, CellModel)> {
    Seq::new(
        literals.len(),
        |i: int|
            (
                literals[i].0,
                CellModel {
                    text: literals[i].1,
                    number: if i < numbers.len() {
                        numbers[i]
                    } else {
                        None
                    },
                },
            ),
    )
}

/// The rows of the first `n` records of the table at `path`, each with the
/// literal columns; or what is said of the first record that is wrong.
pub open spec fn table_rows(
    path: Seq<char>,
    names: Seq<Seq<char>>,
    records: Seq<Result<Seq<CellModel>, Seq<char>>>,
    literals: Seq<(Seq<char>, CellModel)>,
    n: int,
) -> Result<Seq<Map<Seq<char>, CellModel>>, Seq<char>>
    decreases n,
{
    if n <= 0 {
        Ok(seq![])
    } else {
        match table_rows(path, names, records, literals, n - 1) {
            Err(m) => Err(m),
            Ok(rows) => match records[n - 1] {
                Err(e) => Err("reading a row of `"@ + path + "`: "@ + e),
                Ok(record) => Ok(
                    rows.push(
                        with_literals(
                            record_row(names, record, filled_columns(names, record)),
                            literals,
                        ),
                    ),
                ),
            },
        }
    }
}

proof fn table_rows_stay_wrong(
    path: Seq<char>,
    names: Seq<Seq<char>>,
    records: Seq<Result<Seq<CellModel>, Seq<char>>>,
    literals: Seq<(Seq<char>, CellModel)>,
    k: int,
    n: int,
)
    requires
        0 <= k <= n,
    ensures
        table_rows(path, names, records, literals, k) is Err ==> table_rows(
            path,
            names,
            records,
            literals,
            n,
        ) == table_rows(path, names, records, literals, k),
    decreases n - k,
{
    if k < n {
        table_rows_stay_wrong(path, names, records, literals, k, n - 1);
    }
}

/// The rows of the table at `path`, or what is said of the first thing that is
/// wrong with it.
pub open spec fn file_rows(
    path: Seq<char>,
    table: NumberedTable,
    literals: Seq<(Seq<char>, CellModel)>,
) -> Result<Seq<Map<Seq<char>, CellModel>>, Seq<char>> {
    match table::line_model(table.header) {
        Err(e) => Err("reading header of `"@ + path + "`: "@ + e),
        Ok(fields) => table_rows(
            path,
            table::column_names(fields),
            table::record_models(table.records@),
            literals,
            table.records@.len() as int,
        ),
    }
}

/// Rows as values.
pub open spec fn row_models(v: Seq<Row>) -> Seq<Map<Seq<char>, CellModel>> {
    Seq::new(v.len(), |i: int| v[i]@)
}

/// Whether all rows are in order.
pub open spec fn all_wf(v: Seq<Row>) -> bool {
    forall|i: int| 0 <= i < v.len() ==> (#[trigger] v[i]).wf()
}

fn read_record(names: &[String], record: &[Cell]) -> (out: Row)
    ensures
        out.wf(),
        out@ == record_row(
            text::texts(names@),
            table::cells(record@),
            filled_columns(text::texts(names@), table::cells(record@)),
        ),
{
    let n: usize = if names.len() <= record.len() {
        names.len()
    } else {
        record.len()
    };
    let mut row: Row = Row::new();
    for i in 0..n
        invariant
            n <= names@.len(),
            n <= record@.len(),
            row.wf(),
            row@ == record_row(text::texts(names@), table::cells(record@), i as int),
    {
        let cell: Cell = Cell {
            text: text::trim(&record[i].text).to_owned(),
            number: record[i].number,
        };
        row.set(names[i].clone(), cell);
    }
    row
}

fn set_literals(row: &mut Row, literals: &[(String, Cell)])
    requires
        old(row).wf(),
    ensures
        final(row).wf(),
        final(row)@ == with_literals(old(row)@, literal_models(literals@)),
{
    let ghost start = row@;
    let ghost all = literal_models(literals@);
    let n: usize = literals.len();
    assert(all.take(0) =~= Seq::<(Seq<char>, CellModel)>::empty());
    for i in 0..n
        invariant
            n == literals@.len(),
            all == literal_models(literals@),
            row.wf(),
            row@ == with_literals(start, all.take(i as int)),
    {
        assert(all.take(i + 1).drop_last() =~= all.take(i as int));
        row.set(literals[i].0.clone(), literals[i].1.copy());
    }
    assert(all.take(n as int) =~= all);
}

/// Literal columns as values.
pub open spec fn literal_models(v: Seq<(String, Cell)>) -> Seq<(Seq<char>, CellModel)> {
    Seq::new(v.len(), |i: int| (v[i].0@, v[i].1@))
}

/// What a `--series` argument loads: the table of each of its files, and the
/// numbers that its literals spell.
#[derive(Debug)]
pub struct SeriesData {
    pub tables: Vec<NumberedTable>,
    pub literal_numbers: Vec<Option<Real>>,
}

/// The rows of the first `n` files of an argument, or what is said of the first
/// thing that is wrong.
pub open spec fn series_rows(spec: Terms, data: SeriesData, n: int) -> Result<
    Seq<Map<Seq<char>, CellModel>>,
    Seq<char>,
>
    decreases n,
{
    if n <= 0 {
        Ok(seq![])
    } else {
        match series_rows(spec, data, n - 1) {
            Err(m) => Err(m),
            Ok(rows) => match file_rows(
                spec.files[n - 1],
                data.tables@[n - 1],
                literal_cells(spec.literals, data.literal_numbers@),
            ) {
                Err(m) => Err(m),
                Ok(more) => Ok(rows + more),
            },
        }
    }
}

proof fn series_rows_stay_wrong(spec: Terms, data: SeriesData, k: int, n: int)
    requires
        0 <= k <= n,
    ensures
        series_rows(spec, data, k) is Err ==> series_rows(spec, data, n) == series_rows(
            spec,
            data,
            k,
        ),
    decreases n - k,
{
    if k < n {
        series_rows_stay_wrong(spec, data, k, n - 1);
    }
}

/// The rows of the table at `path`, each with the literal columns, which win
/// over columns of the same name.
pub fn read_rows(path: &str, table: &NumberedTable, literals: &[(String, Cell)]) -> (out: Result<
    Vec<Row>,
    String,
>)
    ensures
        match (out, file_rows(path@, *table, literal_models(literals@))) {
            (Ok(v), Ok(m)) => row_models(v@) == m && all_wf(v@),
            (Err(e), Err(m)) => e@ == m,
            _ => false,
        },
{
    let header: &Vec<String> = match &table.header {
        Ok(fields) => fields,
        Err(e) => {
            let mut message: String = "reading header of `".to_owned();
            message.append(path);
            message.append("`: ");
            message.append(e);
            return Err(message);
        },
    };
    let names: Vec<String> = normalize_header(header);
    let ghost columns = text::texts(names@);
    let ghost records = table::record_models(table.records@);
    let ghost fixed = literal_models(literals@);
    let mut out: Vec<Row> = Vec::new();
    let n: usize = table.records.len();
    assert(row_models(out@) =~= Seq::<Map<Seq<char>, CellModel>>::empty());
    for i in 0..n
        invariant
            n == table.records@.len(),
            table::line_model(table.header) is Ok,
            columns == text::texts(names@),
            columns == table::column_names(table::line_model(table.header)->Ok_0),
            records == table::record_models(table.records@),
            fixed == literal_models(literals@),
            all_wf(out@),
            table_rows(path@, columns, records, fixed, i as int) == Ok::<
                Seq<Map<Seq<char>, CellModel>>,
                Seq<char>,
            >(row_models(out@)),
    {
        proof {
            table_rows_stay_wrong(path@, columns, records, fixed, i + 1, n as int);
        }
        match &table.records[i] {
            Err(e) => {
                let mut message: String = "reading a row of `".to_owned();
                message.append(path);
                message.append("`: ");
                message.append(e);
                return Err(message);
            },
            Ok(record) => {
                let mut row: Row = read_record(&names, record);
                set_literals(&mut row, literals);
                let ghost before = out@;
                out.push(row);
                assert(row_models(out@) =~= row_models(before).push(row@));
            },
        }
    }
    Ok(out)
}

impl SeriesSpec {
    /// The rows that the argument loads: those of its files in order, each with
    /// the literal columns.
    pub fn rows(&self, data: &SeriesData) -> (out: Result<Vec<Row>, String>)
        requires
            data.tables@.len() == self.files@.len(),
        ensures
            match (out, series_rows(self@, *data, self.files@.len() as int)) {
                (Ok(v), Ok(m)) => row_models(v@) == m && all_wf(v@),
                (Err(e), Err(m)) => e@ == m,
                _ => false,
            },
    {
        let mut literals: Vec<(String, Cell)> = Vec::new();
        let m: usize = self.literals.len();
        let ghost fixed = literal_cells(self@.literals, data.literal_numbers@);
        for i in 0..m
            invariant
                m == self.literals@.len(),
                fixed == literal_cells(self@.literals, data.literal_numbers@),
                literals@.len() == i,
                forall|k: int|
                    0 <= k < i ==> ((#[trigger] literals@[k]).0@, literals@[k].1@) == fixed[k],
        {
            let number: Option<Real> = if i < data.literal_numbers.len() {
                data.literal_numbers[i]
            } else {
                None
            };
            let cell: Cell = Cell { text: self.literals[i].1.clone(), number };
            literals.push((self.literals[i].0.clone(), cell));
        }
        assert(literal_models(literals@) =~= fixed);
        let mut out: Vec<Row> = Vec::new();
        let n: usize = self.files.len();
        assert(row_models(out@) =~= Seq::<Map<Seq<char>, CellModel>>::empty());
        for i in 0..n
            invariant
                n == self.files@.len(),
                n == data.tables@.len(),
                fixed == literal_cells(self@.literals, data.literal_numbers@),
                literal_models(literals@) == fixed,
                all_wf(out@),
                series_rows(self@, *data, i as int) == Ok::<
                    Seq<Map<Seq<char>, CellModel>>,
                    Seq<char>,
                >(row_models(out@)),
        {
            proof {
                series_rows_stay_wrong(self@, *data, i + 1, n as int);
            }
            match read_rows(&self.files[i], &data.tables[i], &literals) {
                Err(e) => {
                    return Err(e);
                },
                Ok(rows) => {
                    let ghost before = out@;
                    let ghost more = rows@;
                    let mut rows = rows;
                    out.append(&mut rows);
                    assert(row_models(out@) =~= row_models(before) + row_models(more));
                },
            }
        }
        Ok(out)
    }
}

/// A record's cells stand under the header's own names, without the white space around
/// them; of two columns with one name the later one counts.
pub proof fn a_record_stands_under_its_header(
    names: Seq<Seq<char>>,
    record: Seq<CellModel>,
    n: int,
    i: int,
)
    requires
        0 <= i < n <= names.len(),
        n <= record.len(),
        forall|j: int| i < j < n ==> #[trigger] names[j] != names[i],
    ensures
        record_row(names, record, n).dom().contains(names[i]),
        record_row(names, record, n)[names[i]].text == text::trimmed(record[i].text),
        record_row(names, record, n)[names[i]].number == record[i].number,
    decreases n,
{
    if i < n - 1 {
        assert(names[n - 1] != names[i]);
        a_record_stands_under_its_header(names, record, n - 1, i);
    }
}

/// A row has no column that its header does not name.
pub proof fn a_record_has_only_its_header(
    names: Seq<Seq<char>>,
    record: Seq<CellModel>,
    n: int,
    name: Seq<char>,
)
    requires
        0 <= n <= names.len(),
        n <= record.len(),
        record_row(names, record, n).dom().contains(name),
    ensures
        exists|i: int| 0 <= i < n && #[trigger] names[i] == name,
    decreases n,
{
    if n > 0 {
        if names[n - 1] != name {
            a_record_has_only_its_header(names, record, n - 1, name);
        }
    }
}

/// A literal wins over the cell of its column, the last of several over the others;
/// every other column stays as it is.
pub proof fn literals_win_over_cells(
    row: Map<Seq<char>, CellModel>,
    literals: Seq<(Seq<char>, CellModel)>,
    name: Seq<char>,
    i: int,
)
    ensures
        (forall|j: int| 0 <= j < literals.len() ==> (#[trigger] literals[j]).0 != name) ==> (
        with_literals(row, literals).dom().contains(name) <==> row.dom().contains(name)) && (
        row.dom().contains(name) ==> with_literals(row, literals)[name] == row[name]),
        0 <= i < literals.len() && literals[i].0 == name && (forall|j: int|
            i < j < literals.len() ==> (#[trigger] literals[j]).0 != name) ==> with_literals(
            row,
            literals,
        ).dom().contains(name) && with_literals(row, literals)[name] == literals[i].1,
    decreases literals.len(),
{
    if literals.len() > 0 {
        let less = literals.drop_last();
        literals_win_over_cells(row, less, name, i);
        assert(forall|j: int| 0 <= j < less.len() ==> #[trigger] less[j] == literals[j]);
        assert(literals[literals.len() - 1] == literals.last());
    }
}

/// Whether a row is that of a record: its cells under the header's names, with the
/// literals over them.
pub open spec fn is_row_of(
    row: Map<Seq<char>, CellModel>,
    names: Seq<Seq<char>>,
    record: Result<Seq<CellModel>, Seq<char>>,
    literals: Seq<(Seq<char>, CellModel)>,
) -> bool {
    record matches Ok(cells) && row == with_literals(
        record_row(names, cells, filled_columns(names, cells)),
        literals,
    )
}

/// The rows of a table are one for each record, in their order.
pub proof fn a_table_has_a_row_for_each_record(
    path: Seq<char>,
    names: Seq<Seq<char>>,
    records: Seq<Result<Seq<CellModel>, Seq<char>>>,
    literals: Seq<(Seq<char>, CellModel)>,
    n: int,
)
    requires
        0 <= n <= records.len(),
        table_rows(path, names, records, literals, n) is Ok,
    ensures
        ({
            let rows = table_rows(path, names, records, literals, n)->Ok_0;
            &&& rows.len() == n
            &&& forall|i: int|
                0 <= i < n ==> is_row_of(#[trigger] rows[i], names, records[i], literals)
        }),
    decreases n,
{
    if n > 0 {
        a_table_has_a_row_for_each_record(path, names, records, literals, n - 1);
        let rows = table_rows(path, names, records, literals, n)->Ok_0;
        let before = table_rows(path, names, records, literals, n - 1)->Ok_0;
        assert forall|i: int| 0 <= i < n implies is_row_of(
            #[trigger] rows[i],
            names,
            records[i],
            literals,
        ) by {
            if i < n - 1 {
                assert(rows[i] == before[i]);
            }
        }
    }
}

/// A term behind an `@` adds a file and nothing else; a key and a value, with an equals
/// sign between them, add a literal and nothing else. A blank term adds nothing.
pub proof fn a_term_adds_one_thing(
    terms: Terms,
    path: Seq<char>,
    key: Seq<char>,
    value: Seq<char>,
)
    requires
        path.len() > 0 && !text::is_space(path.last()),
        key.len() > 0 && !text::is_space(key[0]) && !text::is_space(key.last()) && key[0] != '@',
        forall|i: int| 0 <= i < key.len() ==> key[i] != '=',
        value.len() > 0 && !text::is_space(value[0]) && !text::is_space(value.last()),
        value[0] != '"' && value[0] != '\'',
        !value.contains('@'),
    ensures
        with_term(terms, seq!['@'] + path) == Ok::<Terms, Seq<char>>(
            Terms { literals: terms.literals, files: terms.files.push(path) },
        ),
        with_term(terms, key + seq!['='] + value) == Ok::<Terms, Seq<char>>(
            Terms {
                literals: terms.literals.push((table::lowercase(key), value)),
                files: terms.files,
            },
        ),
        with_term(terms, seq![]) == Ok::<Terms, Seq<char>>(terms),
{
    let file = seq!['@'] + path;
    text::white_space('@');
    assert(file[0] == '@' && file.last() == path.last());
    text::trimmed_stays(file);
    assert(file.skip(1) =~= path);
    let literal = key + seq!['='] + value;
    let n = key.len() as int;
    assert(literal[0] == key[0] && literal.last() == value.last());
    text::trimmed_stays(literal);
    text::position_at(literal, '=', n);
    assert(literal.take(n) =~= key && literal.skip(n + 1) =~= value);
    text::trimmed_stays(key);
    text::trimmed_stays(value);
    text::trimmed_stays(Seq::<char>::empty());
}

/// A series has the rows of its files, one file after the other.
pub proof fn files_follow_each_other(spec: Terms, data: SeriesData, n: int)
    requires
        n > 0,
        series_rows(spec, data, n) is Ok,
    ensures
        series_rows(spec, data, n - 1) is Ok,
        file_rows(
            spec.files[n - 1],
            data.tables@[n - 1],
            literal_cells(spec.literals, data.literal_numbers@),
        ) is Ok,
        series_rows(spec, data, n)->Ok_0 == series_rows(spec, data, n - 1)->Ok_0 + file_rows(
            spec.files[n - 1],
            data.tables@[n - 1],
            literal_cells(spec.literals, data.literal_numbers@),
        )->Ok_0,
{
}

} // verus!
