//! Delimited tables: reading them, telling their delimiter, and telling the type
//! of a column by its cells.

use vstd::prelude::*;

use crate::market::{OverlayType, OverlayValue};
use crate::market::OverlayModel;
use crate::number::Real;
use crate::text;

verus! {

// ---------------------------------------------------------------------------
// Delimiters
// ---------------------------------------------------------------------------

/// The bytes before the first line feed.
pub open spec fn first_line(bytes: Seq<u8>) -> Seq<u8>
    decreases bytes.len(),
{
    if bytes.len() == 0 || bytes[0] == 10 {
        seq![]
    } else {
        seq![bytes[0]] + first_line(bytes.skip(1))
    }
}

/// How often `b` occurs.
pub open spec fn occurrences(bytes: Seq<u8>, b: u8) -> nat
    decreases bytes.len(),
{
    if bytes.len() == 0 {
        0
    } else {
        occurrences(bytes.skip(1), b) + (if bytes[0] == b {
            1nat
        } else {
            0
        })
    }
}

/// The delimiter of a header line: of `;`, `,`, tab and `|` the one that occurs
/// most often, the earlier of equals; `,` where none occurs.
pub open spec fn likely_delimiter(header: Seq<u8>) -> u8 {
    let semicolons = occurrences(header, 59);
    let commas = occurrences(header, 44);
    let tabs = occurrences(header, 9);
    let bars = occurrences(header, 124);
    if semicolons > 0 && semicolons >= commas && semicolons >= tabs && semicolons >= bars {
        59
    } else if commas >= tabs && commas >= bars {
        44
    } else if tabs >= bars {
        9
    } else {
        124
    }
}

fn count(bytes: &[u8], b: u8) -> (out: usize)
    ensures
        out == occurrences(first_line(bytes@), b),
{
    let n: usize = bytes.len();
    let mut i: usize = 0;
    let mut seen: usize = 0;
    assert(bytes@.skip(0) =~= bytes@);
    while i < n && bytes[i] != 10
        invariant
            n == bytes@.len(),
            i <= n,
            seen <= i,
            occurrences(first_line(bytes@), b) == seen + occurrences(
                first_line(bytes@.skip(i as int)),
                b,
            ),
        decreases n - i,
    {
        proof {
            let rest = bytes@.skip(i as int);
            assert(rest.skip(1) =~= bytes@.skip(i + 1));
            let line = first_line(rest);
            assert(line.skip(1) =~= first_line(rest.skip(1)));
        }
        if bytes[i] == b {
            seen = seen + 1;
        }
        i = i + 1;
    }
    seen
}

/// The delimiter of a table, by its header line.
pub fn detect_delimiter(bytes: &[u8]) -> (out: u8)
    ensures
        out == likely_delimiter(first_line(bytes@)),
{
    let mut best: u8 = 44;
    let mut most: usize = 0;
    let semicolons: usize = count(bytes, 59);
    if semicolons > most {
        best = 59;
        most = semicolons;
    }
    let commas: usize = count(bytes, 44);
    if commas > most {
        best = 44;
        most = commas;
    }
    let tabs: usize = count(bytes, 9);
    if tabs > most {
        best = 9;
        most = tabs;
    }
    let bars: usize = count(bytes, 124);
    if bars > most {
        best = 124;
    }
    best
}

// ---------------------------------------------------------------------------
// Records
// ---------------------------------------------------------------------------

/// A table as its reader gives it: the fields of the header and of each record,
/// or what the reader says against them.
#[derive(Debug)]
pub struct RawTable {
    pub header: Result<Vec<String>, String>,
    pub records: Vec<Result<Vec<String>, String>>,
}

/// A table as values.
pub struct TableModel {
    pub header: Result<Seq<Seq<char>>, Seq<char>>,
    pub records: Seq<Result<Seq<Seq<char>>, Seq<char>>>,
}

/// The fields of one line as values.
pub open spec fn line_model(line: Result<Vec<String>, String>) -> Result<Seq<Seq<char>>, Seq<char>> {
    match line {
        Ok(fields) => Ok(text::texts(fields@)),
        Err(e) => Err(e@),
    }
}

impl View for RawTable {
    type V = TableModel;

    open spec fn view(&self) -> TableModel {
        TableModel {
            header: line_model(self.header),
            records: Seq::new(self.records@.len(), |i: int| line_model(self.records@[i])),
        }
    }
}

/// What the reader of delimited tables makes of bytes under a delimiter.
pub uninterp spec fn delimited(bytes: Seq<u8>, delimiter: u8) -> TableModel;

/// `csv::ReaderBuilder` with this delimiter and its other settings as they are
/// by default, `headers` and then `records`, each with its fields or the text of
/// its error. How the bytes fall into records is not stated; it depends on them
/// and the delimiter alone.
#[verifier::external_body]
fn read_delimited(bytes: &[u8], delimiter: u8) -> (out: RawTable)
    ensures
        out@ == delimited(bytes@, delimiter),
{
    let mut reader = csv::ReaderBuilder::new().delimiter(delimiter).from_reader(bytes);
    let header = match reader.headers() {
        Ok(fields) => Ok(fields.iter().map(String::from).collect()),
        Err(e) => Err(e.to_string()),
    };
    let mut records = Vec::new();
    for record in reader.records() {
        records.push(match record {
            Ok(fields) => Ok(fields.iter().map(String::from).collect()),
            Err(e) => Err(e.to_string()),
        });
    }
    RawTable { header, records }
}

/// Read a table under the delimiter that its header line suggests.
pub fn read_table(bytes: &[u8]) -> (out: RawTable)
    ensures
        out@ == delimited(bytes@, likely_delimiter(first_line(bytes@))),
{
    let delimiter: u8 = detect_delimiter(bytes);
    read_delimited(bytes, delimiter)
}

/// What `str::to_lowercase` gives.
pub uninterp spec fn lowercase(text: Seq<char>) -> Seq<char>;

/// Whether all characters are ASCII.
pub open spec fn all_ascii(text: Seq<char>) -> bool {
    forall|i: int| 0 <= i < text.len() ==> #[trigger] text[i] < '\u{80}'
}

/// An ASCII capital as its small letter; any other character as it is.
pub open spec fn small(c: char) -> char {
    if 'A' <= c <= 'Z' {
        ((c as u32) + 32) as char
    } else {
        c
    }
}

/// `str::to_lowercase`. On ASCII text it turns capitals into small letters; what
/// it does beyond ASCII is named, and depends on the text alone.
#[verifier::external_body]
pub(crate) fn to_lowercase(s: &str) -> (out: String)
    ensures
        out@ == lowercase(s@),
        all_ascii(s@) ==> out@ == Seq::new(s@.len(), |i: int| small(s@[i])),
{
    s.to_lowercase()
}

/// The names of the columns: the header's fields, trimmed and in lower case.
pub open spec fn column_names(header: Seq<Seq<char>>) -> Seq<Seq<char>> {
    Seq::new(header.len(), |i: int| lowercase(text::trimmed(header[i])))
}

/// The names of the columns of a header.
pub fn normalize_header(header: &[String]) -> (out: Vec<String>)
    ensures
        text::texts(out@) == column_names(text::texts(header@)),
{
    let mut out: Vec<String> = Vec::new();
    let n: usize = header.len();
    for i in 0..n
        invariant
            n == header@.len(),
            out@.len() == i,
            forall|j: int|
                0 <= j < i ==> (#[trigger] out@[j])@ == lowercase(text::trimmed(header@[j]@)),
    {
        out.push(to_lowercase(text::trim(&header[i])));
    }
    assert(text::texts(out@) =~= column_names(text::texts(header@)));
    out
}

/// The place of the first column of a name, or the number of columns.
pub open spec fn name_place(names: Seq<Seq<char>>, name: Seq<char>) -> int
    decreases names.len(),
{
    if names.len() == 0 {
        0
    } else if names[0] == name {
        0
    } else {
        1 + name_place(names.skip(1), name)
    }
}

/// The place of the first column named `name`.
pub fn find_column(names: &[String], name: &str) -> (out: Option<usize>)
    ensures
        match out {
            Some(i) => i < names@.len() && i == name_place(text::texts(names@), name@),
            None => name_place(text::texts(names@), name@) == names@.len(),
        },
{
    let ghost all = text::texts(names@);
    let n: usize = names.len();
    let mut i: usize = 0;
    assert(all.skip(0) =~= all);
    while i < n
        invariant
            all == text::texts(names@),
            n == names@.len(),
            i <= n,
            name_place(all, name@) == i + name_place(all.skip(i as int), name@),
        decreases n - i,
    {
        if text::same(&names[i], name) {
            return Some(i);
        }
        assert(all.skip(i as int).skip(1) =~= all.skip(i + 1));
        i = i + 1;
    }
    None
}

// ---------------------------------------------------------------------------
// Cells
// ---------------------------------------------------------------------------

/// One cell of a table: its text, and the number that the text spells without
/// the white space around it.
#[derive(Debug, Clone)]
pub struct Cell {
    pub text: String,
    pub number: Option<Real>,
}

/// A cell as values.
pub struct CellModel {
    pub text: Seq<char>,
    pub number: Option<Real>,
}

impl View for Cell {
    type V = CellModel;

    open spec fn view(&self) -> CellModel {
        CellModel { text: self.text@, number: self.number }
    }
}

impl Cell {
    /// A copy of the cell.
    pub fn copy(&self) -> (out: Cell)
        ensures
            out@ == self@,
    {
        Cell { text: self.text.clone(), number: self.number }
    }
}

/// The cells of a record as values.
pub open spec fn cells(v: Seq<Cell>) -> Seq<CellModel> {
    Seq::new(v.len(), |i: int| v[i]@)
}

/// A table whose cells have been read as numbers where they spell some.
#[derive(Debug)]
pub struct NumberedTable {
    pub header: Result<Vec<String>, String>,
    pub records: Vec<Result<Vec<Cell>, String>>,
}

/// A record as values.
pub open spec fn record_model(record: Result<Vec<Cell>, String>) -> Result<
    Seq<CellModel>,
    Seq<char>,
> {
    match record {
        Ok(v) => Ok(cells(v@)),
        Err(e) => Err(e@),
    }
}

/// Records as values.
pub open spec fn record_models(records: Seq<Result<Vec<Cell>, String>>) -> Seq<
    Result<Seq<CellModel>, Seq<char>>,
> {
    Seq::new(records.len(), |i: int| record_model(records[i]))
}

/// The number at a place of a list of rows, where there is one.
pub open spec fn number_at(numbers: Seq<Vec<Option<Real>>>, row: int, column: int) -> Option<Real> {
    if 0 <= row < numbers.len() && 0 <= column < numbers[row]@.len() {
        numbers[row]@[column]
    } else {
        None
    }
}

/// A record of a raw table with the numbers of its fields.
pub open spec fn numbered(
    record: Result<Seq<Seq<char>>, Seq<char>>,
    numbers: Seq<Vec<Option<Real>>>,
    row: int,
) -> Result<Seq<CellModel>, Seq<char>> {
    match record {
        Ok(fields) => Ok(
            Seq::new(
                fields.len(),
                |i: int| CellModel { text: fields[i], number: number_at(numbers, row, i) },
            ),
        ),
        Err(e) => Err(e),
    }
}

/// The table with the number that each field spells, row by row. A field for
/// which `numbers` has no entry spells none.
pub fn with_numbers(table: RawTable, numbers: &[Vec<Option<Real>>]) -> (out: NumberedTable)
    ensures
        line_model(out.header) == table@.header,
        out.records@.len() == table@.records.len(),
        forall|i: int|
            0 <= i < out.records@.len() ==> record_model(#[trigger] out.records@[i]) == numbered(
                table@.records[i],
                numbers@,
                i,
            ),
{
    let mut records: Vec<Result<Vec<Cell>, String>> = Vec::new();
    let n: usize = table.records.len();
    for i in 0..n
        invariant
            n == table.records@.len(),
            records@.len() == i,
            forall|k: int|
                0 <= k < i ==> record_model(#[trigger] records@[k]) == numbered(
                    table@.records[k],
                    numbers@,
                    k,
                ),
    {
        match &table.records[i] {
            Ok(fields) => {
                let mut row: Vec<Cell> = Vec::new();
                let m: usize = fields.len();
                for j in 0..m
                    invariant
                        m == fields@.len(),
                        row@.len() == j,
                        forall|k: int|
                            0 <= k < j ==> (#[trigger] row@[k])@ == (CellModel {
                                text: fields@[k]@,
                                number: number_at(numbers@, i as int, k),
                            }),
                {
                    let number: Option<Real> = if i < numbers.len() && j < numbers[i].len() {
                        numbers[i][j]
                    } else {
                        None
                    };
                    row.push(Cell { text: fields[j].clone(), number });
                }
                let ghost model = numbered(table@.records[i as int], numbers@, i as int);
                assert(cells(row@) =~= model->Ok_0);
                records.push(Ok(row));
            },
            Err(e) => {
                records.push(Err(e.clone()));
            },
        }
    }
    NumberedTable { header: table.header, records }
}

/// Whether two texts are the same but for the case of ASCII letters.
pub open spec fn same_but_case(a: Seq<char>, b: Seq<char>) -> bool {
    a.len() == b.len() && forall|i: int| 0 <= i < a.len() ==> small(#[trigger] a[i]) == small(b[i])
}

fn small_letter(c: char) -> (out: char)
    ensures
        out == small(c),
{
    if 'A' <= c && c <= 'Z' {
        ((c as u8) + 32) as char
    } else {
        c
    }
}

/// Whether two texts are the same but for the case of ASCII letters.
pub fn equal_ignoring_case(a: &str, b: &str) -> (out: bool)
    ensures
        out == same_but_case(a@, b@),
{
    let x: Vec<char> = text::chars_of(a);
    let y: Vec<char> = text::chars_of(b);
    if x.len() != y.len() {
        return false;
    }
    let n: usize = x.len();
    for i in 0..n
        invariant
            x@ == a@,
            y@ == b@,
            n == x@.len(),
            n == y@.len(),
            forall|j: int| 0 <= j < i ==> small(#[trigger] x@[j]) == small(y@[j]),
    {
        if small_letter(x[i]) != small_letter(y[i]) {
            assert(small(a@[i as int]) != small(b@[i as int]));
            return false;
        }
    }
    true
}

/// Whether a text is `true` or `false`, in any case.
pub open spec fn is_bool_word(s: Seq<char>) -> bool {
    same_but_case(s, "true"@) || same_but_case(s, "false"@)
}

/// What the cells of a column so far allow its type to be.
#[derive(Debug, Clone, Copy, PartialEq, Eq, Structural)]
pub struct ColumnState {
    /// Every cell that is not blank is `true` or `false`.
    pub bool_ok: bool,
    /// Every cell that is not blank is a number.
    pub real_ok: bool,
    /// There was a cell that is not blank.
    pub seen_any: bool,
}

/// Whether a cell holds nothing but white space.
pub open spec fn blank(cell: CellModel) -> bool {
    text::trimmed(cell.text).len() == 0
}

/// Whether the cells of a column allow it to hold truth values.
pub open spec fn all_bools(cells: Seq<CellModel>) -> bool {
    forall|i: int|
        0 <= i < cells.len() && !blank(#[trigger] cells[i]) ==> is_bool_word(
            text::trimmed(cells[i].text),
        )
}

/// Whether the cells of a column allow it to hold numbers.
pub open spec fn all_reals(cells: Seq<CellModel>) -> bool {
    forall|i: int|
        0 <= i < cells.len() && !blank(#[trigger] cells[i]) ==> cells[i].number is Some
}

/// Whether some cell of a column is not blank.
pub open spec fn some_seen(cells: Seq<CellModel>) -> bool {
    exists|i: int| 0 <= i < cells.len() && !blank(#[trigger] cells[i])
}

/// The type of a column by its cells: truth values where all cells that are not
/// blank are such, else numbers where they are, else texts. A column of blank
/// cells holds texts.
pub open spec fn column_type(cells: Seq<CellModel>) -> OverlayType {
    if some_seen(cells) && all_bools(cells) {
        OverlayType::Bool
    } else if some_seen(cells) && all_reals(cells) {
        OverlayType::Real
    } else {
        OverlayType::Str
    }
}

impl ColumnState {
    /// Whether the state sums up these cells.
    pub open spec fn sums_up(self, cells: Seq<CellModel>) -> bool {
        &&& self.bool_ok == all_bools(cells)
        &&& self.real_ok == all_reals(cells)
        &&& self.seen_any == some_seen(cells)
    }

    /// The state before any cell.
    pub fn new() -> (out: ColumnState)
        ensures
            out.sums_up(seq![]),
    {
        ColumnState { bool_ok: true, real_ok: true, seen_any: false }
    }

    /// Take one more cell into account.
    pub fn observe(&mut self, cell: &Cell)
        ensures
            forall|cells: Seq<CellModel>|
                old(self).sums_up(cells) ==> #[trigger] final(self).sums_up(cells.push(cell@)),
    {
        let ghost before = *self;
        let trimmed = text::trim(&cell.text);
        if !trimmed.is_empty() {
            self.seen_any = true;
            if !(equal_ignoring_case(trimmed, "true") || equal_ignoring_case(trimmed, "false")) {
                self.bool_ok = false;
            }
            if cell.number.is_none() {
                self.real_ok = false;
            }
        }
        let ghost after = *self;
        assert forall|cells: Seq<CellModel>| before.sums_up(cells) implies #[trigger] after.sums_up(
            cells.push(cell@),
        ) by {
            let more = cells.push(cell@);
            assert(more[cells.len() as int] == cell@);
            assert forall|i: int| 0 <= i < cells.len() implies #[trigger] more[i] == cells[i] by {}
            if some_seen(cells) {
                let i = choose|i: int| 0 <= i < cells.len() && !blank(#[trigger] cells[i]);
                assert(!blank(more[i]));
            }
            if some_seen(more) {
                let i = choose|i: int| 0 <= i < more.len() && !blank(#[trigger] more[i]);
                if i < cells.len() {
                    assert(!blank(cells[i]));
                }
            }
            if all_bools(more) {
                assert forall|i: int| 0 <= i < cells.len() && !blank(#[trigger] cells[i]) implies is_bool_word(
                    text::trimmed(cells[i].text),
                ) by {
                    assert(!blank(more[i]));
                }
            }
            if all_reals(more) {
                assert forall|i: int| 0 <= i < cells.len() && !blank(#[trigger] cells[i]) implies cells[i].number is Some by {
                    assert(!blank(more[i]));
                }
            }
        }
    }

    /// The type of the column after all its cells.
    pub fn resolve(&self) -> (out: OverlayType)
        ensures
            forall|cells: Seq<CellModel>|
                #[trigger] self.sums_up(cells) ==> out == column_type(cells),
    {
        if self.seen_any && self.bool_ok {
            OverlayType::Bool
        } else if self.seen_any && self.real_ok {
            OverlayType::Real
        } else {
            OverlayType::Str
        }
    }
}

/// The value of a cell in a column of this type. A blank cell, or one that is
/// missing, is NaN, `false` or the empty text.
pub open spec fn overlay_of(cell: Option<CellModel>, ty: OverlayType) -> OverlayModel {
    let trimmed = match cell {
        Some(c) => text::trimmed(c.text),
        None => seq![],
    };
    match ty {
        OverlayType::Real => OverlayModel::Real(
            if trimmed.len() > 0 && cell->0.number is Some {
                cell->0.number->0
            } else {
                Real { bits: 0x7ff8_0000_0000_0000 }
            },
        ),
        OverlayType::Bool => OverlayModel::Bool(
            trimmed.len() > 0 && same_but_case(trimmed, "true"@),
        ),
        OverlayType::Str => OverlayModel::Str(trimmed),
    }
}

/// A cell as values, where there is one.
pub open spec fn cell_model(cell: Option<&Cell>) -> Option<CellModel> {
    match cell {
        Some(c) => Some(c@),
        None => None,
    }
}

/// The value of a cell in a column of this type.
pub fn cell_to_overlay(cell: Option<&Cell>, ty: OverlayType) -> (out: OverlayValue)
    ensures
        out@ == overlay_of(cell_model(cell), ty),
{
    let trimmed = match cell {
        Some(c) => text::trim(&c.text),
        None => {
            proof {
                reveal_strlit("");
                assert(""@ =~= Seq::<char>::empty());
            }
            ""
        },
    };
    match ty {
        OverlayType::Real => {
            let nan: Real = Real { bits: 0x7ff8_0000_0000_0000 };
            match cell {
                Some(c) => match c.number {
                    Some(r) => if trimmed.is_empty() {
                        OverlayValue::Real(nan)
                    } else {
                        OverlayValue::Real(r)
                    },
                    None => OverlayValue::Real(nan),
                },
                None => OverlayValue::Real(nan),
            }
        },
        OverlayType::Bool => OverlayValue::Bool(
            !trimmed.is_empty() && equal_ignoring_case(trimmed, "true"),
        ),
        OverlayType::Str => OverlayValue::Str(trimmed.to_owned()),
    }
}

/// How often a byte occurs is the number of places where it stands.
pub proof fn occurrences_are_counted(bytes: Seq<u8>, b: u8)
    ensures
        occurrences(bytes, b) == bytes.filter(|x: u8| x == b).len(),
    decreases bytes.len(),
{
    reveal(Seq::filter);
    if bytes.len() > 0 {
        let rest = bytes.skip(1);
        occurrences_are_counted(rest, b);
        assert(bytes =~= seq![bytes[0]] + rest);
        Seq::filter_distributes_over_add(seq![bytes[0]], rest, |x: u8| x == b);
        assert(seq![bytes[0]].drop_last() =~= Seq::<u8>::empty());
        assert(seq![bytes[0]].drop_last().filter(|x: u8| x == b).len() == 0);
        assert(seq![bytes[0]].last() == bytes[0]);
    }
}

/// The delimiter of a header is one of `;`, `,`, tab and `|`, and none of the four
/// occurs more often. Without any of them it is the comma, and where a `;` occurs as
/// often as the others, the `;`.
pub proof fn the_most_frequent_mark_delimits(header: Seq<u8>)
    ensures
        ({
            let d = likely_delimiter(header);
            &&& d == 0x3b || d == 0x2c || d == 0x09 || d == 0x7c
            &&& occurrences(header, d) >= occurrences(header, 0x3b)
            &&& occurrences(header, d) >= occurrences(header, 0x2c)
            &&& occurrences(header, d) >= occurrences(header, 0x09)
            &&& occurrences(header, d) >= occurrences(header, 0x7c)
            &&& occurrences(header, d) == 0 ==> d == 0x2c
            &&& occurrences(header, 0x3b) > 0 && occurrences(header, d) == occurrences(header, 0x3b)
                ==> d == 0x3b
        }),
{
}

/// The header line is what stands before the first line end.
pub proof fn the_first_line_ends_at_a_line_end(bytes: Seq<u8>)
    ensures
        first_line(bytes).is_prefix_of(bytes),
        forall|i: int| 0 <= i < first_line(bytes).len() ==> #[trigger] first_line(bytes)[i] != 0x0a,
        first_line(bytes).len() < bytes.len() ==> bytes[first_line(bytes).len() as int] == 0x0a,
    decreases bytes.len(),
{
    if bytes.len() > 0 && bytes[0] != 10 {
        let rest = bytes.skip(1);
        the_first_line_ends_at_a_line_end(rest);
        let line = first_line(bytes);
        assert forall|i: int| 0 <= i < line.len() implies #[trigger] line[i] == bytes[i] && line[i]
            != 0x0a by {
            if i > 0 {
                assert(line[i] == first_line(rest)[i - 1]);
                assert(rest[i - 1] == bytes[i]);
            }
        }
    }
}

/// A column whose cells are all blank holds texts; blank cells say nothing else of
/// a column's type, and the order of the cells does not matter.
pub proof fn blank_cells_say_nothing(cells: Seq<CellModel>, cell: CellModel)
    requires
        text::trimmed(cell.text).len() == 0,
    ensures
        column_type(cells.push(cell)) == column_type(cells),
        (forall|i: int|
            0 <= i < cells.len() ==> text::trimmed((#[trigger] cells[i]).text).len() == 0)
            ==> column_type(cells) == OverlayType::Str,
{
    let more = cells.push(cell);
    assert(more[cells.len() as int] == cell);
    assert(forall|i: int| 0 <= i < cells.len() ==> #[trigger] more[i] == cells[i]);
    assert(forall|i: int| 0 <= i < cells.len() ==> #[trigger] cells[i] == more[i]);
    if some_seen(cells) {
        let i = choose|i: int| 0 <= i < cells.len() && !blank(#[trigger] cells[i]);
        assert(!blank(more[i]));
    }
    if all_bools(more) {
        assert(all_bools(cells));
    }
    if all_reals(more) {
        assert(all_reals(cells));
    }
}

/// A column is of booleans where every cell that is not blank is `true` or `false` in
/// any case, of numbers where every such cell is a number and not all are booleans,
/// and else of texts. One cell decides against both.
pub proof fn one_text_makes_a_column_of_texts(cells: Seq<CellModel>, k: int)
    requires
        0 <= k < cells.len(),
        text::trimmed(cells[k].text).len() > 0,
    ensures
        cells[k].number is None && !same_but_case(text::trimmed(cells[k].text), "true"@)
            && !same_but_case(text::trimmed(cells[k].text), "false"@) ==> column_type(cells)
            == OverlayType::Str,
        cells[k].number is Some && !same_but_case(text::trimmed(cells[k].text), "true"@)
            && !same_but_case(text::trimmed(cells[k].text), "false"@) ==> column_type(cells)
            != OverlayType::Bool,
        (same_but_case(text::trimmed(cells[k].text), "true"@) || same_but_case(
            text::trimmed(cells[k].text),
            "false"@,
        )) && cells[k].number is None ==> column_type(cells) != OverlayType::Real,
        (forall|i: int|
            0 <= i < cells.len() ==> (#[trigger] cells[i]).number is Some || text::trimmed(
                cells[i].text,
            ).len() == 0) ==> column_type(cells) != OverlayType::Str,
        (forall|i: int|
            0 <= i < cells.len() ==> same_but_case(
                text::trimmed((#[trigger] cells[i]).text),
                "true"@,
            ) || same_but_case(text::trimmed(cells[i].text), "false"@) || text::trimmed(
                cells[i].text,
            ).len() == 0) ==> column_type(cells) == OverlayType::Bool,
{
    assert(!blank(cells[k]));
    assert(some_seen(cells));
}

/// The value of a cell under a column's type: a number is the cell's own, and no
/// number where the cell has none; a boolean is true for `true` alone; a text is the
/// cell's without the white space around it. A cell that is missing is no number,
/// false, or the empty text.
pub proof fn overlays_are_their_cells(cell: CellModel)
    ensures
        cell.number is Some && text::trimmed(cell.text).len() > 0 ==> overlay_of(
            Some(cell),
            OverlayType::Real,
        ) == OverlayModel::Real(cell.number->0),
        cell.number is None ==> (overlay_of(Some(cell), OverlayType::Real) matches
            OverlayModel::Real(x) && x.nan()),
        overlay_of(None, OverlayType::Real) matches OverlayModel::Real(x) && x.nan(),
        overlay_of(Some(cell), OverlayType::Bool) == OverlayModel::Bool(
            same_but_case(text::trimmed(cell.text), "true"@),
        ),
        same_but_case(text::trimmed(cell.text), "false"@) ==> overlay_of(
            Some(cell),
            OverlayType::Bool,
        ) == OverlayModel::Bool(false),
        overlay_of(None, OverlayType::Bool) == OverlayModel::Bool(false),
        overlay_of(Some(cell), OverlayType::Str) == OverlayModel::Str(text::trimmed(cell.text)),
        overlay_of(None, OverlayType::Str) == OverlayModel::Str(Seq::<char>::empty()),
{
    reveal_strlit("true");
    reveal_strlit("false");
    assert("true"@.len() == 4 && "false"@.len() == 5);
}

/// A column is found under its own name, at the first place that has it.
pub proof fn a_name_is_found_at_its_place(names: Seq<Seq<char>>, name: Seq<char>)
    ensures
        0 <= name_place(names, name) <= names.len(),
        name_place(names, name) < names.len() <==> names.contains(name),
        name_place(names, name) < names.len() ==> names[name_place(names, name)] == name,
        forall|i: int| 0 <= i < name_place(names, name) ==> #[trigger] names[i] != name,
    decreases names.len(),
{
    if names.len() > 0 {
        if names[0] == name {
            assert(names.contains(name));
        } else {
            let rest = names.skip(1);
            a_name_is_found_at_its_place(rest, name);
            let p = name_place(names, name);
            assert forall|i: int| 0 <= i < p implies #[trigger] names[i] != name by {
                if i > 0 {
                    assert(rest[i - 1] == names[i]);
                }
            }
            if names.contains(name) {
                let k = choose|k: int| 0 <= k < names.len() && names[k] == name;
                assert(rest[k - 1] == name);
            } else if p < names.len() {
                assert(rest[p - 1] == names[p]);
            }
        }
    }
}

} // verus!
