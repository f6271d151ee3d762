//! Which cadence a run targets, and whether the input agrees.
//!
//! A loaded frame falls into groups, one per symbol and `freq` label. The census
//! of those groups decides, symbol by symbol, which group the run trades, and
//! says what is wrong or doubtful about it. Ambiguity is an error; disagreement
//! is a warning.

use vstd::prelude::*;

use crate::calendar::{detect_frequency_from_millis, pick_frequency, ScopedFrequency};
use crate::calendar;
use crate::data::{CadenceGroup, DataFrame, GroupModel, KeyModel, RowModel, TimeGroup, TimeGroupModel};
use crate::data;
use crate::frequency::Frequency;
use crate::frequency;
use crate::text;

verus! {

/// The bars a series needs before its label is doubted on the evidence of its
/// gaps.
pub const MIN_BARS_TO_ACCUSE: usize = 10;

/// Where the cadence that a series is said to run at comes from.
#[derive(Debug, Clone, Copy, PartialEq, Eq, Structural)]
pub enum Stated {
    /// The row's own `freq` column.
    Column,
    /// A `-f/--frequency` entry that covers the symbol.
    Flag,
}

impl Stated {
    /// The words for it.
    pub open spec fn words(self) -> Seq<char> {
        match self {
            Stated::Column => "the `freq` column"@,
            Stated::Flag => "`-f/--frequency`"@,
        }
    }

    /// The words for it.
    pub fn describe(self) -> (out: String)
        ensures
            out@ == self.words(),
    {
        match self {
            Stated::Column => "the `freq` column".to_owned(),
            Stated::Flag => "`-f/--frequency`".to_owned(),
        }
    }
}

// ---------------------------------------------------------------------------
// Series
// ---------------------------------------------------------------------------

/// Whether a stamp in milliseconds lies in the years from -9999 to 9999.
pub open spec fn datable(ms: i64) -> bool {
    -377_705_116_800_000 <= ms <= 253_402_300_799_999
}

/// Whether a stamp in milliseconds lies in the years from -9999 to 9999.
pub fn is_datable(ms: i64) -> (out: bool)
    ensures
        out == datable(ms),
{
    -377_705_116_800_000 <= ms && ms <= 253_402_300_799_999
}

/// The stamps that lie outside the calendar, in order.
pub open spec fn undatables(stamps: Seq<i64>) -> Seq<i64>
    decreases stamps.len(),
{
    if stamps.len() == 0 {
        stamps
    } else if datable(stamps.last()) {
        undatables(stamps.drop_last())
    } else {
        undatables(stamps.drop_last()).push(stamps.last())
    }
}

proof fn undatables_fit(stamps: Seq<i64>)
    ensures
        undatables(stamps).len() <= stamps.len(),
    decreases stamps.len(),
{
    if stamps.len() > 0 {
        undatables_fit(stamps.drop_last());
    }
}

/// One group of a loaded frame, and the two answers to "what cadence is this?"
/// that can disagree.
#[derive(Debug, Clone, PartialEq, Eq)]
pub struct Series {
    pub symbol: String,
    /// The `freq` cell as written; empty where the rows carried no label.
    pub freq: String,
    /// The cadence that the label spells, where it spells one.
    pub declared: Option<Frequency>,
    /// The cadence that the stamps imply.
    pub detected: Option<Frequency>,
    /// How many rows carry a stamp.
    pub bars: usize,
    /// How many stamps lie outside the calendar.
    pub undatable: usize,
    /// The first such stamp.
    pub undatable_example: Option<i64>,
}

impl Series {
    /// The group of `symbol` under the label `freq` with these stamps in
    /// ascending order.
    pub fn new(symbol: &str, freq: &str, stamps: &[i64]) -> (out: Series)
        ensures
            out.symbol@ == symbol@,
            out.freq@ == freq@,
            out.declared == (if freq@.len() == 0 {
                None
            } else {
                frequency::parsed_frequency(freq@)
            }),
            out.detected == calendar::detected(stamps@),
            out.bars == stamps@.len(),
            out.undatable == undatables(stamps@).len(),
            out.undatable_example == (if undatables(stamps@).len() == 0 {
                None
            } else {
                Some(undatables(stamps@)[0])
            }),
    {
        let declared: Option<Frequency> = if freq.is_empty() {
            None
        } else {
            match Frequency::parse(freq) {
                Ok(f) => Some(f),
                Err(_) => None,
            }
        };
        let mut undatable: usize = 0;
        let mut example: Option<i64> = None;
        let n: usize = stamps.len();
        for i in 0..n
            invariant
                n == stamps@.len(),
                undatable <= i,
                undatable == undatables(stamps@.take(i as int)).len(),
                example == (if undatable == 0 {
                    None
                } else {
                    Some(undatables(stamps@.take(i as int))[0])
                }),
        {
            assert(stamps@.take(i + 1).drop_last() =~= stamps@.take(i as int));
            if !is_datable(stamps[i]) {
                if undatable == 0 {
                    example = Some(stamps[i]);
                }
                undatable = undatable + 1;
            }
        }
        assert(stamps@.take(n as int) =~= stamps@);
        Series {
            symbol: symbol.to_owned(),
            freq: freq.to_owned(),
            declared,
            detected: detect_frequency_from_millis(stamps),
            bars: n,
            undatable,
            undatable_example: example,
        }
    }

    /// Whether the rows carried a label, be it one that spells no cadence.
    pub open spec fn labelled(self) -> bool {
        self.freq@.len() > 0
    }

    /// The cadence of the group by its label, else by its stamps.
    pub open spec fn cadence(self) -> Option<Frequency> {
        match self.declared {
            Some(f) => Some(f),
            None => self.detected,
        }
    }

    /// The name of the group: its label, or `<untagged>`.
    pub open spec fn tag(self) -> Seq<char> {
        if self.labelled() {
            self.freq@
        } else {
            "<untagged>"@
        }
    }

    /// Whether the rows carried a label, be it one that spells no cadence.
    pub fn is_labelled(&self) -> (out: bool)
        ensures
            out == self.labelled(),
    {
        !self.freq.as_str().is_empty()
    }

    /// The cadence of the group by its label, else by its stamps.
    pub fn effective(&self) -> (out: Option<Frequency>)
        ensures
            out == self.cadence(),
    {
        match self.declared {
            Some(f) => Some(f),
            None => self.detected,
        }
    }

    /// The name of the group: its label, or `<untagged>`.
    pub fn label(&self) -> (out: &str)
        ensures
            out@ == self.tag(),
    {
        if self.is_labelled() {
            self.freq.as_str()
        } else {
            "<untagged>"
        }
    }
}

// ---------------------------------------------------------------------------
// Findings
// ---------------------------------------------------------------------------

/// One thing the census has to say about the input.
#[derive(Debug, Clone, PartialEq, Eq)]
pub enum Finding {
    /// A symbol carries several cadences and nothing chose between them.
    Ambiguous { symbol: String, cadences: Vec<(String, usize)> },
    /// `-f/--frequency` named a cadence that the symbol does not carry.
    Absent { symbol: String, requested: Frequency, available: Vec<String> },
    /// Rows without a label sit beside labelled ones.
    Untagged { symbol: String, bars: usize, declared: Vec<String> },
    /// The universe runs at several cadences, ascending.
    Mixed { groups: Vec<(Frequency, Vec<String>)> },
    /// None of a series' `time` values is a time.
    Untimed { symbol: String, freq: String, total: usize, example: String },
    /// Some of a series' `time` values are no times.
    PartlyTimed { symbol: String, freq: String, unparsed: usize, total: usize, example: String },
    /// Stamps of a series lie outside the calendar.
    Undatable { symbol: String, freq: String, bars: usize, total: usize, example: i64 },
    /// The frame is keyed by a number, so it has no cadence.
    IndexSampled { bars: usize, timed: bool },
    /// A series' label and its spacing disagree.
    Mislabelled {
        symbol: String,
        stated: Frequency,
        from: Stated,
        detected: Frequency,
        bars: usize,
    },
}

/// A finding as values.
pub enum FindingModel {
    Ambiguous { symbol: Seq<char>, cadences: Seq<(Seq<char>, usize)> },
    Absent { symbol: Seq<char>, requested: Frequency, available: Seq<Seq<char>> },
    Untagged { symbol: Seq<char>, bars: usize, declared: Seq<Seq<char>> },
    Mixed { groups: Seq<(Frequency, Seq<Seq<char>>)> },
    Untimed { symbol: Seq<char>, freq: Seq<char>, total: usize, example: Seq<char> },
    PartlyTimed {
        symbol: Seq<char>,
        freq: Seq<char>,
        unparsed: usize,
        total: usize,
        example: Seq<char>,
    },
    Undatable { symbol: Seq<char>, freq: Seq<char>, bars: usize, total: usize, example: i64 },
    IndexSampled { bars: usize, timed: bool },
    Mislabelled {
        symbol: Seq<char>,
        stated: Frequency,
        from: Stated,
        detected: Frequency,
        bars: usize,
    },
}

/// Labels with their bar counts, as values.
pub open spec fn counted_labels(v: Seq<(String, usize)>) -> Seq<(Seq<char>, usize)> {
    Seq::new(v.len(), |i: int| (v[i].0@, v[i].1))
}

/// Cadences with the symbols that run at them, as values.
pub open spec fn cadence_groups(v: Seq<(Frequency, Vec<String>)>) -> Seq<
    (Frequency, Seq<Seq<char>>),
> {
    Seq::new(v.len(), |i: int| (v[i].0, text::texts(v[i].1@)))
}

impl View for Finding {
    type V = FindingModel;

    open spec fn view(&self) -> FindingModel {
        match *self {
            Finding::Ambiguous { symbol, cadences } => FindingModel::Ambiguous {
                symbol: symbol@,
                cadences: counted_labels(cadences@),
            },
            Finding::Absent { symbol, requested, available } => FindingModel::Absent {
                symbol: symbol@,
                requested,
                available: text::texts(available@),
            },
            Finding::Untagged { symbol, bars, declared } => FindingModel::Untagged {
                symbol: symbol@,
                bars,
                declared: text::texts(declared@),
            },
            Finding::Mixed { groups } => FindingModel::Mixed { groups: cadence_groups(groups@) },
            Finding::Untimed { symbol, freq, total, example } => FindingModel::Untimed {
                symbol: symbol@,
                freq: freq@,
                total,
                example: example@,
            },
            Finding::PartlyTimed { symbol, freq, unparsed, total, example } =>
            FindingModel::PartlyTimed {
                symbol: symbol@,
                freq: freq@,
                unparsed,
                total,
                example: example@,
            },
            Finding::Undatable { symbol, freq, bars, total, example } => FindingModel::Undatable {
                symbol: symbol@,
                freq: freq@,
                bars,
                total,
                example,
            },
            Finding::IndexSampled { bars, timed } => FindingModel::IndexSampled { bars, timed },
            Finding::Mislabelled { symbol, stated, from, detected, bars } =>
            FindingModel::Mislabelled { symbol: symbol@, stated, from, detected, bars },
        }
    }
}

/// The findings of a list, as values.
pub open spec fn models(v: Seq<Finding>) -> Seq<FindingModel> {
    Seq::new(v.len(), |i: int| v[i]@)
}

impl FindingModel {
    /// Whether the finding stops the run.
    pub open spec fn stops(self) -> bool {
        self is Ambiguous || self is Absent || self is Untagged || self is Untimed
    }

    /// What the finding says.
    pub open spec fn words(self) -> Seq<char> {
        match self {
            FindingModel::IndexSampled { bars, timed } => "the input is index-sampled ("@
                + text::decimal(bars as nat)
                + " bars keyed by a numeric `index`), so it has no bar cadence: annualization cannot be looked up from a calendar, `-w`'s duration form is unavailable, and freq-scoped `--costs` entries match nothing. "@
                + (if timed {
                "The rows do carry a parseable `time` column, so carry is pro-rated over the interval each bar actually spans, the calendar leaves read real dates, and `bars_per_year` is measured from the span the input covers."@
            } else {
                "The rows carry no parseable `time`, so carry charges nothing, the calendar leaves read `None` on every bar, and `--bars-per-year` has to be passed explicitly."@
            }),
            FindingModel::Ambiguous { symbol, cadences } => "symbol `"@ + symbol + "` carries "@
                + text::decimal(cadences.len()) + " cadences in the input series — "@
                + text::joined(counted(cadences), ", "@)
                + ". A strategy trades one of them; pass `-f/--frequency "@ + symbol
                + ":<CODE>` to say which, or narrow the input."@,
            FindingModel::Absent { symbol, requested, available } =>
            "`-f/--frequency` asks for `"@ + requested.code() + "` on `"@ + symbol
                + "`, but the input series carry only "@ + (if available.len() == 1 {
                "one cadence"@
            } else {
                "these cadences"@
            }) + " for it: "@ + text::joined(available, ", "@) + ". Nothing would be traded at `"@
                + requested.code() + "`."@,
            FindingModel::Untagged { symbol, bars, declared } => "symbol `"@ + symbol + "` has "@
                + text::decimal(bars as nat) + " row(s) with no `freq` label beside "@
                + text::decimal(declared.len()) + " labelled cadences ("@ + text::joined(
                declared,
                ", "@,
            )
                + "), so those rows cannot be attached to either. Give them one with a series literal — `--series \"freq=<CODE>,@file.csv\"`."@,
            FindingModel::Untimed { symbol, freq, total, example } => "`"@ + symbol + "`"@
                + bracketed(freq) + ": none of its "@ + text::decimal(total as nat)
                + " `time` value(s) parse as a timestamp (e.g. `"@ + example
                + "`).\n\nA column named `time` promises timestamps, and everything time-denominated reads it: carry is pro-rated over it, the calendar leaves (`!day_of_week`, `!is_weekday`, …) decompose it, and `bars_per_year` is measured from the span it covers. Unparsed, all three go quiet without failing — the run completes and reports a strategy that was never charged for carry.\n\nfugazi reads RFC 3339 (`2024-01-01T00:00:00Z`), `YYYY-MM-DD [HH:MM:SS]`, or an integer Unix epoch in seconds or milliseconds. If these are not times at all — a bar sequence, a session id — name the column `index` instead, which orders and joins on them without claiming they are dates."@,
            FindingModel::PartlyTimed { symbol, freq, unparsed, total, example } => "`"@ + symbol
                + "`"@ + bracketed(freq) + ": "@ + text::decimal(unparsed as nat) + " of "@
                + text::decimal(total as nat)
                + " `time` value(s) do not parse as a timestamp (e.g. `"@ + example
                + "`), so those bars carry no time. Carry is not charged across them, the calendar leaves read `None` there, and the cadence detected from the gaps is measured over the rows that did parse — which is a different series from the one in the file."@,
            FindingModel::Undatable { symbol, freq, bars, total, example } => "`"@ + symbol + "`"@
                + bracketed(freq) + ": "@ + text::decimal(bars as nat) + " of "@ + text::decimal(
                total as nat,
            ) + " timestamp(s) fall outside the calendar (`"@ + text::signed_decimal(
                example as int,
            )
                + "`), so every calendar reading — `!is_weekday`, `!month`, `!day_of_week` — is absent for them and any gate built on one never fires. A `time` column in **nanoseconds** is the usual cause: `datetime64[ns]` cast to an integer. fugazi reads milliseconds; divide by 1e6."@,
            FindingModel::Mixed { groups } => "the input universe runs at "@ + text::decimal(
                groups.len(),
            ) + " different cadences — "@ + text::joined(listed(groups), " · "@)
                + ". Annualization (`bars_per_year`), `-w`'s duration form and `trading_seconds_per_bar` all take one cadence for the whole run, read off the first symbol, so every risk-adjusted metric here is scaled for that series and mis-scaled for the rest."@,
            FindingModel::Mislabelled { symbol, stated, from, detected, bars } => "`"@ + symbol
                + "` is labelled `"@ + stated.code() + "` by "@ + from.words() + ", but its "@
                + text::decimal(bars as nat) + " timestamps are spaced like `"@ + detected.code()
                + "`. The label is what freq-scoped `--costs` match on; the spacing is what the run is really made of."@,
        }
    }
}

/// Each label with its bar count in words.
pub open spec fn counted(cadences: Seq<(Seq<char>, usize)>) -> Seq<Seq<char>> {
    Seq::new(
        cadences.len(),
        |i: int| cadences[i].0 + " ("@ + text::decimal(cadences[i].1 as nat) + " bars)"@,
    )
}

/// Each cadence with the symbols that run at it.
pub open spec fn listed(groups: Seq<(Frequency, Seq<Seq<char>>)>) -> Seq<Seq<char>> {
    Seq::new(
        groups.len(),
        |i: int| groups[i].0.code() + ": "@ + text::joined(groups[i].1, ", "@),
    )
}

/// A label in brackets behind a symbol; nothing where there is no label.
pub open spec fn bracketed(freq: Seq<char>) -> Seq<char> {
    if freq.len() == 0 {
        seq![]
    } else {
        " ["@ + freq + "]"@
    }
}

fn in_brackets(freq: &str) -> (out: String)
    ensures
        out@ == bracketed(freq@),
{
    if freq.is_empty() {
        String::new()
    } else {
        let mut out: String = " [".to_owned();
        out.append(freq);
        out.append("]");
        out
    }
}

fn count_labels(cadences: &[(String, usize)]) -> (out: Vec<String>)
    ensures
        text::texts(out@) == counted(counted_labels(cadences@)),
{
    let mut out: Vec<String> = Vec::new();
    let n: usize = cadences.len();
    for i in 0..n
        invariant
            n == cadences@.len(),
            out@.len() == i,
            forall|j: int| 0 <= j < i ==> out@[j]@ == #[trigger] counted(counted_labels(cadences@))[j],
    {
        let mut item: String = cadences[i].0.clone();
        item.append(" (");
        item.append(&text::decimal_string(cadences[i].1 as u64));
        item.append(" bars)");
        out.push(item);
    }
    assert(text::texts(out@) =~= counted(counted_labels(cadences@)));
    out
}

fn list_groups(groups: &[(Frequency, Vec<String>)]) -> (out: Vec<String>)
    ensures
        text::texts(out@) == listed(cadence_groups(groups@)),
{
    let mut out: Vec<String> = Vec::new();
    let n: usize = groups.len();
    for i in 0..n
        invariant
            n == groups@.len(),
            out@.len() == i,
            forall|j: int| 0 <= j < i ==> out@[j]@ == #[trigger] listed(cadence_groups(groups@))[j],
    {
        let mut item: String = groups[i].0.format();
        item.append(": ");
        item.append(&text::join(&groups[i].1, ", "));
        out.push(item);
    }
    assert(text::texts(out@) =~= listed(cadence_groups(groups@)));
    out
}

fn signed_string(n: i64) -> (out: String)
    ensures
        out@ == text::signed_decimal(n as int),
{
    if n < 0 {
        let mut out: String = "-".to_owned();
        proof {
            reveal_strlit("-");
            assert("-"@ =~= seq!['-']);
        }
        let magnitude: i128 = -(n as i128);
        out.append(&text::decimal_string(magnitude as u64));
        out
    } else {
        text::decimal_string(n as u64)
    }
}

impl Finding {
    /// Whether the finding stops the run. Ambiguity does; disagreement does not.
    pub fn is_error(&self) -> (out: bool)
        ensures
            out == self@.stops(),
    {
        match self {
            Finding::Ambiguous { .. } => true,
            Finding::Absent { .. } => true,
            Finding::Untagged { .. } => true,
            Finding::Untimed { .. } => true,
            _ => false,
        }
    }

    /// What the finding says.
    pub fn message(&self) -> (out: String)
        ensures
            out@ == self@.words(),
    {
        match self {
            Finding::IndexSampled { bars, timed } => {
                let mut m: String = "the input is index-sampled (".to_owned();
                m.append(&text::decimal_string(*bars as u64));
                m.append(
                    " bars keyed by a numeric `index`), so it has no bar cadence: annualization cannot be looked up from a calendar, `-w`'s duration form is unavailable, and freq-scoped `--costs` entries match nothing. ",
                );
                if *timed {
                    m.append(
                        "The rows do carry a parseable `time` column, so carry is pro-rated over the interval each bar actually spans, the calendar leaves read real dates, and `bars_per_year` is measured from the span the input covers.",
                    );
                } else {
                    m.append(
                        "The rows carry no parseable `time`, so carry charges nothing, the calendar leaves read `None` on every bar, and `--bars-per-year` has to be passed explicitly.",
                    );
                }
                m
            },
            Finding::Ambiguous { symbol, cadences } => {
                let mut m: String = "symbol `".to_owned();
                m.append(symbol);
                m.append("` carries ");
                m.append(&text::decimal_string(cadences.len() as u64));
                m.append(" cadences in the input series — ");
                m.append(&text::join(&count_labels(cadences), ", "));
                m.append(". A strategy trades one of them; pass `-f/--frequency ");
                m.append(symbol);
                m.append(":<CODE>` to say which, or narrow the input.");
                m
            },
            Finding::Absent { symbol, requested, available } => {
                let code: String = requested.format();
                let mut m: String = "`-f/--frequency` asks for `".to_owned();
                m.append(&code);
                m.append("` on `");
                m.append(symbol);
                m.append("`, but the input series carry only ");
                if available.len() == 1 {
                    m.append("one cadence");
                } else {
                    m.append("these cadences");
                }
                m.append(" for it: ");
                m.append(&text::join(available, ", "));
                m.append(". Nothing would be traded at `");
                m.append(&code);
                m.append("`.");
                m
            },
            Finding::Untagged { symbol, bars, declared } => {
                let mut m: String = "symbol `".to_owned();
                m.append(symbol);
                m.append("` has ");
                m.append(&text::decimal_string(*bars as u64));
                m.append(" row(s) with no `freq` label beside ");
                m.append(&text::decimal_string(declared.len() as u64));
                m.append(" labelled cadences (");
                m.append(&text::join(declared, ", "));
                m.append(
                    "), so those rows cannot be attached to either. Give them one with a series literal — `--series \"freq=<CODE>,@file.csv\"`.",
                );
                m
            },
            Finding::Untimed { symbol, freq, total, example } => {
                let mut m: String = "`".to_owned();
                m.append(symbol);
                m.append("`");
                m.append(&in_brackets(freq));
                m.append(": none of its ");
                m.append(&text::decimal_string(*total as u64));
                m.append(" `time` value(s) parse as a timestamp (e.g. `");
                m.append(example);
                m.append(
                    "`).\n\nA column named `time` promises timestamps, and everything time-denominated reads it: carry is pro-rated over it, the calendar leaves (`!day_of_week`, `!is_weekday`, …) decompose it, and `bars_per_year` is measured from the span it covers. Unparsed, all three go quiet without failing — the run completes and reports a strategy that was never charged for carry.\n\nfugazi reads RFC 3339 (`2024-01-01T00:00:00Z`), `YYYY-MM-DD [HH:MM:SS]`, or an integer Unix epoch in seconds or milliseconds. If these are not times at all — a bar sequence, a session id — name the column `index` instead, which orders and joins on them without claiming they are dates.",
                );
                m
            },
            Finding::PartlyTimed { symbol, freq, unparsed, total, example } => {
                let mut m: String = "`".to_owned();
                m.append(symbol);
                m.append("`");
                m.append(&in_brackets(freq));
                m.append(": ");
                m.append(&text::decimal_string(*unparsed as u64));
                m.append(" of ");
                m.append(&text::decimal_string(*total as u64));
                m.append(" `time` value(s) do not parse as a timestamp (e.g. `");
                m.append(example);
                m.append(
                    "`), so those bars carry no time. Carry is not charged across them, the calendar leaves read `None` there, and the cadence detected from the gaps is measured over the rows that did parse — which is a different series from the one in the file.",
                );
                m
            },
            Finding::Undatable { symbol, freq, bars, total, example } => {
                let mut m: String = "`".to_owned();
                m.append(symbol);
                m.append("`");
                m.append(&in_brackets(freq));
                m.append(": ");
                m.append(&text::decimal_string(*bars as u64));
                m.append(" of ");
                m.append(&text::decimal_string(*total as u64));
                m.append(" timestamp(s) fall outside the calendar (`");
                m.append(&signed_string(*example));
                m.append(
                    "`), so every calendar reading — `!is_weekday`, `!month`, `!day_of_week` — is absent for them and any gate built on one never fires. A `time` column in **nanoseconds** is the usual cause: `datetime64[ns]` cast to an integer. fugazi reads milliseconds; divide by 1e6.",
                );
                m
            },
            Finding::Mixed { groups } => {
                let mut m: String = "the input universe runs at ".to_owned();
                m.append(&text::decimal_string(groups.len() as u64));
                m.append(" different cadences — ");
                m.append(&text::join(&list_groups(groups), " · "));
                m.append(
                    ". Annualization (`bars_per_year`), `-w`'s duration form and `trading_seconds_per_bar` all take one cadence for the whole run, read off the first symbol, so every risk-adjusted metric here is scaled for that series and mis-scaled for the rest.",
                );
                m
            },
            Finding::Mislabelled { symbol, stated, from, detected, bars } => {
                let mut m: String = "`".to_owned();
                m.append(symbol);
                m.append("` is labelled `");
                m.append(&stated.format());
                m.append("` by ");
                m.append(&from.describe());
                m.append(", but its ");
                m.append(&text::decimal_string(*bars as u64));
                m.append(" timestamps are spaced like `");
                m.append(&detected.format());
                m.append(
                    "`. The label is what freq-scoped `--costs` match on; the spacing is what the run is really made of.",
                );
                m
            },
        }
    }
}


// ---------------------------------------------------------------------------
// Resolving one symbol
// ---------------------------------------------------------------------------

/// What the census decides on one symbol: the group the run trades, what it has
/// to say, and the cadence the symbol runs at.
pub struct Outcome {
    pub keep: Option<(String, String)>,
    pub findings: Vec<Finding>,
    pub cadence: Option<Frequency>,
}

/// An outcome as values.
pub struct OutcomeModel {
    pub keep: Option<(Seq<char>, Seq<char>)>,
    pub findings: Seq<FindingModel>,
    pub cadence: Option<Frequency>,
}

/// A kept group as values.
pub open spec fn kept_model(k: Option<(String, String)>) -> Option<(Seq<char>, Seq<char>)> {
    match k {
        Some((a, b)) => Some((a@, b@)),
        None => None,
    }
}

impl View for Outcome {
    type V = OutcomeModel;

    open spec fn view(&self) -> OutcomeModel {
        OutcomeModel {
            keep: kept_model(self.keep),
            findings: models(self.findings@),
            cadence: self.cadence,
        }
    }
}

/// The groups that carry a label, in order.
pub open spec fn labelled_groups(groups: Seq<Series>) -> Seq<Series>
    decreases groups.len(),
{
    if groups.len() == 0 {
        groups
    } else if groups.last().labelled() {
        labelled_groups(groups.drop_last()).push(groups.last())
    } else {
        labelled_groups(groups.drop_last())
    }
}

/// The place of the first group without a label, or the number of groups.
pub open spec fn first_untagged(groups: Seq<Series>) -> int
    decreases groups.len(),
{
    if groups.len() == 0 {
        0
    } else {
        let k = first_untagged(groups.drop_last());
        if k < groups.len() - 1 {
            k
        } else if !groups.last().labelled() {
            groups.len() - 1
        } else {
            groups.len() as int
        }
    }
}

/// The place of the first group that declares `want`, or the number of groups.
pub open spec fn first_declaring(groups: Seq<Series>, want: Frequency) -> int
    decreases groups.len(),
{
    if groups.len() == 0 {
        0
    } else {
        let k = first_declaring(groups.drop_last(), want);
        if k < groups.len() - 1 {
            k
        } else if groups.last().declared == Some(want) {
            groups.len() - 1
        } else {
            groups.len() as int
        }
    }
}

/// The labels of groups.
pub open spec fn labels(groups: Seq<Series>) -> Seq<Seq<char>> {
    Seq::new(groups.len(), |i: int| groups[i].freq@)
}

/// The labels of groups with their bar counts.
pub open spec fn labels_with_bars(groups: Seq<Series>) -> Seq<(Seq<char>, usize)> {
    Seq::new(groups.len(), |i: int| (groups[i].freq@, groups[i].bars))
}

/// What stands against trading a symbol: the finding, or the group that is
/// traded.
pub open spec fn choice(symbol: Seq<char>, groups: Seq<Series>, pick: Option<Frequency>) -> Result<
    Series,
    FindingModel,
> {
    let labelled = labelled_groups(groups);
    let untagged = first_untagged(groups);
    if untagged < groups.len() && labelled.len() > 0 {
        Err(
            FindingModel::Untagged {
                symbol,
                bars: groups[untagged].bars,
                declared: labels(labelled),
            },
        )
    } else if labelled.len() <= 1 {
        let only = groups[0];
        match (pick, only.declared) {
            (Some(want), Some(declared)) => if want != declared {
                Err(FindingModel::Absent { symbol, requested: want, available: seq![only.tag()] })
            } else {
                Ok(only)
            },
            _ => Ok(only),
        }
    } else {
        match pick {
            None => Err(
                FindingModel::Ambiguous { symbol, cadences: labels_with_bars(labelled) },
            ),
            Some(want) => {
                let k = first_declaring(labelled, want);
                if k < labelled.len() {
                    Ok(labelled[k])
                } else {
                    Err(
                        FindingModel::Absent {
                            symbol,
                            requested: want,
                            available: labels(labelled),
                        },
                    )
                }
            },
        }
    }
}

/// What a group is said to run at, and who says so: its label, else the flag.
pub open spec fn stated_cadence(group: Series, pick: Option<Frequency>) -> Option<
    (Frequency, Stated),
> {
    match (group.declared, pick) {
        (Some(f), _) => Some((f, Stated::Column)),
        (None, Some(f)) => Some((f, Stated::Flag)),
        (None, None) => None,
    }
}

/// The doubts about a group that is traded.
pub open spec fn doubts(symbol: Seq<char>, group: Series, pick: Option<Frequency>) -> Seq<
    FindingModel,
> {
    let mislabelled = match (stated_cadence(group, pick), group.detected) {
        (Some((stated, from)), Some(detected)) => if stated != detected && group.bars
            >= MIN_BARS_TO_ACCUSE {
            seq![
                FindingModel::Mislabelled { symbol, stated, from, detected, bars: group.bars },
            ]
        } else {
            seq![]
        },
        _ => seq![],
    };
    let undatable = match group.undatable_example {
        Some(example) => if group.undatable > 0 {
            seq![
                FindingModel::Undatable {
                    symbol,
                    freq: group.freq@,
                    bars: group.undatable,
                    total: group.bars,
                    example,
                },
            ]
        } else {
            seq![]
        },
        None => seq![],
    };
    mislabelled + undatable
}

/// What the census decides on one symbol.
pub open spec fn outcome(symbol: Seq<char>, groups: Seq<Series>, pick: Option<Frequency>) -> OutcomeModel {
    match choice(symbol, groups, pick) {
        Err(finding) => OutcomeModel { keep: None, findings: seq![finding], cadence: None },
        Ok(group) => OutcomeModel {
            keep: Some((symbol, group.freq@)),
            findings: doubts(symbol, group, pick),
            cadence: match pick {
                Some(f) => Some(f),
                None => group.cadence(),
            },
        },
    }
}

fn labels_of(groups: &[&Series]) -> (out: Vec<String>)
    ensures
        text::texts(out@) == labels(groups@.unref()),
{
    let mut out: Vec<String> = Vec::new();
    let n: usize = groups.len();
    for i in 0..n
        invariant
            n == groups@.len(),
            out@.len() == i,
            forall|j: int| 0 <= j < i ==> out@[j]@ == (#[trigger] groups@[j]).freq@,
    {
        out.push(groups[i].freq.clone());
    }
    assert(text::texts(out@) =~= labels(groups@.unref()));
    out
}

fn labels_with_bars_of(groups: &[&Series]) -> (out: Vec<(String, usize)>)
    ensures
        counted_labels(out@) == labels_with_bars(groups@.unref()),
{
    let mut out: Vec<(String, usize)> = Vec::new();
    let n: usize = groups.len();
    for i in 0..n
        invariant
            n == groups@.len(),
            out@.len() == i,
            forall|j: int|
                0 <= j < i ==> (out@[j].0@, out@[j].1) == (
                    (#[trigger] groups@[j]).freq@,
                    groups@[j].bars,
                ),
    {
        out.push((groups[i].freq.clone(), groups[i].bars));
    }
    assert(counted_labels(out@) =~= labels_with_bars(groups@.unref()));
    out
}

/// The group of `symbol` that the run trades, or the finding that stands against
/// it.
fn choose_group<'a>(symbol: &str, groups: &Vec<&'a Series>, pick: Option<Frequency>) -> (out: Result<
    &'a Series,
    Finding,
>)
    requires
        groups@.len() > 0,
    ensures
        match (out, choice(symbol@, groups@.unref(), pick)) {
            (Ok(g), Ok(m)) => *g == m,
            (Err(f), Err(m)) => f@ == m,
            _ => false,
        },
{
    let ghost all = groups@.unref();
    let mut labelled: Vec<&'a Series> = Vec::new();
    let mut untagged: usize = groups.len();
    let n: usize = groups.len();
    assert(all.take(0) =~= Seq::<Series>::empty());
    assert(labelled@.unref() =~= Seq::<Series>::empty());
    for i in 0..n
        invariant
            n == groups@.len(),
            all == groups@.unref(),
            labelled@.unref() == labelled_groups(all.take(i as int)),
            first_untagged(all.take(i as int)) == (if untagged == n {
                i as int
            } else {
                untagged as int
            }),
            untagged == n || untagged < i,
    {
        let ghost next = all.take(i + 1);
        assert(next.drop_last() =~= all.take(i as int));
        assert(next.last() == *groups@[i as int]);
        let ghost before = labelled@;
        if groups[i].is_labelled() {
            labelled.push(groups[i]);
            assert(labelled@.unref() =~= before.unref().push(next.last()));
        } else if untagged == n {
            untagged = i;
        }
    }
    assert(all.take(n as int) =~= all);
    let ghost named = labelled@.unref();
    if untagged < n && labelled.len() > 0 {
        return Err(
            Finding::Untagged {
                symbol: symbol.to_owned(),
                bars: groups[untagged].bars,
                declared: labels_of(&labelled),
            },
        );
    }
    if labelled.len() <= 1 {
        let only: &'a Series = groups[0];
        if let (Some(want), Some(declared)) = (pick, only.declared) {
            if want != declared {
                let mut available: Vec<String> = Vec::new();
                available.push(only.label().to_owned());
                assert(text::texts(available@) =~= seq![only.tag()]);
                return Err(
                    Finding::Absent { symbol: symbol.to_owned(), requested: want, available },
                );
            }
        }
        return Ok(only);
    }
    match pick {
        None => Err(
            Finding::Ambiguous {
                symbol: symbol.to_owned(),
                cadences: labels_with_bars_of(&labelled),
            },
        ),
        Some(want) => {
            let m: usize = labelled.len();
            let mut k: usize = m;
            assert(named.take(0) =~= Seq::<Series>::empty());
            for i in 0..m
                invariant
                    m == labelled@.len(),
                    named == labelled@.unref(),
                    first_declaring(named.take(i as int), want) == (if k == m {
                        i as int
                    } else {
                        k as int
                    }),
                    k == m || k < i,
            {
                let ghost next = named.take(i + 1);
                assert(next.drop_last() =~= named.take(i as int));
                assert(next.last() == *labelled@[i as int]);
                if k == m {
                    if let Some(f) = labelled[i].declared {
                        if f == want {
                            k = i;
                        }
                    }
                }
            }
            assert(named.take(m as int) =~= named);
            if k < m {
                Ok(labelled[k])
            } else {
                Err(
                    Finding::Absent {
                        symbol: symbol.to_owned(),
                        requested: want,
                        available: labels_of(&labelled),
                    },
                )
            }
        },
    }
}

/// What the census decides on one symbol, given its groups and the cadence that
/// the flags ask for.
pub fn resolve_symbol<'a>(symbol: &str, groups: &Vec<&'a Series>, pick: Option<Frequency>) -> (out:
    Outcome)
    requires
        groups@.len() > 0,
    ensures
        out@ == outcome(symbol@, groups@.unref(), pick),
{
    let mut findings: Vec<Finding> = Vec::new();
    let group: &'a Series = match choose_group(symbol, groups, pick) {
        Ok(g) => g,
        Err(f) => {
            findings.push(f);
            assert(models(findings@) =~= seq![f@]);
            return Outcome { keep: None, findings, cadence: None };
        },
    };
    let stated: Option<(Frequency, Stated)> = match (group.declared, pick) {
        (Some(f), _) => Some((f, Stated::Column)),
        (None, Some(f)) => Some((f, Stated::Flag)),
        (None, None) => None,
    };
    if let (Some((stated, from)), Some(detected)) = (stated, group.detected) {
        if stated != detected && group.bars >= MIN_BARS_TO_ACCUSE {
            findings.push(
                Finding::Mislabelled {
                    symbol: symbol.to_owned(),
                    stated,
                    from,
                    detected,
                    bars: group.bars,
                },
            );
        }
    }
    if group.undatable > 0 {
        if let Some(example) = group.undatable_example {
            findings.push(
                Finding::Undatable {
                    symbol: symbol.to_owned(),
                    freq: group.freq.clone(),
                    bars: group.undatable,
                    total: group.bars,
                    example,
                },
            );
        }
    }
    assert(models(findings@) =~= doubts(symbol@, *group, pick));
    let cadence: Option<Frequency> = match pick {
        Some(f) => Some(f),
        None => group.effective(),
    };
    Outcome { keep: Some((symbol.to_owned(), group.freq.clone())), findings, cadence }
}

// ---------------------------------------------------------------------------
// The census
// ---------------------------------------------------------------------------

/// Every cadence group of a loaded frame.
#[derive(Debug, Clone, PartialEq, Eq)]
pub struct Census {
    /// Ascending by symbol, then by label.
    pub series: Vec<Series>,
}

/// Whether `a` belongs behind `b`.
pub open spec fn behind(a: Series, b: Series) -> bool {
    text::text_lt(b.symbol@, a.symbol@) || (a.symbol@ == b.symbol@ && text::text_lt(
        b.freq@,
        a.freq@,
    ))
}

/// Whether no group belongs behind a later one.
pub open spec fn in_census_order(series: Seq<Series>) -> bool {
    forall|i: int, j: int| 0 <= i < j < series.len() ==> !behind(#[trigger] series[i], #[trigger] series[j])
}

/// `series` with `s` put before the groups at its end that belong behind it.
pub open spec fn with_series(series: Seq<Series>, s: Series) -> Seq<Series>
    decreases series.len(),
{
    if series.len() == 0 || !behind(series.last(), s) {
        series.push(s)
    } else {
        with_series(series.drop_last(), s).push(series.last())
    }
}

/// The groups in ascending order of symbol and label; equal ones stay in the
/// order they came in.
pub open spec fn ordered(groups: Seq<Series>) -> Seq<Series>
    decreases groups.len(),
{
    if groups.len() == 0 {
        groups
    } else {
        with_series(ordered(groups.drop_last()), groups.last())
    }
}

proof fn not_behind_chains(a: Series, b: Series, c: Series)
    requires
        !behind(a, b),
        !behind(b, c),
    ensures
        !behind(a, c),
{
    text::text_lt_total(a.symbol@, b.symbol@);
    text::text_lt_total(b.symbol@, c.symbol@);
    text::text_lt_total(a.freq@, b.freq@);
    text::text_lt_total(b.freq@, c.freq@);
    if behind(a, c) {
        if text::text_lt(c.symbol@, a.symbol@) {
            if a.symbol@ != b.symbol@ {
                text::text_lt_transitive(c.symbol@, a.symbol@, b.symbol@);
            }
        } else {
            if a.symbol@ != b.symbol@ {
                text::text_lt_irreflexive(a.symbol@);
                if text::text_lt(a.symbol@, b.symbol@) && b.symbol@ != c.symbol@ {
                    text::text_lt_transitive(a.symbol@, b.symbol@, c.symbol@);
                }
            } else if a.freq@ != b.freq@ {
                text::text_lt_transitive(c.freq@, a.freq@, b.freq@);
            }
        }
    }
}

proof fn with_series_in_order(series: Seq<Series>, s: Series)
    requires
        in_census_order(series),
    ensures
        in_census_order(with_series(series, s)),
        with_series(series, s).to_multiset() == series.to_multiset().insert(s),
    decreases series.len(),
{
    broadcast use vstd::seq_lib::group_to_multiset_ensures;

    let r = with_series(series, s);
    if series.len() == 0 || !behind(series.last(), s) {
        assert forall|i: int, j: int| 0 <= i < j < r.len() implies !behind(
            #[trigger] r[i],
            #[trigger] r[j],
        ) by {
            if j == series.len() && i < series.len() - 1 {
                assert(!behind(series[i], series.last()));
                not_behind_chains(series[i], series.last(), s);
            }
        }
    } else {
        let t = series.drop_last();
        with_series_in_order(t, s);
        assert(t.push(series.last()) =~= series);
        assert(r.to_multiset() =~= series.to_multiset().insert(s));
        let head = with_series(t, s);
        assert forall|i: int, j: int| 0 <= i < j < r.len() implies !behind(
            #[trigger] r[i],
            #[trigger] r[j],
        ) by {
            if j == r.len() - 1 {
                assert(head.contains(r[i]));
                assert(head.to_multiset().contains(r[i]));
                if r[i] != s {
                    assert(t.to_multiset().contains(r[i]));
                    assert(t.contains(r[i]));
                    let k = choose|k: int| 0 <= k < t.len() && t[k] == r[i];
                    assert(!behind(series[k], series[series.len() - 1]));
                } else {
                    behind_is_one_way(series.last(), s);
                }
            }
        }
    }
}

proof fn behind_is_one_way(a: Series, b: Series)
    requires
        behind(a, b),
    ensures
        !behind(b, a),
{
    if behind(b, a) {
        if text::text_lt(b.symbol@, a.symbol@) {
            if text::text_lt(a.symbol@, b.symbol@) {
                text::text_lt_transitive(a.symbol@, b.symbol@, a.symbol@);
                text::text_lt_irreflexive(a.symbol@);
            } else {
                text::text_lt_irreflexive(a.symbol@);
            }
        } else {
            text::text_lt_irreflexive(a.symbol@);
            text::text_lt_transitive(a.freq@, b.freq@, a.freq@);
            text::text_lt_irreflexive(a.freq@);
        }
    }
}

/// `ordered` gives the same groups in census order.
pub proof fn ordered_is_in_order(groups: Seq<Series>)
    ensures
        in_census_order(ordered(groups)),
        ordered(groups).to_multiset() == groups.to_multiset(),
    decreases groups.len(),
{
    broadcast use vstd::seq_lib::group_to_multiset_ensures;

    if groups.len() > 0 {
        ordered_is_in_order(groups.drop_last());
        with_series_in_order(ordered(groups.drop_last()), groups.last());
        assert(groups.drop_last().push(groups.last()) =~= groups);
    }
}

fn is_behind(a: &Series, b: &Series) -> (out: bool)
    ensures
        out == behind(*a, *b),
{
    text::less(&b.symbol, &a.symbol) || (text::same(&a.symbol, &b.symbol) && text::less(
        &b.freq,
        &a.freq,
    ))
}

fn insert_series(v: &mut Vec<Series>, s: Series)
    ensures
        final(v)@ == with_series(old(v)@, s),
{
    let mut k: usize = v.len();
    let ghost all = v@;
    assert(all.take(k as int) =~= all);
    assert(with_series(all.take(k as int), s) + all.skip(k as int) =~= with_series(all, s));
    while k > 0 && is_behind(&v[k - 1], &s)
        invariant
            v@ == all,
            k <= all.len(),
            with_series(all.take(k as int), s) + all.skip(k as int) == with_series(all, s),
        decreases k,
    {
        proof {
            let t = all.take(k as int);
            assert(t.drop_last() =~= all.take(k - 1));
            assert(with_series(t, s) == with_series(all.take(k - 1), s).push(all[k - 1]));
            assert(with_series(all.take(k - 1), s) + all.skip(k - 1) =~= with_series(t, s)
                + all.skip(k as int));
        }
        k = k - 1;
    }
    proof {
        let t = all.take(k as int);
        assert(with_series(t, s) == t.push(s));
    }
    v.insert(k, s);
    assert(v@ =~= all.take(k as int).push(s) + all.skip(k as int));
}

/// The symbols of groups, each once where its groups stand together.
pub open spec fn distinct_symbols(series: Seq<Series>) -> Seq<Seq<char>>
    decreases series.len(),
{
    if series.len() == 0 {
        seq![]
    } else {
        let rest = distinct_symbols(series.drop_last());
        if rest.len() > 0 && rest.last() == series.last().symbol@ {
            rest
        } else {
            rest.push(series.last().symbol@)
        }
    }
}

/// The groups of one symbol, in order.
pub open spec fn groups_for(series: Seq<Series>, symbol: Seq<char>) -> Seq<Series>
    decreases series.len(),
{
    if series.len() == 0 {
        series
    } else if series.last().symbol@ == symbol {
        groups_for(series.drop_last(), symbol).push(series.last())
    } else {
        groups_for(series.drop_last(), symbol)
    }
}

proof fn named_symbols_have_groups(series: Seq<Series>, i: int)
    requires
        0 <= i < distinct_symbols(series).len(),
    ensures
        groups_for(series, distinct_symbols(series)[i]).len() > 0,
    decreases series.len(),
{
    let rest = distinct_symbols(series.drop_last());
    if i < rest.len() {
        named_symbols_have_groups(series.drop_last(), i);
    }
}

/// What is decided on each of `symbols`.
pub open spec fn outcomes(
    series: Seq<Series>,
    specs: Seq<ScopedFrequency>,
    symbols: Seq<Seq<char>>,
) -> Seq<OutcomeModel> {
    Seq::new(
        symbols.len(),
        |i: int|
            outcome(
                symbols[i],
                groups_for(series, symbols[i]),
                calendar::picked_frequency(specs, symbols[i]),
            ),
    )
}

/// The groups that are kept, in order.
pub open spec fn kept_groups(outs: Seq<OutcomeModel>) -> Seq<(Seq<char>, Seq<char>)>
    decreases outs.len(),
{
    if outs.len() == 0 {
        seq![]
    } else {
        match outs.last().keep {
            Some(k) => kept_groups(outs.drop_last()).push(k),
            None => kept_groups(outs.drop_last()),
        }
    }
}

/// All that is said about single symbols, in order.
pub open spec fn said(outs: Seq<OutcomeModel>) -> Seq<FindingModel>
    decreases outs.len(),
{
    if outs.len() == 0 {
        seq![]
    } else {
        said(outs.drop_last()) + outs.last().findings
    }
}

/// `groups` with `symbol` added to those that run at `f`.
pub open spec fn with_symbol(
    groups: Seq<(Frequency, Seq<Seq<char>>)>,
    f: Frequency,
    symbol: Seq<char>,
) -> Seq<(Frequency, Seq<Seq<char>>)>
    decreases groups.len(),
{
    if groups.len() == 0 || groups.last().0.shorter(f) {
        groups.push((f, seq![symbol]))
    } else if groups.last().0 == f {
        groups.drop_last().push((f, groups.last().1.push(symbol)))
    } else {
        with_symbol(groups.drop_last(), f, symbol).push(groups.last())
    }
}

/// The cadences of the universe, from the shortest, each with its symbols.
pub open spec fn by_cadence(outs: Seq<OutcomeModel>, symbols: Seq<Seq<char>>) -> Seq<
    (Frequency, Seq<Seq<char>>),
>
    decreases outs.len(),
{
    if outs.len() == 0 {
        seq![]
    } else {
        let rest = by_cadence(outs.drop_last(), symbols.drop_last());
        match outs.last().cadence {
            Some(f) => with_symbol(rest, f, symbols.last()),
            None => rest,
        }
    }
}

/// The findings that stop a run, or those that do not, in order.
pub open spec fn of_weight(findings: Seq<FindingModel>, stops: bool) -> Seq<FindingModel>
    decreases findings.len(),
{
    if findings.len() == 0 {
        findings
    } else if findings.last().stops() == stops {
        of_weight(findings.drop_last(), stops).push(findings.last())
    } else {
        of_weight(findings.drop_last(), stops)
    }
}

/// Errors before warnings, each in the order they came in.
pub open spec fn errors_first(findings: Seq<FindingModel>) -> Seq<FindingModel> {
    of_weight(findings, true) + of_weight(findings, false)
}

/// All that is said about the universe: symbol by symbol, then that it runs at
/// several cadences.
pub open spec fn all_findings(series: Seq<Series>, specs: Seq<ScopedFrequency>) -> Seq<
    FindingModel,
> {
    let symbols = distinct_symbols(series);
    let outs = outcomes(series, specs, symbols);
    let groups = by_cadence(outs, symbols);
    if groups.len() > 1 {
        said(outs).push(FindingModel::Mixed { groups })
    } else {
        said(outs)
    }
}

/// What the census decided, and what it has to say about it.
#[derive(Debug, Clone, PartialEq, Eq)]
pub struct Resolution {
    /// The group that each resolvable symbol runs at.
    pub keep: Vec<(String, String)>,
    /// Errors first, then warnings.
    pub findings: Vec<Finding>,
}

/// Kept groups as values.
pub open spec fn keep_texts(keep: Seq<(String, String)>) -> Seq<(Seq<char>, Seq<char>)> {
    Seq::new(keep.len(), |i: int| (keep[i].0@, keep[i].1@))
}

impl Resolution {
    /// Whether anything here should stop the run.
    pub fn has_errors(&self) -> (out: bool)
        ensures
            out == exists|i: int| 0 <= i < self.findings@.len() && (#[trigger] self.findings@[i])@.stops(),
    {
        any_error(&self.findings)
    }
}

fn any_error(findings: &[Finding]) -> (out: bool)
    ensures
        out == exists|i: int| 0 <= i < findings@.len() && (#[trigger] findings@[i])@.stops(),
{
    let n: usize = findings.len();
    for i in 0..n
        invariant
            n == findings@.len(),
            forall|j: int| 0 <= j < i ==> !(#[trigger] findings@[j])@.stops(),
    {
        if findings[i].is_error() {
            return true;
        }
    }
    false
}

fn add_symbol(groups: &mut Vec<(Frequency, Vec<String>)>, f: Frequency, symbol: String)
    ensures
        cadence_groups(final(groups)@) == with_symbol(cadence_groups(old(groups)@), f, symbol@),
{
    let mut k: usize = groups.len();
    let ghost all = cadence_groups(groups@);
    let ghost start = groups@;
    assert(all.take(k as int) =~= all);
    assert(with_symbol(all.take(k as int), f, symbol@) + all.skip(k as int) =~= with_symbol(
        all,
        f,
        symbol@,
    ));
    while k > 0 && f.comes_before(groups[k - 1].0)
        invariant
            groups@ == start,
            all == cadence_groups(start),
            k <= all.len(),
            with_symbol(all.take(k as int), f, symbol@) + all.skip(k as int) == with_symbol(
                all,
                f,
                symbol@,
            ),
        decreases k,
    {
        proof {
            let t = all.take(k as int);
            assert(t.drop_last() =~= all.take(k - 1));
            frequency::shorter_is_total(f, t.last().0);
            assert(f != t.last().0);
            assert(with_symbol(t, f, symbol@) == with_symbol(all.take(k - 1), f, symbol@).push(
                all[k - 1],
            ));
            assert(with_symbol(all.take(k - 1), f, symbol@) + all.skip(k - 1) =~= with_symbol(
                t,
                f,
                symbol@,
            ) + all.skip(k as int));
        }
        k = k - 1;
    }
    let ghost t = all.take(k as int);
    proof {
        if k > 0 {
            frequency::shorter_is_total(f, t.last().0);
        }
    }
    if k > 0 && groups[k - 1].0 == f {
        let (same, mut symbols) = groups.remove(k - 1);
        let ghost named = symbols@;
        symbols.push(symbol);
        groups.insert(k - 1, (same, symbols));
        proof {
            assert(text::texts(symbols@) =~= text::texts(named).push(symbol@));
            assert(with_symbol(t, f, symbol@) == t.drop_last().push((f, t.last().1.push(symbol@))));
            assert(cadence_groups(groups@) =~= with_symbol(t, f, symbol@) + all.skip(k as int));
        }
    } else {
        let mut symbols: Vec<String> = Vec::new();
        symbols.push(symbol);
        groups.insert(k, (f, symbols));
        proof {
            assert(text::texts(symbols@) =~= seq![symbol@]);
            assert(with_symbol(t, f, symbol@) == t.push((f, seq![symbol@])));
            assert(cadence_groups(groups@) =~= with_symbol(t, f, symbol@) + all.skip(k as int));
        }
    }
}

fn sort_findings(findings: Vec<Finding>) -> (out: Vec<Finding>)
    ensures
        models(out@) == errors_first(models(findings@)),
{
    let mut errors: Vec<Finding> = Vec::new();
    let mut others: Vec<Finding> = Vec::new();
    let ghost all = models(findings@);
    let mut rest: Vec<Finding> = findings;
    let mut back: Vec<Finding> = Vec::new();
    // The findings, last first, so that each can be moved out of the end.
    while rest.len() > 0
        invariant
            rest@.len() + back@.len() == all.len(),
            models(rest@) == all.take(rest@.len() as int),
            forall|i: int|
                0 <= i < back@.len() ==> (#[trigger] back@[i])@ == all[all.len() - 1 - i],
        decreases rest@.len(),
    {
        let ghost before = rest@;
        let ghost done = back@;
        let f: Option<Finding> = rest.pop();
        if let Some(f) = f {
            assert(f@ == models(before).last());
            assert(f@ == all[before.len() - 1]);
            back.push(f);
            assert(models(rest@) =~= all.take(rest@.len() as int));
            assert forall|i: int| 0 <= i < back@.len() implies (#[trigger] back@[i])@ == all[all.len()
                - 1 - i] by {
                if i < done.len() {
                    assert(back@[i] == done[i]);
                }
            }
        }
    }
    assert(all.take(0) =~= Seq::<FindingModel>::empty());
    assert(models(errors@) =~= Seq::<FindingModel>::empty());
    assert(models(others@) =~= Seq::<FindingModel>::empty());
    let ghost mut done: int = 0;
    while back.len() > 0
        invariant
            0 <= done <= all.len(),
            back@.len() + done == all.len(),
            forall|i: int|
                0 <= i < back@.len() ==> (#[trigger] back@[i])@ == all[all.len() - 1 - i],
            models(errors@) == of_weight(all.take(done), true),
            models(others@) == of_weight(all.take(done), false),
        decreases back@.len(),
    {
        let ghost e = errors@;
        let ghost o = others@;
        let ghost b = back@;
        proof {
            assert(b[b.len() - 1]@ == all[done]);
            assert(all.take(done + 1).drop_last() =~= all.take(done));
        }
        let f: Option<Finding> = back.pop();
        if let Some(f) = f {
            if f.is_error() {
                errors.push(f);
                assert(models(errors@) =~= models(e).push(f@));
            } else {
                others.push(f);
                assert(models(others@) =~= models(o).push(f@));
            }
        }
        proof {
            done = done + 1;
        }
    }
    assert(all.take(done) =~= all);
    let ghost e = errors@;
    let ghost o = others@;
    errors.append(&mut others);
    assert(models(errors@) =~= models(e) + models(o));
    errors
}

impl Census {
    /// The census of these groups, in ascending order of symbol and label.
    pub fn from_groups(groups: Vec<Series>) -> (out: Census)
        ensures
            out.series@ == ordered(groups@),
            in_census_order(out.series@),
    {
        let ghost all = groups@;
        let mut rest: Vec<Series> = groups;
        let mut back: Vec<Series> = Vec::new();
        while rest.len() > 0
            invariant
                rest@.len() + back@.len() == all.len(),
                rest@ == all.take(rest@.len() as int),
                forall|i: int| 0 <= i < back@.len() ==> #[trigger] back@[i] == all[all.len() - 1 - i],
            decreases rest@.len(),
        {
            let ghost done = back@;
            if let Some(s) = rest.pop() {
                back.push(s);
                assert(rest@ =~= all.take(rest@.len() as int));
                assert forall|i: int| 0 <= i < back@.len() implies #[trigger] back@[i] == all[all.len()
                    - 1 - i] by {
                    if i < done.len() {
                        assert(back@[i] == done[i]);
                    }
                }
            }
        }
        let mut series: Vec<Series> = Vec::new();
        let ghost mut done: int = 0;
        assert(all.take(0) =~= Seq::<Series>::empty());
        while back.len() > 0
            invariant
                0 <= done <= all.len(),
                back@.len() + done == all.len(),
                forall|i: int| 0 <= i < back@.len() ==> #[trigger] back@[i] == all[all.len() - 1 - i],
                series@ == ordered(all.take(done)),
            decreases back@.len(),
        {
            proof {
                assert(back@[back@.len() - 1] == all[done]);
                assert(all.take(done + 1).drop_last() =~= all.take(done));
            }
            if let Some(s) = back.pop() {
                insert_series(&mut series, s);
            }
            proof {
                done = done + 1;
            }
        }
        proof {
            assert(all.take(done) =~= all);
            ordered_is_in_order(all);
        }
        Census { series }
    }

    /// The distinct symbols, ascending.
    pub fn symbols(&self) -> (out: Vec<String>)
        ensures
            text::texts(out@) == distinct_symbols(self.series@),
    {
        let mut out: Vec<String> = Vec::new();
        let n: usize = self.series.len();
        assert(self.series@.take(0) =~= Seq::<Series>::empty());
        assert(text::texts(out@) =~= Seq::<Seq<char>>::empty());
        for i in 0..n
            invariant
                n == self.series@.len(),
                text::texts(out@) == distinct_symbols(self.series@.take(i as int)),
        {
            assert(self.series@.take(i + 1).drop_last() =~= self.series@.take(i as int));
            let k: usize = out.len();
            let ghost before = out@;
            let fresh: bool = k == 0 || !text::same(&out[k - 1], &self.series[i].symbol);
            if fresh {
                out.push(self.series[i].symbol.clone());
                assert(text::texts(out@) =~= text::texts(before).push(self.series@[i as int].symbol@));
            }
        }
        assert(self.series@.take(n as int) =~= self.series@);
        out
    }

    /// The groups of `symbol`.
    pub fn groups_of(&self, symbol: &str) -> (out: Vec<&Series>)
        ensures
            out@.unref() == groups_for(self.series@, symbol@),
    {
        let mut out: Vec<&Series> = Vec::new();
        let n: usize = self.series.len();
        assert(self.series@.take(0) =~= Seq::<Series>::empty());
        assert(out@.unref() =~= Seq::<Series>::empty());
        for i in 0..n
            invariant
                n == self.series@.len(),
                out@.unref() == groups_for(self.series@.take(i as int), symbol@),
        {
            assert(self.series@.take(i + 1).drop_last() =~= self.series@.take(i as int));
            let ghost before = out@;
            if text::same(&self.series[i].symbol, symbol) {
                out.push(&self.series[i]);
                assert(out@.unref() =~= before.unref().push(self.series@[i as int]));
            }
        }
        assert(self.series@.take(n as int) =~= self.series@);
        out
    }

    /// Apply the `-f/--frequency` entries: which group of each symbol the run
    /// targets, and all that is worth saying about it.
    pub fn resolve(&self, specs: &[ScopedFrequency]) -> (out: Resolution)
        ensures
            keep_texts(out.keep@) == kept_groups(
                outcomes(self.series@, specs@, distinct_symbols(self.series@)),
            ),
            models(out.findings@) == errors_first(all_findings(self.series@, specs@)),
    {
        let mut keep: Vec<(String, String)> = Vec::new();
        let mut findings: Vec<Finding> = Vec::new();
        let mut groups: Vec<(Frequency, Vec<String>)> = Vec::new();
        let symbols: Vec<String> = self.symbols();
        let n: usize = symbols.len();
        let ghost names = text::texts(symbols@);
        let ghost outs = outcomes(self.series@, specs@, names);
        assert(outs.take(0) =~= Seq::<OutcomeModel>::empty());
        assert(names.take(0) =~= Seq::<Seq<char>>::empty());
        assert(keep_texts(keep@) =~= Seq::<(Seq<char>, Seq<char>)>::empty());
        assert(models(findings@) =~= Seq::<FindingModel>::empty());
        assert(cadence_groups(groups@) =~= Seq::<(Frequency, Seq<Seq<char>>)>::empty());
        for i in 0..n
            invariant
                n == symbols@.len(),
                names == text::texts(symbols@),
                names == distinct_symbols(self.series@),
                outs == outcomes(self.series@, specs@, names),
                keep_texts(keep@) == kept_groups(outs.take(i as int)),
                models(findings@) == said(outs.take(i as int)),
                cadence_groups(groups@) == by_cadence(outs.take(i as int), names.take(i as int)),
        {
            proof {
                assert(outs.take(i + 1).drop_last() =~= outs.take(i as int));
                assert(names.take(i + 1).drop_last() =~= names.take(i as int));
                named_symbols_have_groups(self.series@, i as int);
            }
            let ghost kept = keep@;
            let ghost found = findings@;
            let members: Vec<&Series> = self.groups_of(&symbols[i]);
            assert(members@.unref().len() == members@.len());
            let mut decided: Outcome = resolve_symbol(
                &symbols[i],
                &members,
                pick_frequency(specs, &symbols[i]),
            );
            let ghost model = decided@;
            assert(model == outs[i as int]);
            if let Some(k) = decided.keep {
                keep.push(k);
                assert(keep_texts(keep@) =~= keep_texts(kept).push((k.0@, k.1@)));
            }
            let ghost more = decided.findings@;
            findings.append(&mut decided.findings);
            assert(models(findings@) =~= models(found) + models(more));
            if let Some(f) = decided.cadence {
                add_symbol(&mut groups, f, symbols[i].clone());
            }
        }
        proof {
            assert(outs.take(n as int) =~= outs);
            assert(names.take(n as int) =~= names);
        }
        if groups.len() > 1 {
            let ghost found = findings@;
            let mixed: Finding = Finding::Mixed { groups };
            findings.push(mixed);
            assert(models(findings@) =~= models(found).push(mixed@));
        }
        Resolution { keep, findings: sort_findings(findings) }
    }
}

impl Default for Census {
    fn default() -> (out: Census)
        ensures
            out.series@.len() == 0,
    {
        Census { series: Vec::new() }
    }
}


// ---------------------------------------------------------------------------
// Applying the census to a frame
// ---------------------------------------------------------------------------

/// Whether a series is that of a group.
pub open spec fn is_series_of(s: Series, g: GroupModel) -> bool {
    &&& s.symbol@ == g.symbol
    &&& s.freq@ == g.freq
    &&& s.declared == (if g.freq.len() == 0 {
        None
    } else {
        frequency::parsed_frequency(g.freq)
    })
    &&& s.detected == calendar::detected(g.stamps)
    &&& s.bars == g.stamps.len()
    &&& s.undatable == undatables(g.stamps).len()
    &&& s.undatable_example == (if undatables(g.stamps).len() == 0 {
        None
    } else {
        Some(undatables(g.stamps)[0])
    })
}

/// Whether `series` are those of the groups, in order.
pub open spec fn are_series_of(series: Seq<Series>, groups: Seq<GroupModel>) -> bool {
    series.len() == groups.len() && forall|i: int|
        0 <= i < series.len() ==> is_series_of(#[trigger] series[i], groups[i])
}

impl Census {
    /// The census of a loaded frame.
    pub fn of(frame: &DataFrame) -> (out: Census)
        requires
            frame.wf(),
        ensures
            exists|series: Seq<Series>| #[trigger]
                are_series_of(series, data::groups_in(frame.entries())) && out.series@ == ordered(
                    series,
                ),
            in_census_order(out.series@),
    {
        let groups: Vec<CadenceGroup> = frame.cadence_groups();
        let ghost all = data::groups_in(frame.entries());
        let mut series: Vec<Series> = Vec::new();
        let n: usize = groups.len();
        for i in 0..n
            invariant
                n == groups@.len(),
                data::group_models(groups@) == all,
                series@.len() == i,
                forall|k: int| 0 <= k < i ==> is_series_of(#[trigger] series@[k], all[k]),
        {
            assert(groups@[i as int]@ == data::group_models(groups@)[i as int]);
            series.push(Series::new(&groups[i].symbol, &groups[i].freq, &groups[i].stamps));
        }
        assert(are_series_of(series@, all));
        Census::from_groups(series)
    }
}

/// What is said of the `time` cells of one group: nothing where all of them are
/// times, an error where none is.
pub open spec fn time_finding(g: TimeGroupModel) -> Seq<FindingModel> {
    match g.example {
        None => seq![],
        Some(example) => if g.parsed == 0 {
            seq![
                FindingModel::Untimed {
                    symbol: g.symbol,
                    freq: g.freq,
                    total: g.with_cell as usize,
                    example,
                },
            ]
        } else {
            seq![
                FindingModel::PartlyTimed {
                    symbol: g.symbol,
                    freq: g.freq,
                    unparsed: (g.with_cell - g.parsed) as usize,
                    total: g.with_cell as usize,
                    example,
                },
            ]
        },
    }
}

/// What is said of the `time` cells of groups, in order.
pub open spec fn time_findings(groups: Seq<TimeGroupModel>) -> Seq<FindingModel>
    decreases groups.len(),
{
    if groups.len() == 0 {
        seq![]
    } else {
        time_findings(groups.drop_last()) + time_finding(groups.last())
    }
}

/// What is said of the `time` column of a frame.
pub fn census_times(frame: &DataFrame) -> (out: Vec<Finding>)
    requires
        frame.wf(),
    ensures
        models(out@) == time_findings(data::times_in(frame.entries())),
{
    let groups: Vec<TimeGroup> = frame.time_census();
    let ghost all = data::times_in(frame.entries());
    proof {
        data::time_groups_fit(frame.entries());
    }
    let mut out: Vec<Finding> = Vec::new();
    let n: usize = groups.len();
    assert(models(out@) =~= Seq::<FindingModel>::empty());
    for i in 0..n
        invariant
            n == groups@.len(),
            data::time_models(groups@) == all,
            forall|k: int| 0 <= k < all.len() ==> (#[trigger] all[k]).parsed <= all[k].with_cell,
            models(out@) == time_findings(all.take(i as int)),
    {
        let group: &TimeGroup = &groups[i];
        proof {
            assert(all.take(i + 1).drop_last() =~= all.take(i as int));
            assert(group@ == data::time_models(groups@)[i as int]);
        }
        let ghost before = out@;
        if let Some(example) = &group.example {
            let finding: Finding = if group.parsed == 0 {
                Finding::Untimed {
                    symbol: group.symbol.clone(),
                    freq: group.freq.clone(),
                    total: group.with_cell,
                    example: example.clone(),
                }
            } else {
                Finding::PartlyTimed {
                    symbol: group.symbol.clone(),
                    freq: group.freq.clone(),
                    unparsed: group.with_cell - group.parsed,
                    total: group.with_cell,
                    example: example.clone(),
                }
            };
            out.push(finding);
            assert(models(out@) =~= models(before) + time_finding(all[i as int]));
        } else {
            assert(models(out@) =~= models(before) + time_finding(all[i as int]));
        }
    }
    assert(all.take(n as int) =~= all);
    out
}

/// Whether some finding stops the run.
pub open spec fn any_stops(findings: Seq<FindingModel>) -> bool {
    of_weight(findings, true).len() > 0
}

/// The words of the findings that stop a run, each a paragraph.
pub open spec fn stop_message(findings: Seq<FindingModel>) -> Seq<char> {
    let errors = of_weight(findings, true);
    text::joined(Seq::new(errors.len(), |i: int| errors[i].words()), "\n\n"@)
}

/// The words of the findings that stop a run, where there are any.
fn stop_words(findings: &[Finding]) -> (out: Option<String>)
    ensures
        match out {
            Some(m) => any_stops(models(findings@)) && m@ == stop_message(models(findings@)),
            None => !any_stops(models(findings@)),
        },
{
    let mut words: Vec<String> = Vec::new();
    let ghost all = models(findings@);
    let n: usize = findings.len();
    for i in 0..n
        invariant
            n == findings@.len(),
            all == models(findings@),
            words@.len() == of_weight(all.take(i as int), true).len(),
            forall|k: int|
                0 <= k < words@.len() ==> (#[trigger] words@[k])@ == of_weight(
                    all.take(i as int),
                    true,
                )[k].words(),
    {
        assert(all.take(i + 1).drop_last() =~= all.take(i as int));
        if findings[i].is_error() {
            words.push(findings[i].message());
        }
    }
    assert(all.take(n as int) =~= all);
    let ghost errors = of_weight(all, true);
    assert(text::texts(words@) =~= Seq::new(errors.len(), |i: int| errors[i].words()));
    if words.len() == 0 {
        None
    } else {
        Some(text::join(&words, "\n\n"))
    }
}

/// A frame after all choices of cadences, in order.
pub open spec fn all_retained(
    frame: Map<KeyModel, RowModel>,
    keep: Seq<(Seq<char>, Seq<char>)>,
) -> Map<KeyModel, RowModel>
    decreases keep.len(),
{
    if keep.len() == 0 {
        frame
    } else {
        data::retained(all_retained(frame, keep.drop_last()), keep.last().0, keep.last().1)
    }
}

/// Whether a frame has a row of this symbol under another label.
pub open spec fn other_label(
    frame: Map<KeyModel, RowModel>,
    symbol: Seq<char>,
    freq: Seq<char>,
) -> bool {
    exists|k: KeyModel| #[trigger] frame.dom().contains(k) && k.0 == symbol && k.1 != freq
}

/// Tell whether a frame has a row of this symbol under another label; where it has
/// none, keeping this label alone keeps everything.
fn has_other_label(frame: &DataFrame, symbol: &str, freq: &str) -> (out: bool)
    requires
        frame.wf(),
    ensures
        out == other_label(frame@, symbol@, freq@),
        !out ==> data::retained(frame@, symbol@, freq@) == frame@,
{
    let labels: Vec<String> = frame.frequencies_of(symbol);
    let ghost all = frame.entries();
    let n: usize = labels.len();
    for i in 0..n
        invariant
            n == labels@.len(),
            frame.wf(),
            all == frame.entries(),
            text::texts(labels@) == data::labels_in(all, symbol@),
            forall|k: int| 0 <= k < i ==> (#[trigger] labels@[k])@ == freq@,
    {
        if !text::same(&labels[i], freq) {
            proof {
                data::entries_ascend(*frame);
                data::listed_labels_are_carried(all, symbol@, i as int);
                assert(text::texts(labels@)[i as int] == labels@[i as int]@);
                let j = choose|j: int|
                    0 <= j < all.len() && (#[trigger] all[j]).0.0 == symbol@ && all[j].0.1
                        == labels@[i as int]@;
                assert(frame@.dom().contains(all[j].0));
            }
            return true;
        }
    }
    proof {
        data::entries_ascend(*frame);
        assert forall|k: KeyModel| #[trigger] frame@.dom().contains(k) && k.0 == symbol@ implies k.1
            == freq@ by {
            let i = choose|i: int| 0 <= i < all.len() && (#[trigger] all[i]).0 == k;
            data::labels_are_listed(all, i);
            let l = data::labels_in(all, symbol@);
            let j = choose|j: int| 0 <= j < l.len() && l[j] == k.1;
            assert(text::texts(labels@)[j] == labels@[j]@);
        }
        assert(data::retained(frame@, symbol@, freq@) =~= frame@);
    }
    false
}

/// Take the census of a frame, choose a cadence of each symbol by the flags, drop
/// the rows of the others, and give back the warnings; or all errors in one
/// message, with the frame as it was. A frame that is sampled by a number rather
/// than by time has no cadence to choose.
pub fn apply(frame: &mut DataFrame, index_sampled: bool, specs: &[ScopedFrequency]) -> (out: Result<
    Vec<Finding>,
    String,
>)
    requires
        old(frame).wf(),
    ensures
        final(frame).wf(),
        out is Err ==> final(frame)@ == old(frame)@,
        ({
            let entries = old(frame).entries();
            let times = time_findings(data::times_in(entries));
            if any_stops(times) {
                out matches Err(e) && e@ == stop_message(times)
            } else if index_sampled {
                &&& final(frame)@ == old(frame)@
                &&& out matches Ok(f) && models(f@) == times.push(
                    FindingModel::IndexSampled {
                        bars: entries.len() as usize,
                        timed: exists|i: int|
                            0 <= i < entries.len() && calendar::parsed_millis(
                                (#[trigger] entries[i]).0.2,
                            ) is Some,
                    },
                )
            } else {
                exists|series: Seq<Series>| #[trigger]
                    are_series_of(series, data::groups_in(entries)) && {
                        let said_all = errors_first(all_findings(ordered(series), specs@));
                        let keep = kept_groups(
                            outcomes(ordered(series), specs@, distinct_symbols(ordered(series))),
                        );
                        if any_stops(said_all) {
                            out matches Err(e) && e@ == stop_message(said_all)
                        } else {
                            &&& out matches Ok(f) && models(f@) == times + said_all
                            &&& final(frame)@ == all_retained(old(frame)@, keep)
                        }
                    }
            }
        }),
{
    let mut findings: Vec<Finding> = census_times(frame);
    if let Some(message) = stop_words(&findings) {
        return Err(message);
    }
    let ghost times = models(findings@);
    if index_sampled {
        let finding: Finding = Finding::IndexSampled {
            bars: frame.len(),
            timed: frame.has_parseable_times(),
        };
        let ghost before = findings@;
        findings.push(finding);
        assert(models(findings@) =~= models(before).push(finding@));
        return Ok(findings);
    }
    let census: Census = Census::of(frame);
    let resolution: Resolution = census.resolve(specs);
    if let Some(message) = stop_words(&resolution.findings) {
        return Err(message);
    }
    let ghost start = frame@;
    let ghost keep = keep_texts(resolution.keep@);
    let n: usize = resolution.keep.len();
    for i in 0..n
        invariant
            n == resolution.keep@.len(),
            keep == keep_texts(resolution.keep@),
            frame.wf(),
            frame@ == all_retained(start, keep.take(i as int)),
    {
        assert(keep.take(i + 1).drop_last() =~= keep.take(i as int));
        let symbol: &String = &resolution.keep[i].0;
        let freq: &String = &resolution.keep[i].1;
        if has_other_label(frame, symbol, freq) {
            frame.retain_cadence(symbol, freq);
        }
    }
    assert(keep.take(n as int) =~= keep);
    let ghost before = findings@;
    let ghost more = resolution.findings@;
    let mut rest: Vec<Finding> = resolution.findings;
    findings.append(&mut rest);
    assert(models(findings@) =~= models(before) + models(more));
    Ok(findings)
}

// ---------------------------------------------------------------------------
// Laws
// ---------------------------------------------------------------------------

/// A symbol is kept exactly when nothing that is said about it stops the run.
pub proof fn kept_unless_stopped(symbol: Seq<char>, groups: Seq<Series>, pick: Option<Frequency>)
    ensures
        outcome(symbol, groups, pick).keep is Some <==> forall|i: int|
            0 <= i < outcome(symbol, groups, pick).findings.len() ==> !(
            #[trigger] outcome(symbol, groups, pick).findings[i]).stops(),
{
    match choice(symbol, groups, pick) {
        Err(finding) => {
            assert(outcome(symbol, groups, pick).findings[0] == finding);
            assert(finding.stops());
        },
        Ok(group) => {},
    }
}

proof fn of_weight_is_uniform(findings: Seq<FindingModel>, stops: bool)
    ensures
        forall|i: int|
            0 <= i < of_weight(findings, stops).len() ==> (#[trigger] of_weight(findings, stops)[i]).stops()
                == stops,
    decreases findings.len(),
{
    if findings.len() > 0 {
        of_weight_is_uniform(findings.drop_last(), stops);
        let rest = of_weight(findings.drop_last(), stops);
        let all = of_weight(findings, stops);
        assert forall|i: int| 0 <= i < all.len() implies (#[trigger] all[i]).stops() == stops by {
            if i < rest.len() {
                assert(all[i] == rest[i]);
            }
        }
    }
}

/// No warning stands above an error.
pub proof fn errors_stand_above_warnings(findings: Seq<FindingModel>, i: int, j: int)
    requires
        0 <= i < j < errors_first(findings).len(),
        errors_first(findings)[j].stops(),
    ensures
        errors_first(findings)[i].stops(),
{
    of_weight_is_uniform(findings, true);
    of_weight_is_uniform(findings, false);
    let errors = of_weight(findings, true);
    let others = of_weight(findings, false);
    if j >= errors.len() {
        assert(errors_first(findings)[j] == others[j - errors.len()]);
    }
    assert(errors_first(findings)[i] == errors[i]);
}

/// Sorting the findings loses and adds none.
pub proof fn errors_first_keeps_findings(findings: Seq<FindingModel>)
    ensures
        errors_first(findings).to_multiset() == findings.to_multiset(),
    decreases findings.len(),
{
    broadcast use vstd::seq_lib::group_to_multiset_ensures;

    let errors = of_weight(findings, true);
    let others = of_weight(findings, false);
    if findings.len() > 0 {
        let rest = findings.drop_last();
        errors_first_keeps_findings(rest);
        let e = of_weight(rest, true);
        let o = of_weight(rest, false);
        vstd::seq_lib::lemma_multiset_commutative(e, o);
        vstd::seq_lib::lemma_multiset_commutative(errors, others);
        assert(rest.push(findings.last()) =~= findings);
        assert(errors_first(findings).to_multiset() =~= findings.to_multiset());
    } else {
        assert(errors_first(findings) =~= findings);
    }
}

/// Whether the cadences ascend strictly.
pub open spec fn cadences_ascend(groups: Seq<(Frequency, Seq<Seq<char>>)>) -> bool {
    forall|i: int, j: int|
        0 <= i < j < groups.len() ==> (#[trigger] groups[i]).0.shorter((#[trigger] groups[j]).0)
}

proof fn with_symbol_ascends(
    groups: Seq<(Frequency, Seq<Seq<char>>)>,
    f: Frequency,
    symbol: Seq<char>,
)
    requires
        cadences_ascend(groups),
    ensures
        cadences_ascend(with_symbol(groups, f, symbol)),
        forall|g: Frequency|
            (forall|i: int| 0 <= i < groups.len() ==> (#[trigger] groups[i]).0.shorter(g))
                && f.shorter(g) ==> forall|i: int|
                0 <= i < with_symbol(groups, f, symbol).len() ==> (#[trigger] with_symbol(
                    groups,
                    f,
                    symbol,
                )[i]).0.shorter(g),
    decreases groups.len(),
{
    let r = with_symbol(groups, f, symbol);
    if groups.len() == 0 || groups.last().0.shorter(f) {
        assert forall|i: int, j: int| 0 <= i < j < r.len() implies (#[trigger] r[i]).0.shorter(
            (#[trigger] r[j]).0,
        ) by {
            if j == groups.len() && i < groups.len() - 1 {
                frequency::shorter_is_transitive(groups[i].0, groups.last().0, f);
            }
        }
    } else if groups.last().0 == f {
        assert forall|i: int, j: int| 0 <= i < j < r.len() implies (#[trigger] r[i]).0.shorter(
            (#[trigger] r[j]).0,
        ) by {
            assert(groups[i].0.shorter(groups[j].0));
        }
        assert forall|g: Frequency|
            (forall|i: int| 0 <= i < groups.len() ==> (#[trigger] groups[i]).0.shorter(g))
                && f.shorter(g) implies forall|i: int|
            0 <= i < r.len() ==> (#[trigger] r[i]).0.shorter(g) by {
            assert forall|i: int| 0 <= i < r.len() implies (#[trigger] r[i]).0.shorter(g) by {
                assert(groups[i].0.shorter(g));
            }
        }
    } else {
        let rest = groups.drop_last();
        let last = groups.last().0;
        with_symbol_ascends(rest, f, symbol);
        frequency::shorter_is_total(f, last);
        let head = with_symbol(rest, f, symbol);
        assert forall|i: int| 0 <= i < rest.len() implies (#[trigger] rest[i]).0.shorter(last) by {
            assert(groups[i].0.shorter(groups[groups.len() - 1].0));
        }
        assert(forall|i: int| 0 <= i < head.len() ==> (#[trigger] head[i]).0.shorter(last));
        assert forall|i: int, j: int| 0 <= i < j < r.len() implies (#[trigger] r[i]).0.shorter(
            (#[trigger] r[j]).0,
        ) by {
            if j < head.len() {
                assert(head[i].0.shorter(head[j].0));
            } else {
                assert(head[i].0.shorter(last));
            }
        }
        assert forall|g: Frequency|
            (forall|i: int| 0 <= i < groups.len() ==> (#[trigger] groups[i]).0.shorter(g))
                && f.shorter(g) implies forall|i: int|
            0 <= i < r.len() ==> (#[trigger] r[i]).0.shorter(g) by {
            assert forall|i: int| 0 <= i < rest.len() implies (#[trigger] rest[i]).0.shorter(g) by {
                assert(groups[i].0.shorter(g));
            }
            assert(groups[groups.len() - 1].0.shorter(g));
            assert forall|i: int| 0 <= i < r.len() implies (#[trigger] r[i]).0.shorter(g) by {
                if i < head.len() {
                    assert(r[i] == head[i]);
                }
            }
        }
    }
}

/// A mixed universe lists its cadences from the shortest, each once.
pub proof fn mixed_cadences_ascend(outs: Seq<OutcomeModel>, symbols: Seq<Seq<char>>)
    ensures
        cadences_ascend(by_cadence(outs, symbols)),
    decreases outs.len(),
{
    if outs.len() > 0 {
        mixed_cadences_ascend(outs.drop_last(), symbols.drop_last());
        if let Some(f) = outs.last().cadence {
            with_symbol_ascends(
                by_cadence(outs.drop_last(), symbols.drop_last()),
                f,
                symbols.last(),
            );
        }
    }
}

/// The stamps that no calendar holds are those outside the days from the first of the
/// year -9999 to the last of the year 9999.
pub proof fn the_calendar_holds_whole_days(ms: i64)
    ensures
        datable(ms) <==> -4_371_587 * 86_400_000 <= ms < 2_932_897 * 86_400_000,
{
}

/// The stamps that no calendar holds, in order.
pub proof fn undatables_are_picked_out(stamps: Seq<i64>)
    ensures
        undatables(stamps) == stamps.filter(|ms: i64| !datable(ms)),
    decreases stamps.len(),
{
    reveal(Seq::filter);
    if stamps.len() > 0 {
        undatables_are_picked_out(stamps.drop_last());
    }
}

/// The groups with a label, and those of a symbol, are picked out in order.
pub proof fn groups_are_picked_out(groups: Seq<Series>, symbol: Seq<char>)
    ensures
        labelled_groups(groups) == groups.filter(|s: Series| s.freq@.len() > 0),
        groups_for(groups, symbol) == groups.filter(|s: Series| s.symbol@ == symbol),
    decreases groups.len(),
{
    reveal(Seq::filter);
    if groups.len() > 0 {
        groups_are_picked_out(groups.drop_last(), symbol);
    }
}

/// The findings that stop a run, or those that do not, are picked out in order.
pub proof fn findings_are_picked_out(findings: Seq<FindingModel>, stops: bool)
    ensures
        of_weight(findings, stops) == findings.filter(|f: FindingModel| f.stops() == stops),
    decreases findings.len(),
{
    reveal(Seq::filter);
    if findings.len() > 0 {
        findings_are_picked_out(findings.drop_last(), stops);
    }
}

/// A run stops over a symbol with several cadences, over a cadence that is not there,
/// over rows that belong to no cadence, and over times that spell none; the rest are
/// warnings.
pub proof fn what_stops_a_run(f: FindingModel)
    ensures
        f.stops() <==> !(f is Mixed || f is PartlyTimed || f is Undatable || f is IndexSampled || f
            is Mislabelled),
{
}

proof fn labelled_are_groups(groups: Seq<Series>)
    ensures
        forall|i: int|
            0 <= i < labelled_groups(groups).len() ==> groups.contains(
                #[trigger] labelled_groups(groups)[i],
            ) && labelled_groups(groups)[i].labelled(),
        forall|i: int|
            0 <= i < groups.len() && (#[trigger] groups[i]).labelled() ==> labelled_groups(
                groups,
            ).contains(groups[i]),
        labelled_groups(groups).len() <= groups.len(),
        (forall|i: int| 0 <= i < groups.len() ==> (#[trigger] groups[i]).labelled())
            ==> labelled_groups(groups) == groups,
    decreases groups.len(),
{
    if groups.len() > 0 {
        let less = groups.drop_last();
        labelled_are_groups(less);
        let all = labelled_groups(groups);
        let rest = labelled_groups(less);
        assert forall|i: int| 0 <= i < all.len() implies groups.contains(#[trigger] all[i])
            && all[i].labelled() by {
            if i < rest.len() {
                assert(all[i] == rest[i]);
                let k = choose|k: int| 0 <= k < less.len() && less[k] == rest[i];
                assert(groups[k] == rest[i]);
            } else {
                assert(groups[groups.len() - 1] == all[i]);
            }
        }
        assert forall|i: int| 0 <= i < groups.len() && (#[trigger] groups[i]).labelled() implies
            all.contains(groups[i]) by {
            if i < less.len() {
                assert(less[i] == groups[i]);
                let k = choose|k: int| 0 <= k < rest.len() && rest[k] == groups[i];
                assert(all[k] == groups[i]);
            } else {
                assert(all[all.len() - 1] == groups[i]);
            }
        }
        if forall|i: int| 0 <= i < groups.len() ==> (#[trigger] groups[i]).labelled() {
            assert forall|i: int| 0 <= i < less.len() implies (#[trigger] less[i]).labelled() by {
                assert(less[i] == groups[i]);
            }
            assert(groups[groups.len() - 1].labelled());
            assert(less.push(groups.last()) =~= groups);
        }
    }
}

proof fn untagged_is_first(groups: Seq<Series>)
    ensures
        0 <= first_untagged(groups) <= groups.len(),
        first_untagged(groups) < groups.len() ==> !groups[first_untagged(groups)].labelled(),
        forall|i: int| 0 <= i < first_untagged(groups) ==> (#[trigger] groups[i]).labelled(),
    decreases groups.len(),
{
    if groups.len() > 0 {
        let less = groups.drop_last();
        untagged_is_first(less);
        let k = first_untagged(less);
        assert forall|i: int| 0 <= i < first_untagged(groups) implies (
        #[trigger] groups[i]).labelled() by {
            if i < k {
                assert(less[i] == groups[i]);
            }
        }
        if k < less.len() {
            assert(groups[k] == less[k]);
        }
    }
}

proof fn declaring_is_first(groups: Seq<Series>, want: Frequency)
    ensures
        0 <= first_declaring(groups, want) <= groups.len(),
        first_declaring(groups, want) < groups.len() ==> groups[first_declaring(
            groups,
            want,
        )].declared == Some(want),
        forall|i: int|
            0 <= i < first_declaring(groups, want) ==> (#[trigger] groups[i]).declared != Some(want),
    decreases groups.len(),
{
    if groups.len() > 0 {
        let less = groups.drop_last();
        declaring_is_first(less, want);
        let k = first_declaring(less, want);
        assert forall|i: int| 0 <= i < first_declaring(groups, want) implies (
        #[trigger] groups[i]).declared != Some(want) by {
            if i < k {
                assert(less[i] == groups[i]);
            }
        }
        if k < less.len() {
            assert(groups[k] == less[k]);
        }
    }
}

/// What is traded is never chosen silently. The group that is kept is one of the
/// symbol's; where a cadence was asked for, no group that declares another is kept.
/// Of several groups one is kept only where it was asked for. Rows without a label
/// beside rows with one stop the run, and so does a cadence that no group declares
/// beside groups that declare others.
#[verifier::rlimit(40)]
pub proof fn a_choice_is_never_silent(
    symbol: Seq<char>,
    groups: Seq<Series>,
    pick: Option<Frequency>,
)
    requires
        groups.len() > 0,
    ensures
        ({
            let out = choice(symbol, groups, pick);
            let mixed = (exists|i: int| 0 <= i < groups.len() && !(#[trigger] groups[i]).labelled())
                && (exists|i: int| 0 <= i < groups.len() && (#[trigger] groups[i]).labelled());
            let all_labelled = forall|i: int|
                0 <= i < groups.len() ==> (#[trigger] groups[i]).labelled();
            &&& out matches Ok(g) ==> groups.contains(g)
            &&& (out matches Ok(g) && pick is Some && g.declared is Some) ==> out->Ok_0.declared
                == pick
            &&& (out is Ok && all_labelled && groups.len() > 1) ==> pick is Some
                && out->Ok_0.declared == pick
            &&& (all_labelled && groups.len() > 1 && pick is None) ==> (out matches Err(
                FindingModel::Ambiguous { symbol: s, cadences },
            ) && s == symbol && cadences.len() == groups.len() && forall|i: int|
                0 <= i < groups.len() ==> #[trigger] cadences[i] == (
                    groups[i].freq@,
                    groups[i].bars,
                ))
            &&& (all_labelled && groups.len() > 1 && pick is Some && exists|i: int|
                0 <= i < groups.len() && (#[trigger] groups[i]).declared == pick) ==> out is Ok
            &&& (all_labelled && pick is Some && forall|i: int|
                0 <= i < groups.len() ==> (#[trigger] groups[i]).declared is Some
                    && groups[i].declared != pick) ==> (out matches Err(
                FindingModel::Absent { symbol: s, requested, available },
            ) && s == symbol && requested == pick->0 && available.len() == groups.len()
                && forall|i: int|
                0 <= i < groups.len() ==> #[trigger] available[i] == groups[i].freq@)
            &&& out is Err && out->Err_0 is Untagged <==> mixed
            &&& (groups.len() == 1 && pick is None) ==> out == Ok::<Series, FindingModel>(groups[0])
        }),
{
    labelled_are_groups(groups);
    untagged_is_first(groups);
    let labelled = labelled_groups(groups);
    if let Some(want) = pick {
        declaring_is_first(labelled, want);
        if exists|i: int| 0 <= i < groups.len() && (#[trigger] groups[i]).declared == pick {
            let i = choose|i: int| 0 <= i < groups.len() && (#[trigger] groups[i]).declared == pick;
            if groups[i].labelled() {
                assert(labelled.contains(groups[i]));
            }
        }
        let k = first_declaring(labelled, want);
        if k < labelled.len() {
            assert(groups.contains(labelled[k]));
        }
    }
    assert(groups.contains(groups[0]));
    if labelled.len() > 0 {
        assert(groups.contains(labelled[0]) && labelled[0].labelled());
    }
    if exists|i: int| 0 <= i < groups.len() && (#[trigger] groups[i]).labelled() {
        let i = choose|i: int| 0 <= i < groups.len() && (#[trigger] groups[i]).labelled();
        assert(labelled.contains(groups[i]));
    }
    if forall|i: int| 0 <= i < groups.len() ==> (#[trigger] groups[i]).labelled() {
        assert(labelled == groups);
        if first_untagged(groups) < groups.len() {
            assert(groups[first_untagged(groups)].labelled());
        }
    }
}

/// A label, or a flag where there is none, is doubted only where it differs from what
/// the times show and there are ten bars or more to show it; the doubt says which
/// is which. A calendar is doubted where it does not hold some of the stamps.
pub proof fn doubts_are_grounded(symbol: Seq<char>, group: Series, pick: Option<Frequency>, i: int)
    requires
        0 <= i < doubts(symbol, group, pick).len(),
    ensures
        ({
            let d = doubts(symbol, group, pick)[i];
            &&& d is Mislabelled || d is Undatable
            &&& d matches FindingModel::Mislabelled { symbol: s, stated, from, detected, bars }
                ==> s == symbol && group.detected == Some(detected) && stated != detected && bars
                == group.bars && bars >= 10 && (from == Stated::Column
                ==> group.declared == Some(stated)) && (from == Stated::Flag ==> group.declared
                is None && pick == Some(stated))
            &&& d matches FindingModel::Undatable { symbol: s, freq, bars, total, example } ==> s
                == symbol && freq == group.freq@ && bars == group.undatable && bars > 0 && total
                == group.bars && group.undatable_example == Some(example)
        }),
{
}

/// A symbol runs at the cadence that was asked for, else at the one its label
/// declares, else at the one its times show; one that stops has none.
pub proof fn the_stated_cadence_comes_first(
    symbol: Seq<char>,
    groups: Seq<Series>,
    pick: Option<Frequency>,
)
    requires
        groups.len() > 0,
    ensures
        ({
            let out = outcome(symbol, groups, pick);
            &&& out.keep is Some <==> choice(symbol, groups, pick) is Ok
            &&& out.keep matches Some((s, label)) ==> s == symbol && exists|i: int|
                0 <= i < groups.len() && (#[trigger] groups[i]).freq@ == label && (pick is Some
                    ==> out.cadence == pick) && (pick is None && groups[i].declared is Some
                    ==> out.cadence == groups[i].declared) && (pick is None
                    && groups[i].declared is None ==> out.cadence == groups[i].detected)
            &&& out.keep is None ==> out.cadence is None && out.findings.len() == 1
                && out.findings[0].stops()
        }),
{
    a_choice_is_never_silent(symbol, groups, pick);
    if let Ok(g) = choice(symbol, groups, pick) {
        let i = choose|i: int| 0 <= i < groups.len() && groups[i] == g;
        assert(groups[i].freq@ == g.freq@);
    }
}

/// A row stays exactly where no label is kept for its symbol but its own, and it stays
/// as it is.
pub proof fn kept_labels_decide(
    frame: Map<KeyModel, RowModel>,
    keep: Seq<(Seq<char>, Seq<char>)>,
    k: KeyModel,
)
    ensures
        all_retained(frame, keep).dom().contains(k) <==> frame.dom().contains(k) && forall|i: int|
            0 <= i < keep.len() && (#[trigger] keep[i]).0 == k.0 ==> keep[i].1 == k.1,
        all_retained(frame, keep).dom().contains(k) ==> all_retained(frame, keep)[k] == frame[k],
    decreases keep.len(),
{
    if keep.len() > 0 {
        let less = keep.drop_last();
        kept_labels_decide(frame, less, k);
        assert(forall|i: int| 0 <= i < less.len() ==> #[trigger] less[i] == keep[i]);
        assert(forall|i: int| 0 <= i < less.len() ==> #[trigger] keep[i] == less[i]);
        assert(keep[keep.len() - 1] == keep.last());
    }
}

/// A group of which some times spell none is reported with the first such time: as
/// untimed where none of them spells one, else with their number.
pub proof fn unread_times_are_reported(g: TimeGroupModel)
    requires
        g.parsed <= g.with_cell <= usize::MAX,
        g.example is Some <==> g.parsed < g.with_cell,
    ensures
        g.parsed == g.with_cell ==> time_finding(g).len() == 0,
        g.parsed < g.with_cell ==> time_finding(g).len() == 1,
        g.parsed < g.with_cell && g.parsed == 0 ==> (time_finding(g)[0] matches
            FindingModel::Untimed { symbol, freq, total, example } && symbol == g.symbol && freq
            == g.freq && total == g.with_cell && g.example == Some(example)),
        g.parsed < g.with_cell && g.parsed > 0 ==> (time_finding(g)[0] matches
            FindingModel::PartlyTimed { symbol, freq, unparsed, total, example } && symbol
            == g.symbol && freq == g.freq && total == g.with_cell && unparsed + g.parsed
            == g.with_cell && g.example == Some(example)),
{
}

proof fn symbol_is_put(
    groups: Seq<(Frequency, Seq<Seq<char>>)>,
    f: Frequency,
    symbol: Seq<char>,
)
    requires
        cadences_ascend(groups),
    ensures
        exists|i: int|
            0 <= i < with_symbol(groups, f, symbol).len() && (#[trigger] with_symbol(
                groups,
                f,
                symbol,
            )[i]).0 == f && with_symbol(groups, f, symbol)[i].1.contains(symbol),
        forall|i: int, s: Seq<char>|
            0 <= i < groups.len() && #[trigger] groups[i].1.contains(s) ==> exists|j: int|
                0 <= j < with_symbol(groups, f, symbol).len() && (#[trigger] with_symbol(
                    groups,
                    f,
                    symbol,
                )[j]).0 == groups[i].0 && with_symbol(groups, f, symbol)[j].1.contains(s),
    decreases groups.len(),
{
    let out = with_symbol(groups, f, symbol);
    if groups.len() == 0 || groups.last().0.shorter(f) {
        let n = groups.len() as int;
        assert(out[n].1[0] == symbol);
        assert(out[n].0 == f && out[n].1.contains(symbol));
        assert forall|i: int, s: Seq<char>|
            0 <= i < groups.len() && #[trigger] groups[i].1.contains(s) implies exists|j: int|
            0 <= j < out.len() && (#[trigger] out[j]).0 == groups[i].0 && out[j].1.contains(s) by {
            assert(out[i] == groups[i]);
        }
    } else if groups.last().0 == f {
        let n = groups.len() - 1;
        let names = groups.last().1;
        assert(out[n].1 == names.push(symbol));
        assert(out[n].1[names.len() as int] == symbol);
        assert(out[n].0 == f && out[n].1.contains(symbol));
        assert forall|i: int, s: Seq<char>|
            0 <= i < groups.len() && #[trigger] groups[i].1.contains(s) implies exists|j: int|
            0 <= j < out.len() && (#[trigger] out[j]).0 == groups[i].0 && out[j].1.contains(s) by {
            if i < n {
                assert(out[i] == groups[i]);
            } else {
                let k = choose|k: int| 0 <= k < names.len() && names[k] == s;
                assert(out[n].1[k] == s);
                assert(out[n].0 == groups[i].0 && out[n].1.contains(s));
            }
        }
    } else {
        let less = groups.drop_last();
        assert forall|i: int, j: int| 0 <= i < j < less.len() implies (
        #[trigger] less[i]).0.shorter((#[trigger] less[j]).0) by {
            assert(less[i] == groups[i] && less[j] == groups[j]);
        }
        symbol_is_put(less, f, symbol);
        let inner = with_symbol(less, f, symbol);
        assert(out == inner.push(groups.last()));
        let p = choose|p: int|
            0 <= p < inner.len() && (#[trigger] inner[p]).0 == f && inner[p].1.contains(symbol);
        assert(out[p] == inner[p]);
        assert forall|i: int, s: Seq<char>|
            0 <= i < groups.len() && #[trigger] groups[i].1.contains(s) implies exists|j: int|
            0 <= j < out.len() && (#[trigger] out[j]).0 == groups[i].0 && out[j].1.contains(s) by {
            if i < less.len() {
                assert(less[i] == groups[i]);
                assert(less[i].1.contains(s));
                let j = choose|j: int|
                    0 <= j < inner.len() && (#[trigger] inner[j]).0 == less[i].0
                        && inner[j].1.contains(s);
                assert(out[j] == inner[j]);
            } else {
                assert(out[inner.len() as int] == groups[i]);
            }
        }
    }
}

/// Every symbol that runs at a cadence is listed under it.
pub proof fn symbols_are_listed_by_cadence(
    outs: Seq<OutcomeModel>,
    symbols: Seq<Seq<char>>,
    k: int,
)
    requires
        outs.len() == symbols.len(),
        0 <= k < outs.len(),
        outs[k].cadence is Some,
    ensures
        exists|i: int|
            0 <= i < by_cadence(outs, symbols).len() && (#[trigger] by_cadence(outs, symbols)[i]).0
                == outs[k].cadence->0 && by_cadence(outs, symbols)[i].1.contains(symbols[k]),
    decreases outs.len(),
{
    let less = outs.drop_last();
    let names = symbols.drop_last();
    let rest = by_cadence(less, names);
    mixed_cadences_ascend(less, names);
    if k < less.len() {
        symbols_are_listed_by_cadence(less, names, k);
        assert(less[k] == outs[k] && names[k] == symbols[k]);
        let i = choose|i: int|
            0 <= i < rest.len() && (#[trigger] rest[i]).0 == less[k].cadence->0
                && rest[i].1.contains(names[k]);
        assert(rest[i].1.contains(symbols[k]));
        if let Some(f) = outs.last().cadence {
            symbol_is_put(rest, f, symbols.last());
            let out = with_symbol(rest, f, symbols.last());
            assert(by_cadence(outs, symbols) == out);
            let j = choose|j: int|
                0 <= j < out.len() && (#[trigger] out[j]).0 == rest[i].0 && out[j].1.contains(
                    symbols[k],
                );
            assert(by_cadence(outs, symbols)[j].0 == outs[k].cadence->0);
        } else {
            assert(by_cadence(outs, symbols) == rest);
            assert(by_cadence(outs, symbols)[i].0 == outs[k].cadence->0);
        }
    } else {
        let f = outs.last().cadence->0;
        symbol_is_put(rest, f, symbols.last());
        let out = with_symbol(rest, f, symbols.last());
        assert(by_cadence(outs, symbols) == out);
        let j = choose|j: int|
            0 <= j < out.len() && (#[trigger] out[j]).0 == f && out[j].1.contains(symbols.last());
        assert(by_cadence(outs, symbols)[j].0 == outs[k].cadence->0);
    }
}

} // verus!
