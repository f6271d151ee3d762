//! Market data: bars, times, and the side channel of named values that a bar may
//! carry.

use std::sync::Arc;

use vstd::prelude::*;

use crate::calendar::detect_frequency_from_millis;
use crate::calendar;
use crate::frequency::Frequency;
use crate::number::Real;
use crate::text;

verus! {

/// Milliseconds since the Unix epoch.
#[derive(Clone, Copy, Debug, PartialEq, Eq, Structural)]
pub struct Timestamp(pub i64);

/// One price bar.
#[derive(Clone, Copy, Debug, PartialEq, Eq, Structural)]
pub struct Candle {
    pub open: Real,
    pub high: Real,
    pub low: Real,
    pub close: Real,
    pub volume: Real,
}

impl Candle {
    /// A bar with these prices and this volume.
    pub fn new(open: Real, high: Real, low: Real, close: Real, volume: Real) -> (out: Candle)
        ensures
            out == (Candle { open, high, low, close, volume }),
    {
        Candle { open, high, low, close, volume }
    }
}

/// The type of an overlay column.
#[derive(Clone, Copy, Debug, PartialEq, Eq, Structural)]
pub enum OverlayType {
    Real,
    Bool,
    Str,
}

/// One overlay value.
#[derive(Clone, Debug, PartialEq, Eq)]
pub enum OverlayValue {
    Real(Real),
    Bool(bool),
    Str(String),
}

/// An overlay value as a mathematical value.
pub enum OverlayModel {
    Real(Real),
    Bool(bool),
    Str(Seq<char>),
}

impl View for OverlayValue {
    type V = OverlayModel;

    open spec fn view(&self) -> OverlayModel {
        match *self {
            OverlayValue::Real(r) => OverlayModel::Real(r),
            OverlayValue::Bool(b) => OverlayModel::Bool(b),
            OverlayValue::Str(s) => OverlayModel::Str(s@),
        }
    }
}

/// The names and types of overlay columns, in order.
#[derive(Debug, PartialEq, Eq)]
pub struct Schema {
    pub columns: Vec<(String, OverlayType)>,
}

/// Columns as values.
pub open spec fn columns_of(v: Seq<(String, OverlayType)>) -> Seq<(Seq<char>, OverlayType)> {
    Seq::new(v.len(), |i: int| (v[i].0@, v[i].1))
}

impl View for Schema {
    type V = Seq<(Seq<char>, OverlayType)>;

    open spec fn view(&self) -> Seq<(Seq<char>, OverlayType)> {
        columns_of(self.columns@)
    }
}

/// The place of the first column named `key`, or the number of columns.
pub open spec fn column_place(columns: Seq<(Seq<char>, OverlayType)>, key: Seq<char>) -> int
    decreases columns.len(),
{
    if columns.len() == 0 {
        0
    } else if columns[0].0 == key {
        0
    } else {
        1 + column_place(columns.skip(1), key)
    }
}

/// `column_place` is the first place of the key.
pub proof fn column_place_is_first(columns: Seq<(Seq<char>, OverlayType)>, key: Seq<char>)
    ensures
        0 <= column_place(columns, key) <= columns.len(),
        column_place(columns, key) < columns.len() ==> columns[column_place(columns, key)].0 == key,
        forall|i: int| 0 <= i < column_place(columns, key) ==> (#[trigger] columns[i]).0 != key,
    decreases columns.len(),
{
    if columns.len() > 0 && columns[0].0 != key {
        column_place_is_first(columns.skip(1), key);
        assert forall|i: int| 0 <= i < column_place(columns, key) implies (
        #[trigger] columns[i]).0 != key by {
            if i > 0 {
                assert(columns.skip(1)[i - 1] == columns[i]);
            }
        }
    }
}

impl Schema {
    /// The place of the column named `key`.
    pub fn index_of(&self, key: &str) -> (out: Option<usize>)
        ensures
            match out {
                Some(i) => i == column_place(self@, key@) && i < self@.len(),
                None => column_place(self@, key@) == self@.len(),
            },
    {
        let n: usize = self.columns.len();
        let mut i: usize = 0;
        assert(self@.skip(0) =~= self@);
        while i < n
            invariant
                n == self.columns@.len(),
                i <= n,
                column_place(self@, key@) == i + column_place(self@.skip(i as int), key@),
            decreases n - i,
        {
            if text::same(&self.columns[i].0, key) {
                return Some(i);
            }
            assert(self@.skip(i as int).skip(1) =~= self@.skip(i + 1));
            i = i + 1;
        }
        None
    }

    /// The type of the column at `i`.
    pub fn type_of(&self, i: usize) -> (out: Option<OverlayType>)
        ensures
            out == (if i < self@.len() {
                Some(self@[i as int].1)
            } else {
                None
            }),
    {
        if i < self.columns.len() {
            Some(self.columns[i].1)
        } else {
            None
        }
    }

    /// The type of the column named `key`.
    pub fn type_of_key(&self, key: &str) -> (out: Option<OverlayType>)
        ensures
            out == (if column_place(self@, key@) < self@.len() {
                Some(self@[column_place(self@, key@)].1)
            } else {
                None
            }),
    {
        match self.index_of(key) {
            Some(i) => self.type_of(i),
            None => None,
        }
    }

    /// Whether there is a column named `key`.
    pub fn contains(&self, key: &str) -> (out: bool)
        ensures
            out == (column_place(self@, key@) < self@.len()),
    {
        proof {
            column_place_is_first(self@, key@);
        }
        self.index_of(key).is_some()
    }

    /// The names of the columns, in order.
    pub fn keys(&self) -> (out: Vec<String>)
        ensures
            text::texts(out@) == Seq::new(self@.len(), |i: int| self@[i].0),
    {
        let mut out: Vec<String> = Vec::new();
        let n: usize = self.columns.len();
        for i in 0..n
            invariant
                n == self.columns@.len(),
                out@.len() == i,
                forall|j: int| 0 <= j < i ==> (#[trigger] out@[j])@ == self.columns@[j].0@,
        {
            out.push(self.columns[i].0.clone());
        }
        assert(text::texts(out@) =~= Seq::new(self@.len(), |i: int| self@[i].0));
        out
    }
}

/// The overlay values of one bar, in the order of the schema's columns.
#[derive(Clone, Debug, PartialEq, Eq)]
pub struct OverlayInfo {
    pub schema: Arc<Schema>,
    pub values: Vec<OverlayValue>,
}

/// Overlay values as mathematical values.
pub open spec fn overlay_values(v: Seq<OverlayValue>) -> Seq<OverlayModel> {
    Seq::new(v.len(), |i: int| v[i]@)
}

/// `Arc::clone` gives another handle on the same value.
#[verifier::external_body]
pub(crate) fn share(schema: &Arc<Schema>) -> (out: Arc<Schema>)
    ensures
        out == *schema,
{
    Arc::clone(schema)
}

impl OverlayInfo {
    /// The schema that the values belong to.
    pub fn schema(&self) -> (out: &Arc<Schema>)
        ensures
            *out == self.schema,
    {
        &self.schema
    }

    /// The value of the column at `i`.
    pub fn get(&self, i: usize) -> (out: Option<&OverlayValue>)
        ensures
            match out {
                Some(v) => i < self.values@.len() && *v == self.values@[i as int],
                None => i >= self.values@.len(),
            },
    {
        if i < self.values.len() {
            Some(&self.values[i])
        } else {
            None
        }
    }

    /// The value of the column at `i`, where it is a number.
    pub fn get_real(&self, i: usize) -> (out: Option<Real>)
        ensures
            out == (if i < self.values@.len() {
                match self.values@[i as int] {
                    OverlayValue::Real(r) => Some(r),
                    _ => None,
                }
            } else {
                None
            }),
    {
        match self.get(i) {
            Some(OverlayValue::Real(r)) => Some(*r),
            _ => None,
        }
    }

    /// The value of the column at `i`, where it is a truth value.
    pub fn get_bool(&self, i: usize) -> (out: Option<bool>)
        ensures
            out == (if i < self.values@.len() {
                match self.values@[i as int] {
                    OverlayValue::Bool(b) => Some(b),
                    _ => None,
                }
            } else {
                None
            }),
    {
        match self.get(i) {
            Some(OverlayValue::Bool(b)) => Some(*b),
            _ => None,
        }
    }

    /// The value of the column at `i`, where it is a text.
    pub fn get_str(&self, i: usize) -> (out: Option<&str>)
        ensures
            match out {
                Some(s) => i < self.values@.len() && self.values@[i as int]@ == OverlayModel::Str(
                    s@,
                ),
                None => i < self.values@.len() ==> !(self.values@[i as int] is Str),
            },
    {
        match self.get(i) {
            Some(OverlayValue::Str(s)) => Some(s.as_str()),
            _ => None,
        }
    }

    /// The value of the column named `key`.
    pub fn get_by_key(&self, key: &str) -> (out: Option<&OverlayValue>)
        ensures
            ({
                let i = column_place(self.schema@, key@);
                match out {
                    Some(v) => i < self.schema@.len() && i < self.values@.len() && *v
                        == self.values@[i],
                    None => i >= self.schema@.len() || i >= self.values@.len(),
                }
            }),
    {
        match self.schema.index_of(key) {
            Some(i) => self.get(i),
            None => None,
        }
    }
}

/// One bar of one series: its prices, its time and its overlay values, each
/// where it has them.
#[derive(Clone, Debug, PartialEq, Eq)]
pub struct Atom {
    pub candle: Option<Candle>,
    pub time: Option<Timestamp>,
    pub overlays: Option<OverlayInfo>,
}

/// A bar as values.
pub struct AtomModel {
    pub candle: Option<Candle>,
    pub time: Option<Timestamp>,
    pub overlays: Option<(Seq<(Seq<char>, OverlayType)>, Seq<OverlayModel>)>,
}

impl View for Atom {
    type V = AtomModel;

    open spec fn view(&self) -> AtomModel {
        AtomModel {
            candle: self.candle,
            time: self.time,
            overlays: match self.overlays {
                Some(o) => Some((o.schema@, overlay_values(o.values@))),
                None => None,
            },
        }
    }
}

impl Atom {
    /// A bar with prices and nothing else.
    pub fn new(candle: Candle) -> (out: Atom)
        ensures
            out == (Atom { candle: Some(candle), time: None, overlays: None }),
    {
        Atom { candle: Some(candle), time: None, overlays: None }
    }

    /// A bar with prices and a time.
    pub fn with_time(candle: Candle, time: Timestamp) -> (out: Atom)
        ensures
            out == (Atom { candle: Some(candle), time: Some(time), overlays: None }),
    {
        Atom { candle: Some(candle), time: Some(time), overlays: None }
    }

    /// A second bar that is the same.
    pub fn copy(&self) -> (out: Atom)
        ensures
            out@ == self@,
    {
        let overlays: Option<OverlayInfo> = match &self.overlays {
            None => None,
            Some(o) => {
                let mut values: Vec<OverlayValue> = Vec::new();
                let n: usize = o.values.len();
                for i in 0..n
                    invariant
                        n == o.values@.len(),
                        values@.len() == i,
                        forall|j: int| 0 <= j < i ==> (#[trigger] values@[j])@ == o.values@[j]@,
                {
                    let value: OverlayValue = match &o.values[i] {
                        OverlayValue::Real(r) => OverlayValue::Real(*r),
                        OverlayValue::Bool(b) => OverlayValue::Bool(*b),
                        OverlayValue::Str(s) => OverlayValue::Str(s.clone()),
                    };
                    values.push(value);
                }
                assert(overlay_values(values@) =~= overlay_values(o.values@));
                Some(OverlayInfo { schema: share(&o.schema), values })
            },
        };
        Atom { candle: self.candle, time: self.time, overlays }
    }

    /// Whether the bar has prices.
    pub fn is_priceable(&self) -> (out: bool)
        ensures
            out == (self.candle is Some),
    {
        self.candle.is_some()
    }
}

/// The times of bars that have one, in order.
pub open spec fn stamps_of(atoms: Seq<Atom>) -> Seq<i64>
    decreases atoms.len(),
{
    if atoms.len() == 0 {
        seq![]
    } else {
        match atoms.last().time {
            Some(t) => stamps_of(atoms.drop_last()).push(t.0),
            None => stamps_of(atoms.drop_last()),
        }
    }
}

/// The cadence of a series of bars, by the median gap between their times.
pub fn detect_frequency_from_atoms(atoms: &[Atom]) -> (out: Option<Frequency>)
    ensures
        out == calendar::detected(stamps_of(atoms@)),
{
    let mut stamps: Vec<i64> = Vec::new();
    let n: usize = atoms.len();
    assert(atoms@.take(0) =~= Seq::<Atom>::empty());
    for i in 0..n
        invariant
            n == atoms@.len(),
            stamps@ == stamps_of(atoms@.take(i as int)),
    {
        assert(atoms@.take(i + 1).drop_last() =~= atoms@.take(i as int));
        if let Some(t) = atoms[i].time {
            stamps.push(t.0);
        }
    }
    assert(atoms@.take(n as int) =~= atoms@);
    detect_frequency_from_millis(&stamps)
}

} // verus!
