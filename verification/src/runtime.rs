//! Indicators whose types are known only when they run: one kind of handle for all
//! of them, with the types of what it takes and what it gives.
//!
//! What an indicator does is told by its replies: the value that the last of a
//! series of updates returns. An update moves the indicator on by its input, so
//! that the replies after it are those of the longer series.

use vstd::prelude::*;
use vstd::std_specs::convert::{FromSpec, TryFromSpec};

use crate::market::{Atom, AtomModel, Candle};
use crate::number::Real;

verus! {

// ---------------------------------------------------------------------------
// Values and their types
// ---------------------------------------------------------------------------

/// The type of a value.
#[derive(Debug, Clone, Copy, PartialEq, Eq, Structural)]
pub enum DynType {
    Real,
    Bool,
    Atom,
    Candle,
}

impl DynType {
    /// The name of the type.
    pub open spec fn name(self) -> Seq<char> {
        match self {
            DynType::Real => "Real"@,
            DynType::Bool => "Bool"@,
            DynType::Atom => "Atom"@,
            DynType::Candle => "Candle"@,
        }
    }

    /// The name of the type.
    pub fn show(self) -> (out: &'static str)
        ensures
            out@ == self.name(),
    {
        match self {
            DynType::Real => "Real",
            DynType::Bool => "Bool",
            DynType::Atom => "Atom",
            DynType::Candle => "Candle",
        }
    }
}

/// A value of one of four types.
#[derive(Debug, Clone)]
pub enum DynValue {
    Real(Real),
    Bool(bool),
    Atom(Atom),
    Candle(Candle),
}

/// A value as mathematics.
pub enum Payload {
    Real(Real),
    Bool(bool),
    Atom(AtomModel),
    Candle(Candle),
}

impl View for DynValue {
    type V = Payload;

    open spec fn view(&self) -> Payload {
        match self {
            DynValue::Real(x) => Payload::Real(*x),
            DynValue::Bool(b) => Payload::Bool(*b),
            DynValue::Atom(a) => Payload::Atom(a@),
            DynValue::Candle(c) => Payload::Candle(*c),
        }
    }
}

impl Payload {
    /// The type of a value.
    pub open spec fn tag(self) -> DynType {
        match self {
            Payload::Real(_) => DynType::Real,
            Payload::Bool(_) => DynType::Bool,
            Payload::Atom(_) => DynType::Atom,
            Payload::Candle(_) => DynType::Candle,
        }
    }
}

/// A value as one of another type: itself where it has that type, and a bare bar
/// where prices are wanted as a bar.
pub open spec fn lifted(p: Payload, want: DynType) -> Option<Payload> {
    if p.tag() == want {
        Some(p)
    } else {
        match (p, want) {
            (Payload::Candle(c), DynType::Atom) => Some(
                Payload::Atom(AtomModel { candle: Some(c), time: None, overlays: None }),
            ),
            _ => None,
        }
    }
}

/// The values of a series as values of one type.
pub open spec fn lifted_all(fed: Seq<Payload>, want: DynType) -> Seq<Payload> {
    Seq::new(fed.len(), |i: int| lifted(fed[i], want)->0)
}

/// Whether all prices of two bars are the same numbers.
pub open spec fn same_prices(a: Candle, b: Candle) -> bool {
    a.open.equals(b.open) && a.high.equals(b.high) && a.low.equals(b.low) && a.close.equals(b.close)
        && a.volume.equals(b.volume)
}

fn prices_equal(a: &Candle, b: &Candle) -> (out: bool)
    ensures
        out == same_prices(*a, *b),
{
    a.open.same_number(b.open) && a.high.same_number(b.high) && a.low.same_number(b.low)
        && a.close.same_number(b.close) && a.volume.same_number(b.volume)
}

impl PartialEq for DynValue {
    /// Whether two values are the same; of two bars, whether their prices are.
    fn eq(&self, other: &DynValue) -> (out: bool) {
        match (self, other) {
            (DynValue::Real(a), DynValue::Real(b)) => a.same_number(*b),
            (DynValue::Bool(a), DynValue::Bool(b)) => *a == *b,
            (DynValue::Candle(a), DynValue::Candle(b)) => prices_equal(a, b),
            (DynValue::Atom(a), DynValue::Atom(b)) => match (&a.candle, &b.candle) {
                (Some(x), Some(y)) => prices_equal(x, y),
                (None, None) => true,
                _ => false,
            },
            _ => false,
        }
    }
}

impl vstd::std_specs::cmp::PartialEqSpecImpl for DynValue {
    open spec fn obeys_eq_spec() -> bool {
        true
    }

    open spec fn eq_spec(&self, other: &DynValue) -> bool {
        match (self, other) {
            (DynValue::Real(a), DynValue::Real(b)) => a.equals(*b),
            (DynValue::Bool(a), DynValue::Bool(b)) => *a == *b,
            (DynValue::Candle(a), DynValue::Candle(b)) => same_prices(*a, *b),
            (DynValue::Atom(a), DynValue::Atom(b)) => match (a.candle, b.candle) {
                (Some(x), Some(y)) => same_prices(x, y),
                (None, None) => true,
                _ => false,
            },
            _ => false,
        }
    }
}

impl From<Real> for DynValue {
    fn from(v: Real) -> (out: DynValue) {
        DynValue::Real(v)
    }
}

impl vstd::std_specs::convert::FromSpecImpl<Real> for DynValue {
    open spec fn obeys_from_spec() -> bool {
        true
    }

    open spec fn from_spec(v: Real) -> DynValue {
        DynValue::Real(v)
    }
}

impl From<bool> for DynValue {
    fn from(v: bool) -> (out: DynValue) {
        DynValue::Bool(v)
    }
}

impl vstd::std_specs::convert::FromSpecImpl<bool> for DynValue {
    open spec fn obeys_from_spec() -> bool {
        true
    }

    open spec fn from_spec(v: bool) -> DynValue {
        DynValue::Bool(v)
    }
}

impl From<Atom> for DynValue {
    fn from(v: Atom) -> (out: DynValue) {
        DynValue::Atom(v)
    }
}

impl vstd::std_specs::convert::FromSpecImpl<Atom> for DynValue {
    open spec fn obeys_from_spec() -> bool {
        true
    }

    open spec fn from_spec(v: Atom) -> DynValue {
        DynValue::Atom(v)
    }
}

impl From<Candle> for DynValue {
    fn from(v: Candle) -> (out: DynValue) {
        DynValue::Candle(v)
    }
}

impl vstd::std_specs::convert::FromSpecImpl<Candle> for DynValue {
    open spec fn obeys_from_spec() -> bool {
        true
    }

    open spec fn from_spec(v: Candle) -> DynValue {
        DynValue::Candle(v)
    }
}

impl TryFrom<DynValue> for Real {
    type Error = DynType;

    fn try_from(v: DynValue) -> (out: Result<Real, DynType>) {
        match v {
            DynValue::Real(x) => Ok(x),
            DynValue::Bool(_) => Err(DynType::Bool),
            DynValue::Atom(_) => Err(DynType::Atom),
            DynValue::Candle(_) => Err(DynType::Candle),
        }
    }
}

impl vstd::std_specs::convert::TryFromSpecImpl<DynValue> for Real {
    open spec fn obeys_try_from_spec() -> bool {
        true
    }

    open spec fn try_from_spec(v: DynValue) -> Result<Real, DynType> {
        match v {
            DynValue::Real(x) => Ok(x),
            other => Err(other@.tag()),
        }
    }
}

impl TryFrom<DynValue> for bool {
    type Error = DynType;

    fn try_from(v: DynValue) -> (out: Result<bool, DynType>) {
        match v {
            DynValue::Bool(x) => Ok(x),
            DynValue::Real(_) => Err(DynType::Real),
            DynValue::Atom(_) => Err(DynType::Atom),
            DynValue::Candle(_) => Err(DynType::Candle),
        }
    }
}

impl vstd::std_specs::convert::TryFromSpecImpl<DynValue> for bool {
    open spec fn obeys_try_from_spec() -> bool {
        true
    }

    open spec fn try_from_spec(v: DynValue) -> Result<bool, DynType> {
        match v {
            DynValue::Bool(x) => Ok(x),
            other => Err(other@.tag()),
        }
    }
}

impl TryFrom<DynValue> for Atom {
    type Error = DynType;

    fn try_from(v: DynValue) -> (out: Result<Atom, DynType>) {
        match v {
            DynValue::Atom(x) => Ok(x),
            DynValue::Candle(c) => Ok(Atom::new(c)),
            DynValue::Real(_) => Err(DynType::Real),
            DynValue::Bool(_) => Err(DynType::Bool),
        }
    }
}

impl vstd::std_specs::convert::TryFromSpecImpl<DynValue> for Atom {
    open spec fn obeys_try_from_spec() -> bool {
        true
    }

    open spec fn try_from_spec(v: DynValue) -> Result<Atom, DynType> {
        match v {
            DynValue::Atom(x) => Ok(x),
            DynValue::Candle(c) => Ok(Atom { candle: Some(c), time: None, overlays: None }),
            other => Err(other@.tag()),
        }
    }
}

impl TryFrom<DynValue> for Candle {
    type Error = DynType;

    fn try_from(v: DynValue) -> (out: Result<Candle, DynType>) {
        match v {
            DynValue::Candle(x) => Ok(x),
            DynValue::Real(_) => Err(DynType::Real),
            DynValue::Bool(_) => Err(DynType::Bool),
            DynValue::Atom(_) => Err(DynType::Atom),
        }
    }
}

impl vstd::std_specs::convert::TryFromSpecImpl<DynValue> for Candle {
    open spec fn obeys_try_from_spec() -> bool {
        true
    }

    open spec fn try_from_spec(v: DynValue) -> Result<Candle, DynType> {
        match v {
            DynValue::Candle(x) => Ok(x),
            other => Err(other@.tag()),
        }
    }
}

/// One of the four types of values.
pub trait TypeOf: Sized {
    /// The type.
    spec fn tag() -> DynType;

    /// The value as mathematics.
    spec fn payload(self) -> Payload;

    /// The type.
    fn type_of() -> (out: DynType)
        ensures
            out == Self::tag(),
    ;

    /// The value as one of any type.
    fn into_value(self) -> (out: DynValue)
        ensures
            out@ == self.payload(),
            out@.tag() == Self::tag(),
    ;

    /// A value of this type, or the type that the value has instead.
    fn from_value(v: DynValue) -> (out: Result<Self, DynType>)
        ensures
            match out {
                Ok(x) => lifted(v@, Self::tag()) == Some(x.payload()),
                Err(t) => lifted(v@, Self::tag()) is None && t == v@.tag(),
            },
    ;
}

impl TypeOf for Real {
    open spec fn tag() -> DynType {
        DynType::Real
    }

    open spec fn payload(self) -> Payload {
        Payload::Real(self)
    }

    fn type_of() -> (out: DynType) {
        DynType::Real
    }

    fn into_value(self) -> (out: DynValue) {
        DynValue::from(self)
    }

    fn from_value(v: DynValue) -> (out: Result<Real, DynType>) {
        Real::try_from(v)
    }
}

impl TypeOf for bool {
    open spec fn tag() -> DynType {
        DynType::Bool
    }

    open spec fn payload(self) -> Payload {
        Payload::Bool(self)
    }

    fn type_of() -> (out: DynType) {
        DynType::Bool
    }

    fn into_value(self) -> (out: DynValue) {
        DynValue::from(self)
    }

    fn from_value(v: DynValue) -> (out: Result<bool, DynType>) {
        bool::try_from(v)
    }
}

impl TypeOf for Atom {
    open spec fn tag() -> DynType {
        DynType::Atom
    }

    open spec fn payload(self) -> Payload {
        Payload::Atom(self@)
    }

    fn type_of() -> (out: DynType) {
        DynType::Atom
    }

    fn into_value(self) -> (out: DynValue) {
        DynValue::from(self)
    }

    fn from_value(v: DynValue) -> (out: Result<Atom, DynType>) {
        Atom::try_from(v)
    }
}

impl TypeOf for Candle {
    open spec fn tag() -> DynType {
        DynType::Candle
    }

    open spec fn payload(self) -> Payload {
        Payload::Candle(self)
    }

    fn type_of() -> (out: DynType) {
        DynType::Candle
    }

    fn into_value(self) -> (out: DynValue) {
        DynValue::from(self)
    }

    fn from_value(v: DynValue) -> (out: Result<Candle, DynType>) {
        Candle::try_from(v)
    }
}

/// An optional value as mathematics.
pub open spec fn payload_of<T: TypeOf>(v: Option<T>) -> Option<Payload> {
    match v {
        Some(x) => Some(x.payload()),
        None => None,
    }
}

/// An optional value of any type as mathematics.
pub open spec fn view_of(v: Option<DynValue>) -> Option<Payload> {
    match v {
        Some(x) => Some(x@),
        None => None,
    }
}

/// A second value that is the same.
fn copy_value(v: &DynValue) -> (out: DynValue)
    ensures
        out@ == v@,
{
    match v {
        DynValue::Real(x) => DynValue::Real(*x),
        DynValue::Bool(b) => DynValue::Bool(*b),
        DynValue::Candle(c) => DynValue::Candle(*c),
        DynValue::Atom(a) => DynValue::Atom(a.copy()),
    }
}

fn copy_held(v: &Option<DynValue>) -> (out: Option<DynValue>)
    ensures
        view_of(out) == view_of(*v),
{
    match v {
        Some(x) => Some(copy_value(x)),
        None => None,
    }
}

// ---------------------------------------------------------------------------
// Indicators
// ---------------------------------------------------------------------------

/// An indicator whose types are known. One that does not say otherwise has every
/// state, never gives a value, and waits for nothing.
pub trait Indicator: Sized {
    type Input: TypeOf;

    type Output: TypeOf;

    /// Whether the indicator is in a state it can be in.
    open spec fn wf(&self) -> bool {
        true
    }

    /// What the last of these updates returns.
    open spec fn reply(&self, fed: Seq<Payload>) -> Option<Payload> {
        None
    }

    /// The current value after these updates.
    open spec fn held(&self, fed: Seq<Payload>) -> Option<Payload> {
        None
    }

    /// What the last of these updates after a reset returns.
    open spec fn fresh_reply(&self, fed: Seq<Payload>) -> Option<Payload> {
        None
    }

    /// The current value after a reset and these updates.
    open spec fn fresh_held(&self, fed: Seq<Payload>) -> Option<Payload> {
        None
    }

    /// How many updates come before the first value.
    open spec fn warm_up(&self) -> usize {
        0
    }

    /// How many more come before the value does not depend on the first ones.
    open spec fn unstable(&self) -> usize {
        0
    }

    /// Take one more input.
    fn update(&mut self, x: Self::Input) -> (out: Option<Self::Output>)
        requires
            old(self).wf(),
        ensures
            final(self).wf(),
            payload_of(out) == old(self).reply(seq![x.payload()]),
            forall|fed: Seq<Payload>|
                fed.len() > 0 ==> #[trigger] final(self).reply(fed) == old(self).reply(
                    seq![x.payload()] + fed,
                ),
            forall|fed: Seq<Payload>| #[trigger]
                final(self).held(fed) == old(self).held(seq![x.payload()] + fed),
            forall|fed: Seq<Payload>| #[trigger]
                final(self).fresh_reply(fed) == old(self).fresh_reply(fed),
            forall|fed: Seq<Payload>| #[trigger]
                final(self).fresh_held(fed) == old(self).fresh_held(fed),
            final(self).warm_up() == old(self).warm_up(),
            final(self).unstable() == old(self).unstable(),
    ;

    /// The current value.
    fn value(&self) -> (out: Option<Self::Output>)
        requires
            self.wf(),
        ensures
            payload_of(out) == self.held(seq![]),
    ;

    /// How many updates come before the first value.
    fn warm_up_period(&self) -> (out: usize)
        ensures
            out == self.warm_up(),
    ;

    /// How many more come before the value does not depend on the first ones.
    fn unstable_period(&self) -> (out: usize)
        ensures
            out == self.unstable(),
    ;

    /// Forget all inputs.
    fn reset(&mut self)
        requires
            old(self).wf(),
        ensures
            final(self).wf(),
            forall|fed: Seq<Payload>| #[trigger]
                final(self).reply(fed) == old(self).fresh_reply(fed),
            forall|fed: Seq<Payload>| #[trigger]
                final(self).held(fed) == old(self).fresh_held(fed),
            forall|fed: Seq<Payload>| #[trigger]
                final(self).fresh_reply(fed) == old(self).fresh_reply(fed),
            forall|fed: Seq<Payload>| #[trigger]
                final(self).fresh_held(fed) == old(self).fresh_held(fed),
            final(self).warm_up() == old(self).warm_up(),
            final(self).unstable() == old(self).unstable(),
    ;
}

/// An indicator whose types are known only when it runs.
pub trait DynIndicator {
    /// Whether the indicator is in a state it can be in.
    spec fn wf(&self) -> bool;

    /// The type of what it takes.
    spec fn takes(&self) -> DynType;

    /// The type of what it gives.
    spec fn gives(&self) -> DynType;

    /// What the last of these updates returns.
    spec fn reply(&self, fed: Seq<Payload>) -> Option<Payload>;

    /// The current value after these updates.
    spec fn held(&self, fed: Seq<Payload>) -> Option<Payload>;

    /// What the last of these updates after a reset returns.
    spec fn fresh_reply(&self, fed: Seq<Payload>) -> Option<Payload>;

    /// The current value after a reset and these updates.
    spec fn fresh_held(&self, fed: Seq<Payload>) -> Option<Payload>;

    /// How many updates come before the first value.
    spec fn warm_up(&self) -> usize;

    /// How many more come before the value does not depend on the first ones.
    spec fn unstable(&self) -> usize;

    /// The type of what it takes.
    fn input_type(&self) -> (out: DynType)
        ensures
            out == self.takes(),
    ;

    /// The type of what it gives.
    fn output_type(&self) -> (out: DynType)
        ensures
            out == self.gives(),
    ;

    /// Take one more input, of the type that the indicator takes.
    fn update(&mut self, input: DynValue) -> (out: Option<DynValue>)
        requires
            old(self).wf(),
            lifted(input@, old(self).takes()) is Some,
        ensures
            final(self).wf(),
            final(self).takes() == old(self).takes(),
            final(self).gives() == old(self).gives(),
            out matches Some(v) ==> v@.tag() == old(self).gives(),
            view_of(out) == old(self).reply(seq![input@]),
            forall|fed: Seq<Payload>|
                fed.len() > 0 ==> #[trigger] final(self).reply(fed) == old(self).reply(
                    seq![input@] + fed,
                ),
            forall|fed: Seq<Payload>| #[trigger]
                final(self).held(fed) == old(self).held(seq![input@] + fed),
            forall|fed: Seq<Payload>| #[trigger]
                final(self).fresh_reply(fed) == old(self).fresh_reply(fed),
            forall|fed: Seq<Payload>| #[trigger]
                final(self).fresh_held(fed) == old(self).fresh_held(fed),
            final(self).warm_up() == old(self).warm_up(),
            final(self).unstable() == old(self).unstable(),
    ;

    /// The current value.
    fn value(&self) -> (out: Option<DynValue>)
        requires
            self.wf(),
        ensures
            view_of(out) == self.held(seq![]),
            out matches Some(v) ==> v@.tag() == self.gives(),
    ;

    /// How many updates come before the first value.
    fn warm_up_period(&self) -> (out: usize)
        ensures
            out == self.warm_up(),
    ;

    /// How many more come before the value does not depend on the first ones.
    fn unstable_period(&self) -> (out: usize)
        ensures
            out == self.unstable(),
    ;

    /// Forget all inputs.
    fn reset(&mut self)
        requires
            old(self).wf(),
        ensures
            final(self).wf(),
            final(self).takes() == old(self).takes(),
            final(self).gives() == old(self).gives(),
            forall|fed: Seq<Payload>| #[trigger]
                final(self).reply(fed) == old(self).fresh_reply(fed),
            forall|fed: Seq<Payload>| #[trigger]
                final(self).held(fed) == old(self).fresh_held(fed),
            forall|fed: Seq<Payload>| #[trigger]
                final(self).fresh_reply(fed) == old(self).fresh_reply(fed),
            forall|fed: Seq<Payload>| #[trigger]
                final(self).fresh_held(fed) == old(self).fresh_held(fed),
            final(self).warm_up() == old(self).warm_up(),
            final(self).unstable() == old(self).unstable(),
    ;
}

/// The sum of two counts, at most the largest there is.
pub open spec fn saturating(a: int, b: int) -> int {
    if a + b > usize::MAX {
        usize::MAX as int
    } else {
        a + b
    }
}

/// How many updates come before the value does not depend on the first ones.
pub fn stable_period(indicator: &dyn DynIndicator) -> (out: usize)
    ensures
        out == saturating(indicator.warm_up() as int, indicator.unstable() as int),
{
    indicator.warm_up_period().saturating_add(indicator.unstable_period())
}

// ---------------------------------------------------------------------------
// From known types
// ---------------------------------------------------------------------------

/// An indicator of known types as one whose types are known only when it runs.
#[derive(Debug, Clone)]
pub struct Adapter<I> {
    pub inner: I,
}

impl<I> Adapter<I> {
    /// Wrap an indicator.
    pub fn new(inner: I) -> (out: Adapter<I>)
        ensures
            out.inner == inner,
    {
        Adapter { inner }
    }
}

proof fn lifted_joins(p: Payload, fed: Seq<Payload>, want: DynType)
    requires
        lifted(p, want) is Some,
    ensures
        lifted_all(seq![p] + fed, want) == seq![lifted(p, want)->0] + lifted_all(fed, want),
        lifted_all(seq![p], want) == seq![lifted(p, want)->0],
{
    assert(lifted_all(seq![p] + fed, want) =~= seq![lifted(p, want)->0] + lifted_all(fed, want));
    assert(lifted_all(seq![p], want) =~= seq![lifted(p, want)->0]);
}

impl<I: Indicator> DynIndicator for Adapter<I> {
    open spec fn wf(&self) -> bool {
        self.inner.wf()
    }

    open spec fn takes(&self) -> DynType {
        <I::Input as TypeOf>::tag()
    }

    open spec fn gives(&self) -> DynType {
        <I::Output as TypeOf>::tag()
    }

    open spec fn reply(&self, fed: Seq<Payload>) -> Option<Payload> {
        self.inner.reply(lifted_all(fed, <I::Input as TypeOf>::tag()))
    }

    open spec fn held(&self, fed: Seq<Payload>) -> Option<Payload> {
        self.inner.held(lifted_all(fed, <I::Input as TypeOf>::tag()))
    }

    open spec fn fresh_reply(&self, fed: Seq<Payload>) -> Option<Payload> {
        self.inner.fresh_reply(lifted_all(fed, <I::Input as TypeOf>::tag()))
    }

    open spec fn fresh_held(&self, fed: Seq<Payload>) -> Option<Payload> {
        self.inner.fresh_held(lifted_all(fed, <I::Input as TypeOf>::tag()))
    }

    open spec fn warm_up(&self) -> usize {
        self.inner.warm_up()
    }

    open spec fn unstable(&self) -> usize {
        self.inner.unstable()
    }

    fn input_type(&self) -> (out: DynType) {
        <I::Input as TypeOf>::type_of()
    }

    fn output_type(&self) -> (out: DynType) {
        <I::Output as TypeOf>::type_of()
    }

    fn update(&mut self, input: DynValue) -> (out: Option<DynValue>) {
        let ghost p = input@;
        let ghost want = <I::Input as TypeOf>::tag();
        proof {
            lifted_joins(p, Seq::empty(), want);
            assert forall|fed: Seq<Payload>| #[trigger]
                lifted_all(seq![p] + fed, want) == seq![lifted(p, want)->0] + lifted_all(
                    fed,
                    want,
                ) by {
                lifted_joins(p, fed, want);
            }
        }
        match <I::Input as TypeOf>::from_value(input) {
            Ok(x) => match self.inner.update(x) {
                Some(y) => Some(y.into_value()),
                None => None,
            },
            Err(_) => None,
        }
    }

    fn value(&self) -> (out: Option<DynValue>) {
        assert(lifted_all(seq![], <I::Input as TypeOf>::tag()) =~= Seq::<Payload>::empty());
        match self.inner.value() {
            Some(y) => Some(y.into_value()),
            None => None,
        }
    }

    fn warm_up_period(&self) -> (out: usize) {
        self.inner.warm_up_period()
    }

    fn unstable_period(&self) -> (out: usize) {
        self.inner.unstable_period()
    }

    fn reset(&mut self) {
        self.inner.reset();
    }
}

/// Wrap an indicator.
pub fn wrap<I: Indicator>(inner: I) -> (out: Adapter<I>)
    requires
        inner.wf(),
    ensures
        out.inner == inner,
        out.wf(),
{
    Adapter::new(inner)
}

/// An indicator behind a box does what the indicator does.
impl DynIndicator for Box<dyn DynIndicator> {
    open spec fn wf(&self) -> bool {
        (**self).wf()
    }

    open spec fn takes(&self) -> DynType {
        (**self).takes()
    }

    open spec fn gives(&self) -> DynType {
        (**self).gives()
    }

    open spec fn reply(&self, fed: Seq<Payload>) -> Option<Payload> {
        (**self).reply(fed)
    }

    open spec fn held(&self, fed: Seq<Payload>) -> Option<Payload> {
        (**self).held(fed)
    }

    open spec fn fresh_reply(&self, fed: Seq<Payload>) -> Option<Payload> {
        (**self).fresh_reply(fed)
    }

    open spec fn fresh_held(&self, fed: Seq<Payload>) -> Option<Payload> {
        (**self).fresh_held(fed)
    }

    open spec fn warm_up(&self) -> usize {
        (**self).warm_up()
    }

    open spec fn unstable(&self) -> usize {
        (**self).unstable()
    }

    fn input_type(&self) -> (out: DynType) {
        (**self).input_type()
    }

    fn output_type(&self) -> (out: DynType) {
        (**self).output_type()
    }

    fn update(&mut self, input: DynValue) -> (out: Option<DynValue>) {
        (**self).update(input)
    }

    fn value(&self) -> (out: Option<DynValue>) {
        (**self).value()
    }

    fn warm_up_period(&self) -> (out: usize) {
        (**self).warm_up_period()
    }

    fn unstable_period(&self) -> (out: usize) {
        (**self).unstable_period()
    }

    fn reset(&mut self) {
        (**self).reset();
    }
}

// ---------------------------------------------------------------------------
// One indicator after another
// ---------------------------------------------------------------------------

/// Whether what one indicator gives can be fed to another: the types are the same,
/// or prices are fed where bars are taken.
pub open spec fn fits(gives: DynType, takes: DynType) -> bool {
    gives == takes || (gives == DynType::Candle && takes == DynType::Atom)
}

/// Two indicators, the second fed with what the first gives.
#[derive(Debug)]
pub struct Chain<O, I> {
    pub outer: O,
    pub inner: I,
    pub value: Option<DynValue>,
}

/// The values that an indicator gives over a series of updates, in order. `replies`
/// tells its replies.
pub open spec fn emitted(replies: spec_fn(Seq<Payload>) -> Option<Payload>, fed: Seq<Payload>) -> Seq<
    Payload,
>
    decreases fed.len(),
{
    if fed.len() == 0 {
        seq![]
    } else {
        let before = emitted(replies, fed.drop_last());
        match replies(fed) {
            Some(y) => before.push(y),
            None => before,
        }
    }
}

/// What the last update of a chain returns: nothing where the first indicator gave
/// nothing, else what the second replies to all that the first has given.
pub open spec fn chained(
    outer: spec_fn(Seq<Payload>) -> Option<Payload>,
    inner: spec_fn(Seq<Payload>) -> Option<Payload>,
    fed: Seq<Payload>,
) -> Option<Payload> {
    if fed.len() > 0 && outer(fed) is Some {
        inner(emitted(outer, fed))
    } else {
        None
    }
}

proof fn emitted_after_one(
    replies: spec_fn(Seq<Payload>) -> Option<Payload>,
    later: spec_fn(Seq<Payload>) -> Option<Payload>,
    x: Payload,
    fed: Seq<Payload>,
)
    requires
        forall|s: Seq<Payload>| s.len() > 0 ==> #[trigger] later(s) == replies(seq![x] + s),
    ensures
        emitted(replies, seq![x] + fed) == (match replies(seq![x]) {
            Some(y) => seq![y] + emitted(later, fed),
            None => emitted(later, fed),
        }),
    decreases fed.len(),
{
    let all = seq![x] + fed;
    if fed.len() == 0 {
        assert(all =~= seq![x]);
        assert(all.drop_last() =~= Seq::<Payload>::empty());
        assert(emitted(replies, all.drop_last()) =~= Seq::<Payload>::empty());
        if let Some(y) = replies(seq![x]) {
            assert(emitted(replies, all) =~= seq![y] + emitted(later, fed));
        }
    } else {
        emitted_after_one(replies, later, x, fed.drop_last());
        assert(all.drop_last() =~= seq![x] + fed.drop_last());
        assert(later(fed) == replies(all));
        if let Some(y) = replies(seq![x]) {
            assert(emitted(replies, all) =~= seq![y] + emitted(later, fed));
        }
    }
}

proof fn chained_after_one(
    outer: spec_fn(Seq<Payload>) -> Option<Payload>,
    inner: spec_fn(Seq<Payload>) -> Option<Payload>,
    outer_later: spec_fn(Seq<Payload>) -> Option<Payload>,
    inner_later: spec_fn(Seq<Payload>) -> Option<Payload>,
    x: Payload,
    fed: Seq<Payload>,
)
    requires
        forall|s: Seq<Payload>|
            s.len() > 0 ==> #[trigger] outer_later(s) == outer(seq![x] + s),
        outer(seq![x]) matches Some(y) ==> forall|s: Seq<Payload>|
            s.len() > 0 ==> #[trigger] inner_later(s) == inner(seq![y] + s),
        outer(seq![x]) is None ==> forall|s: Seq<Payload>|
            s.len() > 0 ==> #[trigger] inner_later(s) == inner(s),
        fed.len() > 0,
    ensures
        chained(outer_later, inner_later, fed) == chained(outer, inner, seq![x] + fed),
{
    emitted_after_one(outer, outer_later, x, fed);
    assert(outer_later(fed) == outer(seq![x] + fed));
    let e = emitted(outer_later, fed);
    if outer_later(fed) is Some {
        assert(e.len() > 0);
    }
    match outer(seq![x]) {
        Some(y) => {
            assert(e.len() > 0 ==> inner_later(e) == inner(seq![y] + e));
        },
        None => {
            assert(e.len() > 0 ==> inner_later(e) == inner(e));
        },
    }
}

impl<O: DynIndicator, I: DynIndicator> Chain<O, I> {
    /// The replies of the first indicator.
    pub open spec fn outer_replies(&self) -> spec_fn(Seq<Payload>) -> Option<Payload> {
        |s: Seq<Payload>| self.outer.reply(s)
    }

    /// The replies of the second indicator.
    pub open spec fn inner_replies(&self) -> spec_fn(Seq<Payload>) -> Option<Payload> {
        |s: Seq<Payload>| self.inner.reply(s)
    }

    /// The replies of the first indicator after a reset.
    pub open spec fn outer_fresh(&self) -> spec_fn(Seq<Payload>) -> Option<Payload> {
        |s: Seq<Payload>| self.outer.fresh_reply(s)
    }

    /// The replies of the second indicator after a reset.
    pub open spec fn inner_fresh(&self) -> spec_fn(Seq<Payload>) -> Option<Payload> {
        |s: Seq<Payload>| self.inner.fresh_reply(s)
    }
}

impl<O: DynIndicator, I: DynIndicator> DynIndicator for Chain<O, I> {
    open spec fn wf(&self) -> bool {
        self.outer.wf() && self.inner.wf() && fits(self.outer.gives(), self.inner.takes()) && (
        self.value matches Some(v) ==> v@.tag() == self.inner.gives())
    }

    open spec fn takes(&self) -> DynType {
        self.outer.takes()
    }

    open spec fn gives(&self) -> DynType {
        self.inner.gives()
    }

    open spec fn reply(&self, fed: Seq<Payload>) -> Option<Payload> {
        chained(self.outer_replies(), self.inner_replies(), fed)
    }

    open spec fn held(&self, fed: Seq<Payload>) -> Option<Payload> {
        if fed.len() == 0 {
            view_of(self.value)
        } else {
            chained(self.outer_replies(), self.inner_replies(), fed)
        }
    }

    open spec fn fresh_reply(&self, fed: Seq<Payload>) -> Option<Payload> {
        chained(self.outer_fresh(), self.inner_fresh(), fed)
    }

    open spec fn fresh_held(&self, fed: Seq<Payload>) -> Option<Payload> {
        chained(self.outer_fresh(), self.inner_fresh(), fed)
    }

    open spec fn warm_up(&self) -> usize {
        saturating(self.outer.warm_up() as int, self.inner.warm_up() as int) as usize
    }

    open spec fn unstable(&self) -> usize {
        saturating(self.outer.unstable() as int, self.inner.unstable() as int) as usize
    }

    fn input_type(&self) -> (out: DynType) {
        self.outer.input_type()
    }

    fn output_type(&self) -> (out: DynType) {
        self.inner.output_type()
    }

    fn update(&mut self, x: DynValue) -> (out: Option<DynValue>) {
        let ghost p = x@;
        let ghost outer = self.outer_replies();
        let ghost inner = self.inner_replies();
        let ghost outer_fresh = self.outer_fresh();
        let ghost inner_fresh = self.inner_fresh();
        let fed: Option<DynValue> = self.outer.update(x);
        let ghost y = view_of(fed);
        assert(outer(seq![p]) == y);
        self.value = match fed {
            Some(v) => self.inner.update(v),
            None => None,
        };
        proof {
            let outer_later = self.outer_replies();
            let inner_later = self.inner_replies();
            assert forall|s: Seq<Payload>| s.len() > 0 implies #[trigger] outer_later(s) == outer(
                seq![p] + s,
            ) by {
                assert(self.outer.reply(s) == outer(seq![p] + s));
            }
            assert(emitted(outer, seq![p]) == match y {
                Some(v) => seq![v],
                None => Seq::<Payload>::empty(),
            }) by {
                assert(seq![p].drop_last() =~= Seq::<Payload>::empty());
                assert(emitted(outer, seq![p].drop_last()) =~= Seq::<Payload>::empty());
                if let Some(v) = y {
                    assert(emitted(outer, seq![p]) =~= seq![v]);
                }
            }
            assert(chained(outer, inner, seq![p]) == view_of(self.value));
            match y {
                Some(v) => {
                    assert forall|s: Seq<Payload>| s.len() > 0 implies #[trigger] inner_later(s)
                        == inner(seq![v] + s) by {
                        assert(self.inner.reply(s) == inner(seq![v] + s));
                    }
                },
                None => {
                    assert forall|s: Seq<Payload>| #[trigger] inner_later(s) == inner(s) by {}
                },
            }
            assert forall|more: Seq<Payload>| more.len() > 0 implies #[trigger] self.reply(more)
                == chained(outer, inner, seq![p] + more) by {
                chained_after_one(outer, inner, outer_later, inner_later, p, more);
            }
            assert forall|more: Seq<Payload>| #[trigger]
                self.held(more) == chained(outer, inner, seq![p] + more) by {
                if more.len() > 0 {
                    chained_after_one(outer, inner, outer_later, inner_later, p, more);
                } else {
                    assert(seq![p] + more =~= seq![p]);
                }
            }
            assert(self.outer_fresh() =~= outer_fresh);
            assert(self.inner_fresh() =~= inner_fresh);
        }
        copy_held(&self.value)
    }

    fn value(&self) -> (out: Option<DynValue>) {
        copy_held(&self.value)
    }

    fn warm_up_period(&self) -> (out: usize) {
        self.outer.warm_up_period().saturating_add(self.inner.warm_up_period())
    }

    fn unstable_period(&self) -> (out: usize) {
        self.outer.unstable_period().saturating_add(self.inner.unstable_period())
    }

    fn reset(&mut self) {
        let ghost outer_fresh = self.outer_fresh();
        let ghost inner_fresh = self.inner_fresh();
        self.outer.reset();
        self.inner.reset();
        self.value = None;
        proof {
            assert(self.outer_replies() =~= outer_fresh);
            assert(self.inner_replies() =~= inner_fresh);
            assert(self.outer_fresh() =~= outer_fresh);
            assert(self.inner_fresh() =~= inner_fresh);
        }
    }
}

/// Feed the second indicator with what the first gives. The periods of the two add
/// up, those of the second counted in what the first gives.
pub fn chain<O: DynIndicator, I: DynIndicator>(outer: O, inner: I) -> (out: Chain<O, I>)
    requires
        outer.wf(),
        inner.wf(),
        fits(outer.gives(), inner.takes()),
    ensures
        out.outer == outer,
        out.inner == inner,
        out.value is None,
        out.wf(),
        out.takes() == outer.takes(),
        out.gives() == inner.gives(),
        out.warm_up() == saturating(outer.warm_up() as int, inner.warm_up() as int),
        out.unstable() == saturating(outer.unstable() as int, inner.unstable() as int),
{
    Chain { outer, inner, value: None }
}

// ---------------------------------------------------------------------------
// Readiness
// ---------------------------------------------------------------------------

/// Tells whether enough bars have been seen.
#[derive(Debug, Clone, Copy, PartialEq, Eq, Structural)]
pub struct StableCheck {
    pub stable_period: usize,
    pub samples: usize,
}

impl StableCheck {
    /// Whether enough bars have been seen after `more` further ones, from `seen`
    /// on.
    pub open spec fn enough(&self, seen: int, more: int) -> Payload {
        Payload::Bool(saturating(seen, more) >= self.stable_period)
    }
}

impl DynIndicator for StableCheck {
    open spec fn wf(&self) -> bool {
        true
    }

    open spec fn takes(&self) -> DynType {
        DynType::Atom
    }

    open spec fn gives(&self) -> DynType {
        DynType::Bool
    }

    open spec fn reply(&self, fed: Seq<Payload>) -> Option<Payload> {
        Some(self.enough(self.samples as int, fed.len() as int))
    }

    open spec fn held(&self, fed: Seq<Payload>) -> Option<Payload> {
        Some(self.enough(self.samples as int, fed.len() as int))
    }

    open spec fn fresh_reply(&self, fed: Seq<Payload>) -> Option<Payload> {
        Some(self.enough(0, fed.len() as int))
    }

    open spec fn fresh_held(&self, fed: Seq<Payload>) -> Option<Payload> {
        Some(self.enough(0, fed.len() as int))
    }

    open spec fn warm_up(&self) -> usize {
        0
    }

    open spec fn unstable(&self) -> usize {
        0
    }

    fn input_type(&self) -> (out: DynType) {
        DynType::Atom
    }

    fn output_type(&self) -> (out: DynType) {
        DynType::Bool
    }

    fn update(&mut self, _x: DynValue) -> (out: Option<DynValue>) {
        self.samples = self.samples.saturating_add(1);
        Some(DynValue::Bool(self.samples >= self.stable_period))
    }

    fn value(&self) -> (out: Option<DynValue>) {
        Some(DynValue::Bool(self.samples >= self.stable_period))
    }

    fn warm_up_period(&self) -> (out: usize) {
        0
    }

    fn unstable_period(&self) -> (out: usize) {
        0
    }

    fn reset(&mut self) {
        self.samples = 0;
    }
}

/// Tell whether `stable_period` bars have been seen.
pub fn stable_check(stable_period: usize) -> (out: StableCheck)
    ensures
        out.stable_period == stable_period,
        out.samples == 0,
{
    StableCheck { stable_period, samples: 0 }
}

// ---------------------------------------------------------------------------
// Back to known types
// ---------------------------------------------------------------------------

/// An indicator that takes bars and gives numbers.
#[derive(Debug)]
pub struct AsReal<D>(pub D);

impl<D: DynIndicator> AsReal<D> {
    /// View an indicator as one that takes bars and gives numbers, which it must.
    pub fn new(inner: D) -> (out: AsReal<D>)
        requires
            inner.wf(),
            inner.takes() == DynType::Atom,
            inner.gives() == DynType::Real,
        ensures
            out.0 == inner,
            out.wf(),
    {
        AsReal(inner)
    }
}

impl<D: DynIndicator> Indicator for AsReal<D> {
    type Input = Atom;

    type Output = Real;

    open spec fn wf(&self) -> bool {
        self.0.wf() && self.0.takes() == DynType::Atom && self.0.gives() == DynType::Real
    }

    open spec fn reply(&self, fed: Seq<Payload>) -> Option<Payload> {
        self.0.reply(fed)
    }

    open spec fn held(&self, fed: Seq<Payload>) -> Option<Payload> {
        self.0.held(fed)
    }

    open spec fn fresh_reply(&self, fed: Seq<Payload>) -> Option<Payload> {
        self.0.fresh_reply(fed)
    }

    open spec fn fresh_held(&self, fed: Seq<Payload>) -> Option<Payload> {
        self.0.fresh_held(fed)
    }

    open spec fn warm_up(&self) -> usize {
        self.0.warm_up()
    }

    open spec fn unstable(&self) -> usize {
        self.0.unstable()
    }

    fn update(&mut self, atom: Atom) -> (out: Option<Real>) {
        match self.0.update(DynValue::Atom(atom)) {
            Some(DynValue::Real(x)) => Some(x),
            _ => None,
        }
    }

    fn value(&self) -> (out: Option<Real>) {
        match self.0.value() {
            Some(DynValue::Real(x)) => Some(x),
            _ => None,
        }
    }

    fn warm_up_period(&self) -> (out: usize) {
        self.0.warm_up_period()
    }

    fn unstable_period(&self) -> (out: usize) {
        self.0.unstable_period()
    }

    fn reset(&mut self) {
        self.0.reset();
    }
}

/// An indicator that takes bars and gives truth values: a signal.
#[derive(Debug)]
pub struct AsBool<D>(pub D);

impl<D: DynIndicator> AsBool<D> {
    /// View an indicator as a signal, which it must be.
    pub fn new(inner: D) -> (out: AsBool<D>)
        requires
            inner.wf(),
            inner.takes() == DynType::Atom,
            inner.gives() == DynType::Bool,
        ensures
            out.0 == inner,
            out.wf(),
    {
        AsBool(inner)
    }
}

impl<D: DynIndicator> Indicator for AsBool<D> {
    type Input = Atom;

    type Output = bool;

    open spec fn wf(&self) -> bool {
        self.0.wf() && self.0.takes() == DynType::Atom && self.0.gives() == DynType::Bool
    }

    open spec fn reply(&self, fed: Seq<Payload>) -> Option<Payload> {
        self.0.reply(fed)
    }

    open spec fn held(&self, fed: Seq<Payload>) -> Option<Payload> {
        self.0.held(fed)
    }

    open spec fn fresh_reply(&self, fed: Seq<Payload>) -> Option<Payload> {
        self.0.fresh_reply(fed)
    }

    open spec fn fresh_held(&self, fed: Seq<Payload>) -> Option<Payload> {
        self.0.fresh_held(fed)
    }

    open spec fn warm_up(&self) -> usize {
        self.0.warm_up()
    }

    open spec fn unstable(&self) -> usize {
        self.0.unstable()
    }

    fn update(&mut self, x: Atom) -> (out: Option<bool>) {
        match self.0.update(DynValue::Atom(x)) {
            Some(DynValue::Bool(y)) => Some(y),
            _ => None,
        }
    }

    fn value(&self) -> (out: Option<bool>) {
        match self.0.value() {
            Some(DynValue::Bool(y)) => Some(y),
            _ => None,
        }
    }

    fn warm_up_period(&self) -> (out: usize) {
        self.0.warm_up_period()
    }

    fn unstable_period(&self) -> (out: usize) {
        self.0.unstable_period()
    }

    fn reset(&mut self) {
        self.0.reset();
    }
}

/// An indicator that takes bars and gives prices.
#[derive(Debug)]
pub struct AsCandle<D>(pub D);

impl<D: DynIndicator> AsCandle<D> {
    /// View an indicator as one that takes bars and gives prices, which it must be.
    pub fn new(inner: D) -> (out: AsCandle<D>)
        requires
            inner.wf(),
            inner.takes() == DynType::Atom,
            inner.gives() == DynType::Candle,
        ensures
            out.0 == inner,
            out.wf(),
    {
        AsCandle(inner)
    }
}

impl<D: DynIndicator> Indicator for AsCandle<D> {
    type Input = Atom;

    type Output = Candle;

    open spec fn wf(&self) -> bool {
        self.0.wf() && self.0.takes() == DynType::Atom && self.0.gives() == DynType::Candle
    }

    open spec fn reply(&self, fed: Seq<Payload>) -> Option<Payload> {
        self.0.reply(fed)
    }

    open spec fn held(&self, fed: Seq<Payload>) -> Option<Payload> {
        self.0.held(fed)
    }

    open spec fn fresh_reply(&self, fed: Seq<Payload>) -> Option<Payload> {
        self.0.fresh_reply(fed)
    }

    open spec fn fresh_held(&self, fed: Seq<Payload>) -> Option<Payload> {
        self.0.fresh_held(fed)
    }

    open spec fn warm_up(&self) -> usize {
        self.0.warm_up()
    }

    open spec fn unstable(&self) -> usize {
        self.0.unstable()
    }

    fn update(&mut self, x: Atom) -> (out: Option<Candle>) {
        match self.0.update(DynValue::Atom(x)) {
            Some(DynValue::Candle(y)) => Some(y),
            _ => None,
        }
    }

    fn value(&self) -> (out: Option<Candle>) {
        match self.0.value() {
            Some(DynValue::Candle(y)) => Some(y),
            _ => None,
        }
    }

    fn warm_up_period(&self) -> (out: usize) {
        self.0.warm_up_period()
    }

    fn unstable_period(&self) -> (out: usize) {
        self.0.unstable_period()
    }

    fn reset(&mut self) {
        self.0.reset();
    }
}

/// A signal over prices.
#[derive(Debug)]
pub struct DynSignal<D>(pub D);

impl<D: DynIndicator> DynSignal<D> {
    /// View an indicator as a signal over prices, which it must be.
    pub fn new(inner: D) -> (out: DynSignal<D>)
        requires
            inner.wf(),
            inner.takes() == DynType::Candle,
            inner.gives() == DynType::Bool,
        ensures
            out.0 == inner,
            out.wf(),
    {
        DynSignal(inner)
    }
}

impl<D: DynIndicator> Indicator for DynSignal<D> {
    type Input = Candle;

    type Output = bool;

    open spec fn wf(&self) -> bool {
        self.0.wf() && self.0.takes() == DynType::Candle && self.0.gives() == DynType::Bool
    }

    open spec fn reply(&self, fed: Seq<Payload>) -> Option<Payload> {
        self.0.reply(fed)
    }

    open spec fn held(&self, fed: Seq<Payload>) -> Option<Payload> {
        self.0.held(fed)
    }

    open spec fn fresh_reply(&self, fed: Seq<Payload>) -> Option<Payload> {
        self.0.fresh_reply(fed)
    }

    open spec fn fresh_held(&self, fed: Seq<Payload>) -> Option<Payload> {
        self.0.fresh_held(fed)
    }

    open spec fn warm_up(&self) -> usize {
        self.0.warm_up()
    }

    open spec fn unstable(&self) -> usize {
        self.0.unstable()
    }

    fn update(&mut self, x: Candle) -> (out: Option<bool>) {
        match self.0.update(DynValue::Candle(x)) {
            Some(DynValue::Bool(y)) => Some(y),
            _ => None,
        }
    }

    fn value(&self) -> (out: Option<bool>) {
        match self.0.value() {
            Some(DynValue::Bool(y)) => Some(y),
            _ => None,
        }
    }

    fn warm_up_period(&self) -> (out: usize) {
        self.0.warm_up_period()
    }

    fn unstable_period(&self) -> (out: usize) {
        self.0.unstable_period()
    }

    fn reset(&mut self) {
        self.0.reset();
    }
}

/// A source of numbers over prices.
#[derive(Debug)]
pub struct DynSource<D>(pub D);

impl<D: DynIndicator> DynSource<D> {
    /// View an indicator as a source of numbers over prices, which it must be.
    pub fn new(inner: D) -> (out: DynSource<D>)
        requires
            inner.wf(),
            inner.takes() == DynType::Candle,
            inner.gives() == DynType::Real,
        ensures
            out.0 == inner,
            out.wf(),
    {
        DynSource(inner)
    }
}

impl<D: DynIndicator> Indicator for DynSource<D> {
    type Input = Candle;

    type Output = Real;

    open spec fn wf(&self) -> bool {
        self.0.wf() && self.0.takes() == DynType::Candle && self.0.gives() == DynType::Real
    }

    open spec fn reply(&self, fed: Seq<Payload>) -> Option<Payload> {
        self.0.reply(fed)
    }

    open spec fn held(&self, fed: Seq<Payload>) -> Option<Payload> {
        self.0.held(fed)
    }

    open spec fn fresh_reply(&self, fed: Seq<Payload>) -> Option<Payload> {
        self.0.fresh_reply(fed)
    }

    open spec fn fresh_held(&self, fed: Seq<Payload>) -> Option<Payload> {
        self.0.fresh_held(fed)
    }

    open spec fn warm_up(&self) -> usize {
        self.0.warm_up()
    }

    open spec fn unstable(&self) -> usize {
        self.0.unstable()
    }

    fn update(&mut self, x: Candle) -> (out: Option<Real>) {
        match self.0.update(DynValue::Candle(x)) {
            Some(DynValue::Real(y)) => Some(y),
            _ => None,
        }
    }

    fn value(&self) -> (out: Option<Real>) {
        match self.0.value() {
            Some(DynValue::Real(y)) => Some(y),
            _ => None,
        }
    }

    fn warm_up_period(&self) -> (out: usize) {
        self.0.warm_up_period()
    }

    fn unstable_period(&self) -> (out: usize) {
        self.0.unstable_period()
    }

    fn reset(&mut self) {
        self.0.reset();
    }
}

// ---------------------------------------------------------------------------
// Laws
// ---------------------------------------------------------------------------

/// A chain replies nothing where its first indicator gives nothing, and its second
/// indicator moves on only where the first gives something.
pub proof fn chain_waits_for_the_first<O: DynIndicator, I: DynIndicator>(
    c: Chain<O, I>,
    fed: Seq<Payload>,
    x: Payload,
)
    requires
        c.outer.reply(fed.push(x)) is None,
    ensures
        c.reply(fed.push(x)) is None,
        emitted(c.outer_replies(), fed.push(x)) == emitted(c.outer_replies(), fed),
{
    assert(fed.push(x).drop_last() =~= fed);
}

/// A check for readiness turns true at the right update, and stays so.
pub proof fn stable_check_turns_once(check: StableCheck, fed: Seq<Payload>)
    requires
        check.samples == 0,
        fed.len() < usize::MAX,
    ensures
        check.reply(fed) == Some(Payload::Bool(fed.len() >= check.stable_period)),
{
}

/// What goes into a handle of any type comes back out unchanged.
pub proof fn values_come_back(x: Real, b: bool, a: Atom, c: Candle)
    ensures
        <Real as TryFromSpec<DynValue>>::try_from_spec(<DynValue as FromSpec<Real>>::from_spec(x))
            == Ok::<Real, DynType>(x),
        <bool as TryFromSpec<DynValue>>::try_from_spec(<DynValue as FromSpec<bool>>::from_spec(b))
            == Ok::<bool, DynType>(b),
        <Atom as TryFromSpec<DynValue>>::try_from_spec(<DynValue as FromSpec<Atom>>::from_spec(a))
            == Ok::<Atom, DynType>(a),
        <Candle as TryFromSpec<DynValue>>::try_from_spec(
            <DynValue as FromSpec<Candle>>::from_spec(c),
        ) == Ok::<Candle, DynType>(c),
{
}

/// Periods that are added up stop at the largest number and are else their plain sum.
pub proof fn periods_add_up(a: usize, b: usize)
    ensures
        a + b <= usize::MAX ==> saturating(a as int, b as int) == a + b,
        a + b > usize::MAX ==> saturating(a as int, b as int) == usize::MAX,
        saturating(a as int, b as int) == saturating(b as int, a as int),
        saturating(a as int, 0) == a,
{
}

/// A value fits where its own type is wanted; beside that, bare prices fit where a bar
/// is wanted, and nothing else does.
pub proof fn only_prices_are_lifted(gives: DynType, takes: DynType)
    ensures
        fits(gives, gives),
        fits(gives, takes) && gives != takes ==> gives == DynType::Candle && takes == DynType::Atom,
        fits(DynType::Candle, DynType::Atom),
{
}

/// What a chain says is what its second indicator says of all that its first one gave.
pub proof fn a_chain_feeds_the_second_with_the_first<O: DynIndicator, I: DynIndicator>(
    c: Chain<O, I>,
    fed: Seq<Payload>,
    x: Payload,
    y: Payload,
)
    requires
        c.outer.reply(fed.push(x)) == Some(y),
    ensures
        emitted(c.outer_replies(), fed.push(x)) == emitted(c.outer_replies(), fed).push(y),
        c.reply(fed.push(x)) == (c.inner_replies())(emitted(c.outer_replies(), fed).push(y)),
        c.takes() == c.outer.takes(),
        c.gives() == c.inner.gives(),
{
    assert(fed.push(x).drop_last() =~= fed);
}

} // verus!
