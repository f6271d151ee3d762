//! Indicators whose types are known only when they run.

use fugazi::market::{Atom, Candle};
use fugazi::number::Real;
use fugazi::runtime::{
    chain, stable_check, stable_period, wrap, AsBool, AsCandle, AsReal, DynIndicator, DynSignal,
    DynSource, DynType, DynValue, Indicator,
};

fn dbl(x: f64) -> Real {
    Real { bits: x.to_bits() }
}

fn num(x: Real) -> f64 {
    f64::from_bits(x.bits)
}

fn bar(v: f64) -> Candle {
    Candle::new(dbl(v), dbl(v), dbl(v), dbl(v), dbl(0.0))
}

fn atom(v: f64) -> DynValue {
    DynValue::Atom(Atom::new(bar(v)))
}

/// The mean of the last closes.
#[derive(Clone)]
struct Sma {
    period: usize,
    seen: Vec<f64>,
}

impl Sma {
    fn new(period: usize) -> Self {
        Sma { period, seen: Vec::new() }
    }
}

impl Indicator for Sma {
    type Input = Atom;
    type Output = Real;

    fn update(&mut self, x: Atom) -> Option<Real> {
        self.seen.push(x.candle.map_or(0.0, |c| num(c.close)));
        self.value()
    }

    fn value(&self) -> Option<Real> {
        let k = self.seen.len();
        if k < self.period {
            None
        } else {
            Some(dbl(self.seen[k - self.period..].iter().sum::<f64>() / self.period as f64))
        }
    }

    fn warm_up_period(&self) -> usize {
        self.period
    }

    fn unstable_period(&self) -> usize {
        0
    }

    fn reset(&mut self) {
        self.seen.clear();
    }
}

/// A mean that never quite forgets.
#[derive(Clone)]
struct Ema {
    period: usize,
    seen: usize,
    mean: f64,
}

impl Ema {
    fn new(period: usize) -> Self {
        Ema { period, seen: 0, mean: 0.0 }
    }

    fn stable_period(&self) -> usize {
        self.warm_up_period() + self.unstable_period()
    }
}

impl Indicator for Ema {
    type Input = Atom;
    type Output = Real;

    fn update(&mut self, x: Atom) -> Option<Real> {
        let close = x.candle.map_or(0.0, |c| num(c.close));
        let weight = 2.0 / (self.period as f64 + 1.0);
        self.mean = if self.seen == 0 { close } else { self.mean + weight * (close - self.mean) };
        self.seen += 1;
        self.value()
    }

    fn value(&self) -> Option<Real> {
        if self.seen < self.period { None } else { Some(dbl(self.mean)) }
    }

    fn warm_up_period(&self) -> usize {
        self.period
    }

    fn unstable_period(&self) -> usize {
        3 * self.period
    }

    fn reset(&mut self) {
        self.seen = 0;
        self.mean = 0.0;
    }
}

/// Whether a number is above a level.
#[derive(Clone)]
struct Above {
    level: f64,
    last: Option<bool>,
}

impl Indicator for Above {
    type Input = Real;
    type Output = bool;

    fn update(&mut self, x: Real) -> Option<bool> {
        self.last = Some(num(x) > self.level);
        self.last
    }

    fn value(&self) -> Option<bool> {
        self.last
    }

    fn warm_up_period(&self) -> usize {
        1
    }

    fn unstable_period(&self) -> usize {
        0
    }

    fn reset(&mut self) {
        self.last = None;
    }
}

/// The bar itself.
#[derive(Clone)]
struct Bars<I> {
    last: Option<Candle>,
    kind: Option<I>,
}

impl Indicator for Bars<Atom> {
    type Input = Atom;
    type Output = Candle;

    fn update(&mut self, x: Atom) -> Option<Candle> {
        self.last = x.candle;
        self.last
    }

    fn value(&self) -> Option<Candle> {
        self.last
    }

    fn warm_up_period(&self) -> usize {
        1
    }

    fn unstable_period(&self) -> usize {
        0
    }

    fn reset(&mut self) {
        self.last = None;
        self.kind = None;
    }
}

/// The close of a candle, or whether it is above a level.
#[derive(Clone)]
struct Close<O> {
    last: Option<O>,
}

impl Indicator for Close<Real> {
    type Input = Candle;
    type Output = Real;

    fn update(&mut self, x: Candle) -> Option<Real> {
        self.last = Some(x.close);
        self.last
    }

    fn value(&self) -> Option<Real> {
        self.last
    }

    fn warm_up_period(&self) -> usize {
        1
    }

    fn unstable_period(&self) -> usize {
        0
    }

    fn reset(&mut self) {
        self.last = None;
    }
}

impl Indicator for Close<bool> {
    type Input = Candle;
    type Output = bool;

    fn update(&mut self, x: Candle) -> Option<bool> {
        self.last = Some(num(x.close) > 10.0);
        self.last
    }

    fn value(&self) -> Option<bool> {
        self.last
    }

    fn warm_up_period(&self) -> usize {
        1
    }

    fn unstable_period(&self) -> usize {
        0
    }

    fn reset(&mut self) {
        self.last = None;
    }
}

#[test]
fn payload_conversions_roundtrip() {
    assert_eq!(Real::try_from(DynValue::from(dbl(1.5_f64))).unwrap(), dbl(1.5));
    assert!(bool::try_from(DynValue::from(true)).unwrap());
    let c = Candle::new(dbl(1.0), dbl(2.0), dbl(0.5), dbl(1.5), dbl(100.0));
    assert_eq!(Candle::try_from(DynValue::from(c)).unwrap(), c);
    assert_eq!(Atom::try_from(DynValue::from(Atom::new(c))).unwrap(), Atom::new(c));

    // Type mismatch carries the actual variant tag for diagnostics.
    assert_eq!(
        Real::try_from(DynValue::from(true)).unwrap_err(),
        DynType::Bool
    );
    assert_eq!(bool::try_from(DynValue::from(c)).unwrap_err(), DynType::Candle);
    assert_eq!(Candle::try_from(atom(1.0)).unwrap_err(), DynType::Atom);
    assert_eq!(Atom::try_from(DynValue::from(dbl(1.0))).unwrap_err(), DynType::Real);
}

#[test]
fn adapter_reports_types_and_forwards_payload() {
    let mut sma = wrap(Sma::new(3));
    assert_eq!(sma.input_type(), DynType::Atom);
    assert_eq!(sma.output_type(), DynType::Real);

    assert_eq!(sma.update(atom(1.0)), None);
    assert_eq!(sma.update(atom(2.0)), None);
    assert_eq!(
        sma.update(atom(3.0)),
        Some(DynValue::Real(dbl(2.0)))
    );
}

#[test]
fn stable_check_reports_bool_after_threshold() {
    let raw = Ema::new(3);
    let mut check = stable_check(raw.stable_period());
    assert_eq!(check.input_type(), DynType::Atom);
    assert_eq!(check.output_type(), DynType::Bool);
    // Feed stable_period - 1 candles; still Some(false).
    for i in 1..raw.stable_period() {
        assert_eq!(check.update(atom(i as f64)), Some(DynValue::Bool(false)));
    }
    // The stable_period-th update flips to Some(true).
    assert_eq!(
        check.update(atom(raw.stable_period() as f64)),
        Some(DynValue::Bool(true))
    );
}

#[test]
fn stable_period_defaults_to_warm_up_plus_unstable() {
    let ema = wrap(Ema::new(3));
    assert_eq!(
        stable_period(&ema),
        ema.warm_up_period() + ema.unstable_period()
    );
}

/// A chain waits for its first part, and then feeds its second.
#[test]
fn a_chain_waits_for_the_first() {
    let mut both = chain(wrap(Sma::new(2)), wrap(Above { level: 2.5, last: None }));
    assert_eq!(both.input_type(), DynType::Atom);
    assert_eq!(both.output_type(), DynType::Bool);
    assert_eq!(both.update(atom(1.0)), None);
    assert_eq!(both.update(atom(3.0)), Some(DynValue::Bool(false)));
    assert_eq!(both.update(atom(5.0)), Some(DynValue::Bool(true)));
    assert_eq!(both.value(), Some(DynValue::Bool(true)));
    assert_eq!(both.warm_up_period(), 3, "the sum of two and one");
    assert_eq!(both.unstable_period(), 0);
    both.reset();
    assert_eq!(both.value(), None);
    assert_eq!(both.update(atom(9.0)), None);
}

/// The periods of a chain are the sums of those of its parts.
#[test]
fn periods_of_a_chain_add_up() {
    let both = chain(wrap(Ema::new(3)), wrap(Above { level: 0.0, last: None }));
    assert_eq!(both.warm_up_period(), 4);
    assert_eq!(both.unstable_period(), 9);
    assert_eq!(stable_period(&both), 13);
}

/// A part whose type is hidden chains as well as any other.
#[test]
fn hidden_parts_chain() {
    let first: Box<dyn DynIndicator> = Box::new(wrap(Sma::new(1)));
    let second: Box<dyn DynIndicator> = Box::new(wrap(Above { level: 0.0, last: None }));
    let mut both = chain(first, second);
    assert_eq!(both.update(atom(-1.0)), Some(DynValue::Bool(false)));
    assert_eq!(both.update(atom(1.0)), Some(DynValue::Bool(true)));
}

#[test]
fn a_check_turns_once_and_a_reset_turns_it_back() {
    let mut check = stable_check(2);
    assert_eq!(check.value(), Some(DynValue::Bool(false)));
    check.update(atom(1.0));
    check.update(atom(1.0));
    check.update(atom(1.0));
    assert_eq!(check.value(), Some(DynValue::Bool(true)));
    check.reset();
    assert_eq!(check.value(), Some(DynValue::Bool(false)));
}

#[test]
fn views_give_back_known_types() {
    let mut level = AsReal::new(wrap(Sma::new(2)));
    assert_eq!(level.update(Atom::new(bar(1.0))), None);
    assert_eq!(level.update(Atom::new(bar(3.0))), Some(dbl(2.0)));
    assert_eq!(level.value(), Some(dbl(2.0)));
    assert_eq!(level.warm_up_period(), 2);

    let above = chain(wrap(Sma::new(1)), wrap(Above { level: 2.0, last: None }));
    let mut signal = AsBool::new(above);
    assert_eq!(signal.update(Atom::new(bar(3.0))), Some(true));

    let mut bars = AsCandle::new(wrap(Bars::<Atom> { last: None, kind: None }));
    assert_eq!(bars.update(Atom::new(bar(3.0))), Some(bar(3.0)));

    let mut source = DynSource::new(wrap(Close::<Real> { last: None }));
    assert_eq!(source.update(bar(4.0)), Some(dbl(4.0)));
    let mut high = DynSignal::new(wrap(Close::<bool> { last: None }));
    assert_eq!(high.update(bar(11.0)), Some(true));
    high.reset();
    assert_eq!(high.value(), None);
}

#[test]
fn types_are_named() {
    let names = [DynType::Real, DynType::Bool, DynType::Atom, DynType::Candle].map(DynType::show);
    assert_eq!(names, ["Real", "Bool", "Atom", "Candle"]);
}
