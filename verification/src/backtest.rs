//! Driving a strategy over a stream of bars against an account.
//!
//! A strategy and an account are whatever implements [`Strategy`] and
//! [`Wallet`]. The driver's contract speaks of the calls it makes: which ones, in
//! which order, with which arguments, and how the report follows from what they
//! returned. Whether a call may turn one state into another is for the
//! implementation to say, by the relations of the two traits.

use rayon::iter::{IntoParallelRefMutIterator, ParallelIterator};
use vstd::prelude::*;

use crate::attribution::Attribution;
use crate::attribution;
use crate::frequency::Frequency;
use crate::market::{Atom, Candle};
use crate::number::Real;
use crate::orders::{Ack, Order, Rejection, Side, Size, WalletError};
use crate::ordmap::{Key, OrdMap};
use crate::text;

verus! {

// ---------------------------------------------------------------------------
// Bars
// ---------------------------------------------------------------------------

/// One series' bar in a snapshot.
#[derive(Clone, Debug, PartialEq, Eq)]
pub struct Entry<Sym> {
    pub symbol: Option<Sym>,
    pub freq: Option<Frequency>,
    pub atom: Atom,
}

/// All bars of one point in time.
#[derive(Clone, Debug, PartialEq, Eq)]
pub struct Snapshot<Sym> {
    pub entries: Vec<Entry<Sym>>,
}

impl<Sym> Snapshot<Sym> {
    /// The snapshot of one bar.
    pub fn single(symbol: Sym, atom: Atom) -> (out: Snapshot<Sym>)
        ensures
            out.entries@ == seq![Entry { symbol: Some(symbol), freq: None, atom }],
    {
        let mut entries: Vec<Entry<Sym>> = Vec::new();
        entries.push(Entry { symbol: Some(symbol), freq: None, atom });
        Snapshot { entries }
    }

    /// The snapshot of one bar without a symbol.
    pub fn untagged(atom: Atom) -> (out: Snapshot<Sym>)
        ensures
            out.entries@ == seq![Entry::<Sym> { symbol: None, freq: None, atom }],
    {
        let mut entries: Vec<Entry<Sym>> = Vec::new();
        entries.push(Entry { symbol: None, freq: None, atom });
        Snapshot { entries }
    }

    /// Add one more bar.
    pub fn push(&mut self, symbol: Option<Sym>, freq: Option<Frequency>, atom: Atom)
        ensures
            final(self).entries@ == old(self).entries@.push(Entry { symbol, freq, atom }),
    {
        self.entries.push(Entry { symbol, freq, atom });
    }
}

// ---------------------------------------------------------------------------
// Strategies and accounts
// ---------------------------------------------------------------------------

/// One call that the driver made, with its arguments and its result.
pub enum Event<Sym> {
    /// The account was asked for its equity.
    Equity(Real),
    /// The account was shown a bar.
    Observe(Sym, Atom),
    /// The account was fed prices, and booked fills.
    Advance(Seq<(Sym, Candle)>, Seq<Order<Sym>>),
    /// The account was asked for its refusals.
    Refusals(Seq<Rejection<Sym>>),
    /// The account was asked for fills between bars.
    Poll(Seq<Order<Sym>>),
    /// The account closed all positions.
    Flatten(Seq<Order<Sym>>),
    /// The account drove a symbol to a number of units.
    Settle(Sym, Real, Seq<Order<Sym>>),
    /// The account was asked how much of its carry it could charge.
    Coverage(Option<(usize, usize)>),
    /// The strategy was told of a fill.
    Filled(Order<Sym>),
    /// The strategy was told of a refusal.
    Refused(Rejection<Sym>),
    /// The strategy was shown the bars.
    Update(Snapshot<Sym>),
    /// The strategy was asked whether it is ready to trade.
    Ready(bool),
    /// The strategy's rebalance gate was forced, but for some symbols; or let go.
    Force(Option<Seq<Sym>>),
    /// The strategy traded.
    Trade,
    /// The strategy gave up what its parts contributed.
    Parts(Option<Attribution<Sym>>),
}

/// Prices as values.
pub open spec fn prices<Sym>(bars: Seq<(&Sym, Candle)>) -> Seq<(Sym, Candle)> {
    Seq::new(bars.len(), |i: int| (*bars[i].0, bars[i].1))
}

/// An account that a strategy trades.
pub trait Wallet<Sym>: Sized {
    /// Whether a call may turn one state of the account into another. An account
    /// that does not say leaves this open.
    open spec fn does(pre: Self, event: Event<Sym>, post: Self) -> bool {
        true
    }

    /// The marked-to-market equity.
    fn equity(&self) -> (out: Real)
        ensures
            Self::does(*self, Event::Equity(out), *self),
    ;

    /// See a bar before anything is priced.
    fn observe(&mut self, symbol: &Sym, atom: &Atom)
        ensures
            Self::does(*old(self), Event::Observe(*symbol, *atom), *final(self)),
    ;

    /// Take the prices of one bar, and book the fills they give.
    fn advance(&mut self, bars: &[(&Sym, Candle)]) -> (out: Vec<Order<Sym>>)
        ensures
            Self::does(*old(self), Event::Advance(prices(bars@), out@), *final(self)),
    ;

    /// Give up the orders refused since the last time.
    fn take_rejections(&mut self) -> (out: Vec<Rejection<Sym>>)
        ensures
            Self::does(*old(self), Event::Refusals(out@), *final(self)),
    ;

    /// Give up the fills booked between bars.
    fn poll_fills(&mut self) -> (out: Vec<Order<Sym>>)
        ensures
            Self::does(*old(self), Event::Poll(out@), *final(self)),
    ;

    /// Close every open position.
    fn flatten(&mut self) -> (out: Vec<Order<Sym>>)
        ensures
            Self::does(*old(self), Event::Flatten(out@), *final(self)),
    ;

    /// Drive a symbol to a signed number of units, at once.
    fn settle_position(&mut self, symbol: &Sym, target: Real) -> (out: Vec<Order<Sym>>)
        ensures
            Self::does(*old(self), Event::Settle(*symbol, target, out@), *final(self)),
    ;

    /// The bars that wanted a carry rate and those that got one, where the
    /// account models carry.
    fn carry_coverage(&self) -> (out: Option<(usize, usize)>)
        ensures
            Self::does(*self, Event::Coverage(out), *self),
    ;

    /// The signed position in a symbol.
    fn position(&self, symbol: &Sym) -> (out: Real);

    /// Submit an order that drives a symbol to a side and a size.
    fn set(&mut self, symbol: &Sym, side: Side, size: Size) -> (out: Result<Ack<Sym>, WalletError>);

    /// Submit an order that closes a symbol.
    fn close(&mut self, symbol: &Sym) -> (out: Result<Ack<Sym>, WalletError>);
}

/// A strategy that trades an account.
pub trait Strategy<Sym>: Sized {
    /// Whether a call may turn one state of the strategy into another. A strategy
    /// that does not say leaves this open.
    open spec fn does(pre: Self, event: Event<Sym>, post: Self) -> bool {
        true
    }

    /// Whether trading may turn one state of the account into another. A strategy
    /// that does not say leaves this open.
    open spec fn trades<W: Wallet<Sym>>(strategy: Self, pre: W, post: W) -> bool {
        true
    }

    /// Be told of a fill.
    fn on_fill(&mut self, order: &Order<Sym>)
        ensures
            Self::does(*old(self), Event::Filled(*order), *final(self)),
    ;

    /// Be told of a refusal.
    fn on_reject(&mut self, rejection: &Rejection<Sym>)
        ensures
            Self::does(*old(self), Event::Refused(*rejection), *final(self)),
    ;

    /// See the bars of one point in time.
    fn update(&mut self, snapshot: &Snapshot<Sym>)
        ensures
            Self::does(*old(self), Event::Update(*snapshot), *final(self)),
    ;

    /// Whether the strategy is ready to trade.
    fn is_ready(&self) -> (out: bool)
        ensures
            Self::does(*self, Event::Ready(out), *self),
    ;

    /// Force the rebalance gate, but for the symbols in `hold`; or let it go.
    fn force_rebalance(&mut self, hold: Option<&[Sym]>)
        ensures
            Self::does(*old(self), Event::Force(held(hold)), *final(self)),
    ;

    /// Submit this bar's orders.
    fn trade<W: Wallet<Sym>>(&self, wallet: &mut W)
        ensures
            Self::trades(*self, *old(wallet), *final(wallet)),
    ;

    /// Give up what the parts of a composite contributed.
    fn take_attribution(&mut self) -> (out: Option<Attribution<Sym>>)
        ensures
            Self::does(*old(self), Event::Parts(out), *final(self)),
    ;
}

/// The symbols of an optional list.
pub open spec fn held<Sym>(hold: Option<&[Sym]>) -> Option<Seq<Sym>> {
    match hold {
        Some(h) => Some(h@),
        None => None,
    }
}

/// Whether an event may turn one state of strategy and account into another. An
/// event of the one leaves the other as it is, and a question leaves both.
pub open spec fn happens<Sym, S: Strategy<Sym>, W: Wallet<Sym>>(
    pre: (S, W),
    event: Event<Sym>,
    post: (S, W),
) -> bool {
    match event {
        Event::Trade => S::trades(pre.0, pre.1, post.1) && post.0 == pre.0,
        Event::Filled(_) => S::does(pre.0, event, post.0) && post.1 == pre.1,
        Event::Refused(_) => S::does(pre.0, event, post.0) && post.1 == pre.1,
        Event::Update(_) => S::does(pre.0, event, post.0) && post.1 == pre.1,
        Event::Ready(_) => S::does(pre.0, event, post.0) && post == pre,
        Event::Force(_) => S::does(pre.0, event, post.0) && post.1 == pre.1,
        Event::Parts(_) => S::does(pre.0, event, post.0) && post.1 == pre.1,
        Event::Equity(_) => W::does(pre.1, event, post.1) && post == pre,
        Event::Coverage(_) => W::does(pre.1, event, post.1) && post == pre,
        _ => W::does(pre.1, event, post.1) && post.0 == pre.0,
    }
}

/// Whether a sequence of events may turn one state into another.
#[verifier::opaque]
pub open spec fn leads<Sym, S: Strategy<Sym>, W: Wallet<Sym>>(
    log: Seq<Event<Sym>>,
    pre: (S, W),
    post: (S, W),
) -> bool
    decreases log.len(),
{
    if log.len() == 0 {
        pre == post
    } else {
        exists|mid: (S, W)|
            leads(log.drop_last(), pre, mid) && #[trigger] happens(mid, log.last(), post)
    }
}

proof fn leads_nowhere<Sym, S: Strategy<Sym>, W: Wallet<Sym>>(state: (S, W))
    ensures
        leads(Seq::<Event<Sym>>::empty(), state, state),
{
    reveal(leads);
}

proof fn leads_one<Sym, S: Strategy<Sym>, W: Wallet<Sym>>(
    log: Seq<Event<Sym>>,
    pre: (S, W),
    mid: (S, W),
    event: Event<Sym>,
    post: (S, W),
)
    requires
        leads(log, pre, mid),
        happens(mid, event, post),
    ensures
        leads(log.push(event), pre, post),
{
    reveal(leads);
    assert(log.push(event).drop_last() =~= log);
    assert(happens(mid, log.push(event).last(), post));
}

proof fn leads_on<Sym, S: Strategy<Sym>, W: Wallet<Sym>>(
    log: Seq<Event<Sym>>,
    more: Seq<Event<Sym>>,
    pre: (S, W),
    mid: (S, W),
    post: (S, W),
)
    requires
        leads(log, pre, mid),
        leads(more, mid, post),
    ensures
        leads(log + more, pre, post),
    decreases more.len(),
{
    reveal(leads);
    if more.len() == 0 {
        assert(log + more =~= log);
    } else {
        let near = choose|near: (S, W)|
            leads(more.drop_last(), mid, near) && #[trigger] happens(near, more.last(), post);
        leads_on(log, more.drop_last(), pre, mid, near);
        assert((log + more).drop_last() =~= log + more.drop_last());
        assert(happens(near, (log + more).last(), post));
    }
}

// ---------------------------------------------------------------------------
// Reports
// ---------------------------------------------------------------------------

/// A booked order and the bar it filled on.
#[derive(Clone, Debug, PartialEq, Eq)]
pub struct Fill<Sym> {
    pub bar: usize,
    pub order: Order<Sym>,
}

/// A refused order and the bar it was refused on.
#[derive(Clone, Debug, PartialEq, Eq)]
pub struct Rejected<Sym> {
    pub bar: usize,
    pub rejection: Rejection<Sym>,
}

/// What a run leaves to be analysed.
#[derive(Clone, Debug, PartialEq, Eq)]
pub struct RunReport<Sym> {
    /// The equity at the close of each bar.
    pub equity_curve: Vec<Real>,
    /// The fills, in order.
    pub fills: Vec<Fill<Sym>>,
    /// The refusals, in order.
    pub rejections: Vec<Rejected<Sym>>,
    /// The equity before the first bar.
    pub initial_equity: Real,
    /// The first bar at whose close the equity was not above zero.
    pub ruin_bar: Option<usize>,
    /// The bars that wanted a carry rate and those that got one.
    pub carry_coverage: Option<(usize, usize)>,
    /// What the parts of a composite contributed.
    pub attribution: Option<Attribution<Sym>>,
}

/// The number of fills that were cut materially, and the worst ratio among them:
/// infinity where there is none.
pub open spec fn fitted<Sym>(fills: Seq<Fill<Sym>>) -> (nat, Real)
    decreases fills.len(),
{
    if fills.len() == 0 {
        (0, Real { bits: crate::number::INFINITE })
    } else {
        let (n, worst) = fitted(fills.drop_last());
        if fills.last().order.materially_fitted {
            (n + 1, worst.lesser(fills.last().order.fill_ratio))
        } else {
            (n, worst)
        }
    }
}

impl<Sym> RunReport<Sym> {
    /// A report that was put together by hand: nothing was refused.
    pub fn new(
        equity_curve: Vec<Real>,
        initial_equity: Real,
        fills: Option<Vec<Fill<Sym>>>,
        ruin_bar: Option<usize>,
    ) -> (out: RunReport<Sym>)
        ensures
            out.equity_curve == equity_curve,
            out.initial_equity == initial_equity,
            out.fills@ == (match fills {
                Some(f) => f@,
                None => seq![],
            }),
            out.rejections@.len() == 0,
            out.ruin_bar == ruin_bar,
            out.carry_coverage is None,
            out.attribution is None,
    {
        let fills: Vec<Fill<Sym>> = match fills {
            Some(f) => f,
            None => Vec::new(),
        };
        RunReport {
            equity_curve,
            fills,
            rejections: Vec::new(),
            initial_equity,
            ruin_bar,
            carry_coverage: None,
            attribution: None,
        }
    }

    /// How many fills traded materially less than was asked for, and the worst
    /// ratio among them; none where every fill got what it wanted.
    pub fn materially_fitted(&self) -> (out: Option<(usize, Real)>)
        ensures
            match out {
                Some((n, worst)) => n > 0 && fitted(self.fills@) == (n as nat, worst),
                None => fitted(self.fills@).0 == 0,
            },
    {
        let mut n: usize = 0;
        let mut worst: Real = Real { bits: crate::number::INFINITE };
        let m: usize = self.fills.len();
        assert(self.fills@.take(0) =~= Seq::<Fill<Sym>>::empty());
        for i in 0..m
            invariant
                m == self.fills@.len(),
                n <= i,
                fitted(self.fills@.take(i as int)) == (n as nat, worst),
        {
            assert(self.fills@.take(i + 1).drop_last() =~= self.fills@.take(i as int));
            if self.fills[i].order.materially_fitted {
                n = n + 1;
                worst = worst.min(self.fills[i].order.fill_ratio);
            }
        }
        assert(self.fills@.take(m as int) =~= self.fills@);
        if n > 0 {
            Some((n, worst))
        } else {
            None
        }
    }
}

// ---------------------------------------------------------------------------
// The driver's protocol
// ---------------------------------------------------------------------------

/// Whether the driver may let the strategy trade.
#[derive(Debug, Clone, Copy, PartialEq, Eq, Structural)]
pub enum DriveMode {
    /// A run.
    Trade,
    /// A warm-up: nothing is submitted.
    WarmUpOnly,
}

/// What the calls of one bar returned.
pub struct BarOutcome<Sym> {
    /// The fills of the bar's prices.
    pub filled: Seq<Order<Sym>>,
    /// The refusals that came with them.
    pub refused: Seq<Rejection<Sym>>,
    /// The fills booked between bars.
    pub polled: Seq<Order<Sym>>,
    /// Whether the strategy was ready, where it was asked.
    pub ready: bool,
    /// The refusals of the bar's own orders, where it traded.
    pub trade_refused: Seq<Rejection<Sym>>,
    /// The equity at the close.
    pub equity: Real,
    /// The fills of closing all positions, where the account was ruined.
    pub flattened: Seq<Order<Sym>>,
    /// The refusals that came with those.
    pub flatten_refused: Seq<Rejection<Sym>>,
}

/// The calls that show the account every bar that has a symbol.
pub open spec fn shown<Sym>(entries: Seq<Entry<Sym>>) -> Seq<Event<Sym>>
    decreases entries.len(),
{
    if entries.len() == 0 {
        seq![]
    } else {
        match entries.last().symbol {
            Some(s) => shown(entries.drop_last()).push(Event::Observe(s, entries.last().atom)),
            None => shown(entries.drop_last()),
        }
    }
}

/// The prices of a snapshot: those of every bar that has a symbol and prices.
pub open spec fn priced<Sym>(entries: Seq<Entry<Sym>>) -> Seq<(Sym, Candle)>
    decreases entries.len(),
{
    if entries.len() == 0 {
        seq![]
    } else {
        match (entries.last().symbol, entries.last().atom.candle) {
            (Some(s), Some(c)) => priced(entries.drop_last()).push((s, c)),
            _ => priced(entries.drop_last()),
        }
    }
}

/// The calls that tell the strategy of fills.
pub open spec fn told<Sym>(orders: Seq<Order<Sym>>) -> Seq<Event<Sym>> {
    Seq::new(orders.len(), |i: int| Event::Filled(orders[i]))
}

/// The calls that take refusals from the account and tell the strategy of them.
pub open spec fn drained<Sym>(rejections: Seq<Rejection<Sym>>) -> Seq<Event<Sym>> {
    seq![Event::Refusals(rejections)] + Seq::new(
        rejections.len(),
        |i: int| Event::Refused(rejections[i]),
    )
}

/// The calls of the trade step.
pub open spec fn trade_events<Sym>(o: BarOutcome<Sym>, force: Option<Seq<Sym>>) -> Seq<Event<Sym>> {
    if !o.ready {
        seq![Event::Ready(false)]
    } else {
        (match force {
            Some(hold) => seq![
                Event::Ready(true),
                Event::Force(Some(hold)),
                Event::Trade,
                Event::Force(None),
            ],
            None => seq![Event::Ready(true), Event::Trade],
        }) + drained(o.trade_refused)
    }
}

/// Whether a bar's close ruins the account.
pub open spec fn ruins<Sym>(o: BarOutcome<Sym>, mode: DriveMode, ruined: bool) -> bool {
    mode == DriveMode::Trade && !ruined && o.equity.at_most_zero()
}

/// The calls that bring a bar in, up to the strategy's update.
pub open spec fn feed_events<Sym>(
    snapshot: Snapshot<Sym>,
    filled: Seq<Order<Sym>>,
    refused: Seq<Rejection<Sym>>,
    polled: Seq<Order<Sym>>,
) -> Seq<Event<Sym>> {
    shown(snapshot.entries@).push(Event::Advance(priced(snapshot.entries@), filled)) + told(filled)
        + drained(refused) + seq![Event::Poll(polled)] + told(polled) + seq![
        Event::Update(snapshot),
    ]
}

/// The calls that close all positions.
pub open spec fn flatten_events<Sym>(
    flattened: Seq<Order<Sym>>,
    refused: Seq<Rejection<Sym>>,
) -> Seq<Event<Sym>> {
    seq![Event::Flatten(flattened)] + told(flattened) + drained(refused)
}

/// The calls of one bar, in order. The strategy may trade only in a run, while
/// the account is not ruined and it is ready; `force` holds where this bar's
/// trade is to be a rebalance.
pub open spec fn bar_events<Sym>(
    snapshot: Snapshot<Sym>,
    mode: DriveMode,
    force: Option<Seq<Sym>>,
    ruined: bool,
    o: BarOutcome<Sym>,
) -> Seq<Event<Sym>> {
    feed_events(snapshot, o.filled, o.refused, o.polled) + (if mode == DriveMode::Trade && !ruined {
        trade_events(o, force)
    } else {
        seq![]
    }) + seq![Event::Equity(o.equity)] + (if ruins(o, mode, ruined) {
        flatten_events(o.flattened, o.flatten_refused)
    } else {
        seq![]
    })
}

/// The bar at whose close the account was ruined, where it was.
pub open spec fn ruin_of<Sym>(outs: Seq<BarOutcome<Sym>>, mode: DriveMode) -> Option<usize>
    decreases outs.len(),
{
    if outs.len() == 0 {
        None
    } else {
        match ruin_of(outs.drop_last(), mode) {
            Some(b) => Some(b),
            None => if ruins(outs.last(), mode, false) {
                Some((outs.len() - 1) as usize)
            } else {
                None
            },
        }
    }
}

/// The symbols that the bar's forced rebalance leaves alone, where it is forced.
pub open spec fn force_at<Sym>(force: Option<(usize, Seq<Sym>)>, bar: int) -> Option<Seq<Sym>> {
    match force {
        Some((at, hold)) => if at == bar {
            Some(hold)
        } else {
            None
        },
        None => None,
    }
}

/// The calls of all bars, in order.
pub open spec fn all_events<Sym>(
    snapshots: Seq<Snapshot<Sym>>,
    mode: DriveMode,
    force: Option<(usize, Seq<Sym>)>,
    outs: Seq<BarOutcome<Sym>>,
) -> Seq<Event<Sym>>
    decreases outs.len(),
{
    if outs.len() == 0 {
        seq![]
    } else {
        all_events(snapshots, mode, force, outs.drop_last()) + bar_events(
            snapshots[outs.len() - 1],
            mode,
            force_at(force, outs.len() - 1),
            ruin_of(outs.drop_last(), mode) is Some,
            outs.last(),
        )
    }
}

/// Orders stamped with a bar.
pub open spec fn stamped<Sym>(orders: Seq<Order<Sym>>, bar: int) -> Seq<Fill<Sym>> {
    Seq::new(orders.len(), |i: int| Fill { bar: bar as usize, order: orders[i] })
}

/// Refusals stamped with a bar.
pub open spec fn stamped_refusals<Sym>(rejections: Seq<Rejection<Sym>>, bar: int) -> Seq<
    Rejected<Sym>,
> {
    Seq::new(rejections.len(), |i: int| Rejected { bar: bar as usize, rejection: rejections[i] })
}

/// The fills of all bars, in order.
pub open spec fn all_fills<Sym>(outs: Seq<BarOutcome<Sym>>, mode: DriveMode) -> Seq<Fill<Sym>>
    decreases outs.len(),
{
    if outs.len() == 0 {
        seq![]
    } else {
        let bar = outs.len() - 1;
        let o = outs.last();
        let ruined = ruin_of(outs.drop_last(), mode) is Some;
        all_fills(outs.drop_last(), mode) + stamped(o.filled, bar) + stamped(o.polled, bar) + (
        if ruins(o, mode, ruined) {
            stamped(o.flattened, bar)
        } else {
            seq![]
        })
    }
}

/// The refusals of all bars, in order.
pub open spec fn all_refusals<Sym>(outs: Seq<BarOutcome<Sym>>, mode: DriveMode) -> Seq<
    Rejected<Sym>,
>
    decreases outs.len(),
{
    if outs.len() == 0 {
        seq![]
    } else {
        let bar = outs.len() - 1;
        let o = outs.last();
        let ruined = ruin_of(outs.drop_last(), mode) is Some;
        all_refusals(outs.drop_last(), mode) + stamped_refusals(o.refused, bar) + (if mode
            == DriveMode::Trade && !ruined && o.ready {
            stamped_refusals(o.trade_refused, bar)
        } else {
            seq![]
        }) + (if ruins(o, mode, ruined) {
            stamped_refusals(o.flatten_refused, bar)
        } else {
            seq![]
        })
    }
}

/// The equity of each bar; zero from the bar of ruin on.
pub open spec fn curve_of<Sym>(outs: Seq<BarOutcome<Sym>>, mode: DriveMode) -> Seq<Real> {
    Seq::new(
        outs.len(),
        |i: int|
            match ruin_of(outs, mode) {
                Some(b) => if i >= b {
                    Real { bits: 0 }
                } else {
                    outs[i].equity
                },
                None => outs[i].equity,
            },
    )
}

/// Whether the parts in a report are those that the strategy gave up, with the
/// rows from the bar of ruin on at zero.
pub open spec fn parts_match<Sym>(
    given: Option<Attribution<Sym>>,
    ruin: Option<usize>,
    reported: Option<Attribution<Sym>>,
) -> bool {
    match (given, ruin, reported) {
        (Some(a), Some(bar), Some(b)) => a.names == b.names && a.fills == b.fills
            && attribution::rows(b.equity@) == attribution::pinned(
            attribution::rows(a.equity@),
            bar as int,
        ),
        (Some(_), Some(_), None) => false,
        _ => reported == given,
    }
}

/// What a run's calls returned: the equity before it, the outcome of each bar,
/// what its parts contributed and how much carry it could charge.
pub struct RunTrace<Sym> {
    pub initial: Real,
    pub outs: Seq<BarOutcome<Sym>>,
    pub parts: Option<Attribution<Sym>>,
    pub coverage: Option<(usize, usize)>,
}

/// The calls of a run, in order.
pub open spec fn run_events<Sym>(
    snapshots: Seq<Snapshot<Sym>>,
    mode: DriveMode,
    force: Option<(usize, Seq<Sym>)>,
    trace: RunTrace<Sym>,
) -> Seq<Event<Sym>> {
    seq![Event::Equity(trace.initial)] + all_events(snapshots, mode, force, trace.outs) + seq![
        Event::Parts(trace.parts),
        Event::Coverage(trace.coverage),
    ]
}

/// Whether a report is that of what a run's calls returned.
pub open spec fn reports<Sym>(
    report: RunReport<Sym>,
    mode: DriveMode,
    trace: RunTrace<Sym>,
) -> bool {
    &&& report.equity_curve@ == curve_of(trace.outs, mode)
    &&& report.fills@ == all_fills(trace.outs, mode)
    &&& report.rejections@ == all_refusals(trace.outs, mode)
    &&& report.initial_equity == trace.initial
    &&& report.ruin_bar == ruin_of(trace.outs, mode)
    &&& report.carry_coverage == trace.coverage
    &&& parts_match(trace.parts, ruin_of(trace.outs, mode), report.attribution)
}

/// Whether driving from one state to another may give a report: the driver's
/// calls lead there, and the report follows from what they returned.
pub open spec fn drives<Sym, S: Strategy<Sym>, W: Wallet<Sym>>(
    pre: (S, W),
    snapshots: Seq<Snapshot<Sym>>,
    mode: DriveMode,
    force: Option<(usize, Seq<Sym>)>,
    post: (S, W),
    report: RunReport<Sym>,
) -> bool {
    exists|trace: RunTrace<Sym>|
        trace.outs.len() == snapshots.len() && #[trigger] reports(report, mode, trace) && leads(
            run_events(snapshots, mode, force, trace),
            pre,
            post,
        )
}

// ---------------------------------------------------------------------------
// The driver
// ---------------------------------------------------------------------------

fn route_fills<Sym, S: Strategy<Sym>, W: Wallet<Sym>>(
    strategy: &mut S,
    wallet: &W,
    orders: Vec<Order<Sym>>,
    bar: usize,
    fills: &mut Vec<Fill<Sym>>,
)
    ensures
        leads(told(orders@), (*old(strategy), *wallet), (*final(strategy), *wallet)),
        final(fills)@ == old(fills)@ + stamped(orders@, bar as int),
{
    let ghost start = (*strategy, *wallet);
    let ghost before = fills@;
    let ghost all = orders@;
    let n: usize = orders.len();
    proof {
        leads_nowhere::<Sym, S, W>(start);
        assert(told(all.take(0)) =~= Seq::<Event<Sym>>::empty());
    }
    let mut orders: Vec<Order<Sym>> = orders;
    for i in 0..n
        invariant
            n == orders@.len(),
            orders@ == all,
            leads(told(all.take(i as int)), start, (*strategy, *wallet)),
    {
        let ghost mid = (*strategy, *wallet);
        strategy.on_fill(&orders[i]);
        proof {
            let done = told(all.take(i as int));
            leads_one(done, start, mid, Event::Filled(all[i as int]), (*strategy, *wallet));
            assert(done.push(Event::Filled(all[i as int])) =~= told(all.take(i + 1)));
        }
    }
    assert(all.take(n as int) =~= all);
    // The orders, last first, so that each can be moved out of the end.
    let mut back: Vec<Order<Sym>> = Vec::new();
    while orders.len() > 0
        invariant
            orders@.len() + back@.len() == all.len(),
            orders@ == all.take(orders@.len() as int),
            forall|i: int| 0 <= i < back@.len() ==> #[trigger] back@[i] == all[all.len() - 1 - i],
        decreases orders@.len(),
    {
        let ghost done = back@;
        if let Some(order) = orders.pop() {
            back.push(order);
            assert(orders@ =~= all.take(orders@.len() as int));
            assert forall|i: int| 0 <= i < back@.len() implies #[trigger] back@[i] == all[all.len()
                - 1 - i] by {
                if i < done.len() {
                    assert(back@[i] == done[i]);
                }
            }
        }
    }
    let ghost mut moved: int = 0;
    assert(fills@ =~= before + stamped(all.take(0), bar as int));
    while back.len() > 0
        invariant
            0 <= moved <= all.len(),
            moved + back@.len() == all.len(),
            forall|i: int| 0 <= i < back@.len() ==> #[trigger] back@[i] == all[all.len() - 1 - i],
            fills@ == before + stamped(all.take(moved), bar as int),
        decreases back@.len(),
    {
        assert(back@[back@.len() - 1] == all[moved]);
        let ghost now = fills@;
        if let Some(order) = back.pop() {
            fills.push(Fill { bar, order });
            assert(fills@ =~= before + stamped(all.take(moved + 1), bar as int));
        }
        proof {
            moved = moved + 1;
        }
    }
    assert(all.take(moved) =~= all);
}

fn drain_rejections<Sym, S: Strategy<Sym>, W: Wallet<Sym>>(
    strategy: &mut S,
    wallet: &mut W,
    bar: usize,
    rejections: &mut Vec<Rejected<Sym>>,
) -> (drawn: Ghost<Seq<Rejection<Sym>>>)
    ensures
        leads(
            drained(drawn@),
            (*old(strategy), *old(wallet)),
            (*final(strategy), *final(wallet)),
        ),
        final(rejections)@ == old(rejections)@ + stamped_refusals(drawn@, bar as int),
{
    let ghost start = (*strategy, *wallet);
    let ghost before = rejections@;
    let mut refused: Vec<Rejection<Sym>> = wallet.take_rejections();
    let ghost all = refused@;
    let n: usize = refused.len();
    proof {
        leads_nowhere::<Sym, S, W>(start);
        leads_one(
            Seq::<Event<Sym>>::empty(),
            start,
            start,
            Event::Refusals(all),
            (*strategy, *wallet),
        );
        assert(Seq::<Event<Sym>>::empty().push(Event::Refusals(all)) =~= drained(all).take(1));
    }
    for i in 0..n
        invariant
            n == refused@.len(),
            refused@ == all,
            leads(drained(all).take(i + 1), start, (*strategy, *wallet)),
    {
        let ghost mid = (*strategy, *wallet);
        strategy.on_reject(&refused[i]);
        proof {
            let done = drained(all).take(i + 1);
            leads_one(done, start, mid, Event::Refused(all[i as int]), (*strategy, *wallet));
            assert(done.push(Event::Refused(all[i as int])) =~= drained(all).take(i + 2));
        }
    }
    assert(drained(all).take(n + 1) =~= drained(all));
    let mut back: Vec<Rejection<Sym>> = Vec::new();
    while refused.len() > 0
        invariant
            refused@.len() + back@.len() == all.len(),
            refused@ == all.take(refused@.len() as int),
            forall|i: int| 0 <= i < back@.len() ==> #[trigger] back@[i] == all[all.len() - 1 - i],
        decreases refused@.len(),
    {
        let ghost done = back@;
        if let Some(rejection) = refused.pop() {
            back.push(rejection);
            assert(refused@ =~= all.take(refused@.len() as int));
            assert forall|i: int| 0 <= i < back@.len() implies #[trigger] back@[i] == all[all.len()
                - 1 - i] by {
                if i < done.len() {
                    assert(back@[i] == done[i]);
                }
            }
        }
    }
    let ghost mut moved: int = 0;
    assert(rejections@ =~= before + stamped_refusals(all.take(0), bar as int));
    while back.len() > 0
        invariant
            0 <= moved <= all.len(),
            moved + back@.len() == all.len(),
            forall|i: int| 0 <= i < back@.len() ==> #[trigger] back@[i] == all[all.len() - 1 - i],
            rejections@ == before + stamped_refusals(all.take(moved), bar as int),
        decreases back@.len(),
    {
        assert(back@[back@.len() - 1] == all[moved]);
        if let Some(rejection) = back.pop() {
            rejections.push(Rejected { bar, rejection });
            assert(rejections@ =~= before + stamped_refusals(all.take(moved + 1), bar as int));
        }
        proof {
            moved = moved + 1;
        }
    }
    assert(all.take(moved) =~= all);
    Ghost(all)
}

/// Show the account the bars of a snapshot, and collect their prices.
fn show_bars<'a, Sym, S: Strategy<Sym>, W: Wallet<Sym>>(
    strategy: &S,
    wallet: &mut W,
    snapshot: &'a Snapshot<Sym>,
) -> (out: Vec<(&'a Sym, Candle)>)
    ensures
        leads(
            shown(snapshot.entries@),
            (*strategy, *old(wallet)),
            (*strategy, *final(wallet)),
        ),
        prices(out@) == priced(snapshot.entries@),
{
    let ghost start = (*strategy, *wallet);
    let ghost all = snapshot.entries@;
    let mut out: Vec<(&'a Sym, Candle)> = Vec::new();
    let n: usize = snapshot.entries.len();
    proof {
        leads_nowhere::<Sym, S, W>(start);
    }
    assert(all.take(0) =~= Seq::<Entry<Sym>>::empty());
    assert(prices(out@) =~= Seq::<(Sym, Candle)>::empty());
    for i in 0..n
        invariant
            n == snapshot.entries@.len(),
            all == snapshot.entries@,
            leads(shown(all.take(i as int)), start, (*strategy, *wallet)),
            prices(out@) == priced(all.take(i as int)),
    {
        let entry: &'a Entry<Sym> = &snapshot.entries[i];
        assert(all.take(i + 1).drop_last() =~= all.take(i as int));
        if let Some(symbol) = &entry.symbol {
            let ghost mid = (*strategy, *wallet);
            wallet.observe(symbol, &entry.atom);
            proof {
                leads_one(
                    shown(all.take(i as int)),
                    start,
                    mid,
                    Event::Observe(*symbol, entry.atom),
                    (*strategy, *wallet),
                );
            }
            if let Some(candle) = entry.atom.candle {
                let ghost before = out@;
                out.push((symbol, candle));
                assert(prices(out@) =~= prices(before).push((*symbol, candle)));
            }
        }
    }
    assert(all.take(n as int) =~= all);
    out
}

/// The trade step of one bar: nothing happens where the strategy is not ready.
fn trade_step<Sym, S: Strategy<Sym>, W: Wallet<Sym>>(
    strategy: &mut S,
    wallet: &mut W,
    force: Option<&[Sym]>,
    bar: usize,
    rejections: &mut Vec<Rejected<Sym>>,
) -> (step: Ghost<(bool, Seq<Rejection<Sym>>)>)
    ensures
        forall|o: BarOutcome<Sym>|
            o.ready == step@.0 && o.trade_refused == step@.1 ==> leads(
                #[trigger] trade_events(o, held(force)),
                (*old(strategy), *old(wallet)),
                (*final(strategy), *final(wallet)),
            ),
        final(rejections)@ == (if step@.0 {
            old(rejections)@ + stamped_refusals(step@.1, bar as int)
        } else {
            old(rejections)@
        }),
{
    let ghost start = (*strategy, *wallet);
    let ghost none = Seq::<Event<Sym>>::empty();
    let ready: bool = strategy.is_ready();
    proof {
        leads_nowhere::<Sym, S, W>(start);
        leads_one(none, start, start, Event::Ready(ready), start);
        assert(none.push(Event::Ready(ready)) =~= seq![Event::Ready(ready)]);
    }
    if !ready {
        return Ghost((false, Seq::empty()));
    }
    let ghost mut log: Seq<Event<Sym>> = seq![Event::Ready(true)];
    if let Some(hold) = force {
        let ghost mid = (*strategy, *wallet);
        strategy.force_rebalance(Some(hold));
        proof {
            leads_one(log, start, mid, Event::Force(Some(hold@)), (*strategy, *wallet));
            log = log.push(Event::Force(Some(hold@)));
        }
    }
    let ghost mid = (*strategy, *wallet);
    strategy.trade(wallet);
    proof {
        leads_one(log, start, mid, Event::Trade, (*strategy, *wallet));
        log = log.push(Event::Trade);
    }
    if force.is_some() {
        let ghost mid = (*strategy, *wallet);
        strategy.force_rebalance(None);
        proof {
            leads_one(log, start, mid, Event::Force(None), (*strategy, *wallet));
            log = log.push(Event::Force(None));
        }
    }
    let ghost mid = (*strategy, *wallet);
    let drawn: Ghost<Seq<Rejection<Sym>>> = drain_rejections(strategy, wallet, bar, rejections);
    proof {
        leads_on(log, drained(drawn@), start, mid, (*strategy, *wallet));
        assert forall|o: BarOutcome<Sym>| o.ready && o.trade_refused == drawn@ implies leads(
            #[trigger] trade_events(o, held(force)),
            start,
            (*strategy, *wallet),
        ) by {
            assert(trade_events(o, held(force)) =~= log + drained(drawn@));
        }
    }
    Ghost((true, drawn@))
}

/// What the driver keeps between bars.
struct Recorder<Sym> {
    curve: Vec<Real>,
    fills: Vec<Fill<Sym>>,
    rejections: Vec<Rejected<Sym>>,
    ruin_bar: Option<usize>,
}

impl<Sym> Recorder<Sym> {
    /// Whether this is the record of these outcomes.
    spec fn records(self, outs: Seq<BarOutcome<Sym>>, mode: DriveMode) -> bool {
        &&& self.curve@ == curve_of(outs, mode)
        &&& self.fills@ == all_fills(outs, mode)
        &&& self.rejections@ == all_refusals(outs, mode)
        &&& self.ruin_bar == ruin_of(outs, mode)
    }
}

proof fn curve_grows<Sym>(outs: Seq<BarOutcome<Sym>>, o: BarOutcome<Sym>, mode: DriveMode)
    requires
        outs.len() < usize::MAX,
    ensures
        curve_of(outs.push(o), mode) == curve_of(outs, mode).push(
            if ruin_of(outs, mode) is Some || ruins(o, mode, false) {
                Real { bits: 0 }
            } else {
                o.equity
            },
        ),
{
    let more = outs.push(o);
    assert(more.drop_last() =~= outs);
    ruin_is_early(outs, mode);
    assert(curve_of(more, mode) =~= curve_of(outs, mode).push(
        if ruin_of(outs, mode) is Some || ruins(o, mode, false) {
            Real { bits: 0 }
        } else {
            o.equity
        },
    ));
}

/// The bar of ruin is one of the bars: the first one at whose close the equity is
/// not above zero.
pub proof fn ruin_is_early<Sym>(outs: Seq<BarOutcome<Sym>>, mode: DriveMode)
    requires
        outs.len() <= usize::MAX,
    ensures
        ruin_of(outs, mode) matches Some(b) ==> b < outs.len() && mode == DriveMode::Trade
            && outs[b as int].equity.at_most_zero() && forall|i: int|
            0 <= i < b ==> !(#[trigger] outs[i]).equity.at_most_zero(),
        ruin_of(outs, mode) is None && mode == DriveMode::Trade ==> forall|i: int|
            0 <= i < outs.len() ==> !(#[trigger] outs[i]).equity.at_most_zero(),
    decreases outs.len(),
{
    if outs.len() > 0 {
        ruin_is_early(outs.drop_last(), mode);
        assert forall|i: int| 0 <= i < outs.len() - 1 implies #[trigger] outs[i]
            == outs.drop_last()[i] by {}
        if ruin_of(outs, mode) is None && mode == DriveMode::Trade {
            assert forall|i: int| 0 <= i < outs.len() implies !(
            #[trigger] outs[i]).equity.at_most_zero() by {
                if i < outs.len() - 1 {
                    assert(!outs.drop_last()[i].equity.at_most_zero());
                }
            }
        }
        if let Some(b) = ruin_of(outs, mode) {
            assert forall|i: int| 0 <= i < b implies !(#[trigger] outs[i]).equity.at_most_zero() by {
                assert(!outs.drop_last()[i].equity.at_most_zero());
            }
        }
    }
}

/// Bring a bar in: show it, price it, and let the strategy see what came of it.
fn feed_step<Sym, S: Strategy<Sym>, W: Wallet<Sym>>(
    strategy: &mut S,
    wallet: &mut W,
    snapshot: &Snapshot<Sym>,
    bar: usize,
    fills: &mut Vec<Fill<Sym>>,
    rejections: &mut Vec<Rejected<Sym>>,
) -> (step: Ghost<(Seq<Order<Sym>>, Seq<Rejection<Sym>>, Seq<Order<Sym>>)>)
    ensures
        leads(
            feed_events(*snapshot, step@.0, step@.1, step@.2),
            (*old(strategy), *old(wallet)),
            (*final(strategy), *final(wallet)),
        ),
        final(fills)@ == old(fills)@ + stamped(step@.0, bar as int) + stamped(step@.2, bar as int),
        final(rejections)@ == old(rejections)@ + stamped_refusals(step@.1, bar as int),
{
    let ghost start = (*strategy, *wallet);
    let ghost entries = snapshot.entries@;
    let bars: Vec<(&Sym, Candle)> = show_bars(&*strategy, wallet, snapshot);
    let ghost mut log = shown(entries);
    let ghost mid = (*strategy, *wallet);
    let filled: Vec<Order<Sym>> = wallet.advance(&bars);
    let ghost g_filled = filled@;
    proof {
        let e = Event::Advance(priced(entries), g_filled);
        leads_one(log, start, mid, e, (*strategy, *wallet));
        log = log.push(e);
    }
    let ghost mid = (*strategy, *wallet);
    route_fills(strategy, &*wallet, filled, bar, fills);
    proof {
        leads_on(log, told(g_filled), start, mid, (*strategy, *wallet));
        log = log + told(g_filled);
    }
    let ghost mid = (*strategy, *wallet);
    let refused: Ghost<Seq<Rejection<Sym>>> = drain_rejections(strategy, wallet, bar, rejections);
    proof {
        leads_on(log, drained(refused@), start, mid, (*strategy, *wallet));
        log = log + drained(refused@);
    }
    let ghost mid = (*strategy, *wallet);
    let polled: Vec<Order<Sym>> = wallet.poll_fills();
    let ghost g_polled = polled@;
    proof {
        leads_one(log, start, mid, Event::Poll(g_polled), (*strategy, *wallet));
        assert(log.push(Event::Poll(g_polled)) =~= log + seq![Event::Poll(g_polled)]);
        log = log + seq![Event::Poll(g_polled)];
    }
    let ghost mid = (*strategy, *wallet);
    route_fills(strategy, &*wallet, polled, bar, fills);
    proof {
        leads_on(log, told(g_polled), start, mid, (*strategy, *wallet));
        log = log + told(g_polled);
    }
    let ghost mid = (*strategy, *wallet);
    strategy.update(snapshot);
    proof {
        leads_one(log, start, mid, Event::Update(*snapshot), (*strategy, *wallet));
        assert(log.push(Event::Update(*snapshot)) =~= log + seq![Event::Update(*snapshot)]);
    }
    Ghost((g_filled, refused@, g_polled))
}

/// Close all positions, and let the strategy see what came of it.
fn flatten_step<Sym, S: Strategy<Sym>, W: Wallet<Sym>>(
    strategy: &mut S,
    wallet: &mut W,
    bar: usize,
    fills: &mut Vec<Fill<Sym>>,
    rejections: &mut Vec<Rejected<Sym>>,
) -> (step: Ghost<(Seq<Order<Sym>>, Seq<Rejection<Sym>>)>)
    ensures
        leads(
            flatten_events(step@.0, step@.1),
            (*old(strategy), *old(wallet)),
            (*final(strategy), *final(wallet)),
        ),
        final(fills)@ == old(fills)@ + stamped(step@.0, bar as int),
        final(rejections)@ == old(rejections)@ + stamped_refusals(step@.1, bar as int),
{
    let ghost start = (*strategy, *wallet);
    let flattened: Vec<Order<Sym>> = wallet.flatten();
    let ghost g_flat = flattened@;
    let ghost mut log: Seq<Event<Sym>> = seq![Event::Flatten(g_flat)];
    proof {
        leads_nowhere::<Sym, S, W>(start);
        let none = Seq::<Event<Sym>>::empty();
        leads_one(none, start, start, Event::Flatten(g_flat), (*strategy, *wallet));
        assert(none.push(Event::Flatten(g_flat)) =~= log);
    }
    let ghost mid = (*strategy, *wallet);
    route_fills(strategy, &*wallet, flattened, bar, fills);
    proof {
        leads_on(log, told(g_flat), start, mid, (*strategy, *wallet));
        log = log + told(g_flat);
    }
    let ghost mid = (*strategy, *wallet);
    let refused: Ghost<Seq<Rejection<Sym>>> = drain_rejections(strategy, wallet, bar, rejections);
    proof {
        leads_on(log, drained(refused@), start, mid, (*strategy, *wallet));
    }
    Ghost((g_flat, refused@))
}

/// Drive one bar.
fn drive_bar<Sym, S: Strategy<Sym>, W: Wallet<Sym>>(
    strategy: &mut S,
    wallet: &mut W,
    snapshot: &Snapshot<Sym>,
    mode: DriveMode,
    force: Option<&[Sym]>,
    bar: usize,
    rec: &mut Recorder<Sym>,
    Ghost(outs): Ghost<Seq<BarOutcome<Sym>>>,
) -> (outcome: Ghost<BarOutcome<Sym>>)
    requires
        old(rec).records(outs, mode),
        outs.len() == bar,
        bar < usize::MAX,
    ensures
        final(rec).records(outs.push(outcome@), mode),
        leads(
            bar_events(*snapshot, mode, held(force), ruin_of(outs, mode) is Some, outcome@),
            (*old(strategy), *old(wallet)),
            (*final(strategy), *final(wallet)),
        ),
{
    let ghost start = (*strategy, *wallet);
    let ghost ruined = ruin_of(outs, mode) is Some;
    let fed: Ghost<(Seq<Order<Sym>>, Seq<Rejection<Sym>>, Seq<Order<Sym>>)> = feed_step(
        strategy,
        wallet,
        snapshot,
        bar,
        &mut rec.fills,
        &mut rec.rejections,
    );
    let ghost mut log = feed_events(*snapshot, fed@.0, fed@.1, fed@.2);
    let may_trade: bool = mode == DriveMode::Trade && rec.ruin_bar.is_none();
    let ghost mut traded: (bool, Seq<Rejection<Sym>>) = (false, Seq::empty());
    let ghost at_trade = (*strategy, *wallet);
    if may_trade {
        let step: Ghost<(bool, Seq<Rejection<Sym>>)> = trade_step(
            strategy,
            wallet,
            force,
            bar,
            &mut rec.rejections,
        );
        proof {
            traded = step@;
        }
    }
    let ghost after_trade = (*strategy, *wallet);
    let equity: Real = wallet.equity();
    let ghost o1 = BarOutcome {
        filled: fed@.0,
        refused: fed@.1,
        polled: fed@.2,
        ready: traded.0,
        trade_refused: traded.1,
        equity,
        flattened: Seq::empty(),
        flatten_refused: Seq::empty(),
    };
    proof {
        if may_trade {
            leads_on(log, trade_events(o1, held(force)), start, at_trade, after_trade);
            log = log + trade_events(o1, held(force));
        } else {
            assert(log + Seq::<Event<Sym>>::empty() =~= log);
        }
        leads_one(log, start, after_trade, Event::Equity(equity), after_trade);
        assert(log.push(Event::Equity(equity)) =~= log + seq![Event::Equity(equity)]);
        log = log + seq![Event::Equity(equity)];
        assert(log + Seq::<Event<Sym>>::empty() =~= log);
    }
    let ghost mut o: BarOutcome<Sym> = o1;
    if rec.ruin_bar.is_some() {
        rec.curve.push(Real::zero());
    } else if mode == DriveMode::Trade && equity.not_above_zero() {
        rec.ruin_bar = Some(bar);
        let ghost mid = (*strategy, *wallet);
        let flat: Ghost<(Seq<Order<Sym>>, Seq<Rejection<Sym>>)> = flatten_step(
            strategy,
            wallet,
            bar,
            &mut rec.fills,
            &mut rec.rejections,
        );
        rec.curve.push(Real::zero());
        proof {
            leads_on(log, flatten_events(flat@.0, flat@.1), start, mid, (*strategy, *wallet));
            log = log + flatten_events(flat@.0, flat@.1);
            o = BarOutcome { flattened: flat@.0, flatten_refused: flat@.1, ..o1 };
        }
    } else {
        rec.curve.push(equity);
    }
    proof {
        curve_grows(outs, o, mode);
        assert(outs.push(o).drop_last() =~= outs);
        assert(outs.push(o).last() == o);
        assert(trade_events(o, held(force)) == trade_events(o1, held(force)));
        assert(log == bar_events(*snapshot, mode, held(force), ruined, o));
        assert(rec.fills@ =~= all_fills(outs.push(o), mode));
        assert(rec.rejections@ =~= all_refusals(outs.push(o), mode));
    }
    Ghost(o)
}

/// A forced rebalance as values.
pub open spec fn force_model<Sym>(force: Option<(usize, &[Sym])>) -> Option<(usize, Seq<Sym>)> {
    match force {
        Some((at, hold)) => Some((at, hold@)),
        None => None,
    }
}

/// Drive a strategy over bars: the body of [`run`], [`run_rebalancing`] and
/// [`warm_up`].
fn drive<Sym, S: Strategy<Sym>, W: Wallet<Sym>>(
    strategy: &mut S,
    wallet: &mut W,
    snapshots: &[Snapshot<Sym>],
    mode: DriveMode,
    force: Option<(usize, &[Sym])>,
) -> (report: RunReport<Sym>)
    ensures
        drives(
            (*old(strategy), *old(wallet)),
            snapshots@,
            mode,
            force_model(force),
            (*final(strategy), *final(wallet)),
            report,
        ),
{
    let ghost start = (*strategy, *wallet);
    let ghost forced = force_model(force);
    let initial_equity: Real = wallet.equity();
    let mut rec: Recorder<Sym> = Recorder {
        curve: Vec::new(),
        fills: Vec::new(),
        rejections: Vec::new(),
        ruin_bar: None,
    };
    let ghost mut outs: Seq<BarOutcome<Sym>> = Seq::empty();
    let ghost head = seq![Event::<Sym>::Equity(initial_equity)];
    proof {
        let none = Seq::<Event<Sym>>::empty();
        leads_nowhere::<Sym, S, W>(start);
        leads_one(none, start, start, Event::Equity(initial_equity), start);
        assert(none.push(Event::Equity(initial_equity)) =~= head);
        assert(rec.curve@ =~= curve_of(outs, mode));
        assert(head + all_events(snapshots@, mode, forced, outs) =~= head);
    }
    let n: usize = snapshots.len();
    for bar in 0..n
        invariant
            n == snapshots@.len(),
            outs.len() == bar,
            forced == force_model(force),
            rec.records(outs, mode),
            leads(
                head + all_events(snapshots@, mode, forced, outs),
                start,
                (*strategy, *wallet),
            ),
    {
        let here: Option<&[Sym]> = match force {
            Some((at, hold)) => if at == bar {
                Some(hold)
            } else {
                None
            },
            None => None,
        };
        let ghost mid = (*strategy, *wallet);
        let outcome: Ghost<BarOutcome<Sym>> = drive_bar(
            strategy,
            wallet,
            &snapshots[bar],
            mode,
            here,
            bar,
            &mut rec,
            Ghost(outs),
        );
        proof {
            let so_far = head + all_events(snapshots@, mode, forced, outs);
            let more = bar_events(
                snapshots@[bar as int],
                mode,
                held(here),
                ruin_of(outs, mode) is Some,
                outcome@,
            );
            leads_on(so_far, more, start, mid, (*strategy, *wallet));
            assert(outs.push(outcome@).drop_last() =~= outs);
            assert(so_far + more =~= head + all_events(
                snapshots@,
                mode,
                forced,
                outs.push(outcome@),
            ));
            outs = outs.push(outcome@);
        }
    }
    let ghost log = head + all_events(snapshots@, mode, forced, outs);
    let ghost mid = (*strategy, *wallet);
    let mut attribution: Option<Attribution<Sym>> = strategy.take_attribution();
    let ghost parts = attribution;
    let ghost near = (*strategy, *wallet);
    proof {
        leads_one(log, start, mid, Event::Parts(parts), near);
    }
    if let Some(bar) = rec.ruin_bar {
        attribution = match attribution {
            Some(a) => {
                let mut a: Attribution<Sym> = a;
                a.pin_from(bar);
                Some(a)
            },
            None => None,
        };
    }
    let carry_coverage: Option<(usize, usize)> = wallet.carry_coverage();
    let report: RunReport<Sym> = RunReport {
        equity_curve: rec.curve,
        fills: rec.fills,
        rejections: rec.rejections,
        initial_equity,
        ruin_bar: rec.ruin_bar,
        carry_coverage,
        attribution,
    };
    proof {
        let trace = RunTrace { initial: initial_equity, outs, parts, coverage: carry_coverage };
        leads_one(
            log.push(Event::Parts(parts)),
            start,
            near,
            Event::Coverage(carry_coverage),
            (*strategy, *wallet),
        );
        assert(log.push(Event::Parts(parts)).push(Event::Coverage(carry_coverage)) =~= run_events(
            snapshots@,
            mode,
            forced,
            trace,
        ));
        assert(reports(report, mode, trace));
    }
    report
}

/// Drive a strategy over bars against an account, and report what happened.
pub fn run<Sym, S: Strategy<Sym>, W: Wallet<Sym>>(
    strategy: &mut S,
    wallet: &mut W,
    snapshots: &[Snapshot<Sym>],
) -> (report: RunReport<Sym>)
    ensures
        drives(
            (*old(strategy), *old(wallet)),
            snapshots@,
            DriveMode::Trade,
            None,
            (*final(strategy), *final(wallet)),
            report,
        ),
{
    drive(strategy, wallet, snapshots, DriveMode::Trade, None)
}

/// Drive a strategy over bars, with its rebalance gate forced at the last one,
/// but for the symbols in `hold`.
pub fn run_rebalancing<Sym, S: Strategy<Sym>, W: Wallet<Sym>>(
    strategy: &mut S,
    wallet: &mut W,
    snapshots: &[Snapshot<Sym>],
    hold: &[Sym],
) -> (report: RunReport<Sym>)
    ensures
        drives(
            (*old(strategy), *old(wallet)),
            snapshots@,
            DriveMode::Trade,
            if snapshots@.len() == 0 {
                None
            } else {
                Some(((snapshots@.len() - 1) as usize, hold@))
            },
            (*final(strategy), *final(wallet)),
            report,
        ),
{
    let force: Option<(usize, &[Sym])> = if snapshots.len() == 0 {
        None
    } else {
        Some((snapshots.len() - 1, hold))
    };
    drive(strategy, wallet, snapshots, DriveMode::Trade, force)
}

/// Feed bars to a strategy without letting it trade.
pub fn warm_up<Sym, S: Strategy<Sym>, W: Wallet<Sym>>(
    strategy: &mut S,
    wallet: &mut W,
    snapshots: &[Snapshot<Sym>],
)
    ensures
        exists|report: RunReport<Sym>| #[trigger]
            drives(
                (*old(strategy), *old(wallet)),
                snapshots@,
                DriveMode::WarmUpOnly,
                None,
                (*final(strategy), *final(wallet)),
                report,
            ),
{
    let _report: RunReport<Sym> = drive(strategy, wallet, snapshots, DriveMode::WarmUpOnly, None);
}

/// What a bar-less rebalance's calls returned.
pub struct RebalanceTrace<Sym> {
    pub initial: Real,
    pub refused: Seq<Rejection<Sym>>,
    pub coverage: Option<(usize, usize)>,
    pub parts: Option<Attribution<Sym>>,
}

/// The calls of a bar-less rebalance of a ready strategy, in order.
pub open spec fn rebalance_events<Sym>(hold: Seq<Sym>, trace: RebalanceTrace<Sym>) -> Seq<
    Event<Sym>,
> {
    seq![
        Event::Ready(true),
        Event::Equity(trace.initial),
        Event::Force(Some(hold)),
        Event::Trade,
        Event::Force(None),
    ] + drained(trace.refused) + seq![Event::Coverage(trace.coverage), Event::Parts(trace.parts)]
}

/// Whether a report is that of what a bar-less rebalance's calls returned.
pub open spec fn reports_rebalance<Sym>(
    report: RunReport<Sym>,
    trace: RebalanceTrace<Sym>,
) -> bool {
    &&& report.equity_curve@.len() == 0
    &&& report.fills@.len() == 0
    &&& report.rejections@ == stamped_refusals(trace.refused, 0)
    &&& report.initial_equity == trace.initial
    &&& report.ruin_bar is None
    &&& report.carry_coverage == trace.coverage
    &&& report.attribution == trace.parts
}

/// The refusal of a rebalance without a bar by a strategy that is not ready.
pub open spec fn unready() -> Seq<char> {
    "the strategy has not finished warming up, so it has no sizing target to rebalance to — drive the missing bars first (a resumed state carries the warm-up with it), or pass the bars along with the instruction"@
}

/// Rebalance between two bars: force the rebalance gate, trade once, and let the rebalance gate go.
/// A strategy that is not ready is refused.
pub fn rebalance_now<Sym, S: Strategy<Sym>, W: Wallet<Sym>>(
    strategy: &mut S,
    wallet: &mut W,
    hold: &[Sym],
) -> (out: Result<RunReport<Sym>, String>)
    ensures
        match out {
            Ok(report) => exists|trace: RebalanceTrace<Sym>| #[trigger]
                reports_rebalance(report, trace) && leads(
                    rebalance_events(hold@, trace),
                    (*old(strategy), *old(wallet)),
                    (*final(strategy), *final(wallet)),
                ),
            Err(e) => e@ == unready() && S::does(
                *old(strategy),
                Event::Ready(false),
                *final(strategy),
            ) && *final(strategy) == *old(strategy) && *final(wallet) == *old(wallet),
        },
{
    let ghost start = (*strategy, *wallet);
    if !strategy.is_ready() {
        return Err(
            "the strategy has not finished warming up, so it has no sizing target to rebalance to — drive the missing bars first (a resumed state carries the warm-up with it), or pass the bars along with the instruction".to_string(),
        );
    }
    let ghost mut log = Seq::<Event<Sym>>::empty();
    proof {
        leads_nowhere::<Sym, S, W>(start);
        leads_one(log, start, start, Event::Ready(true), start);
        log = log.push(Event::Ready(true));
    }
    let initial_equity: Real = wallet.equity();
    proof {
        leads_one(log, start, start, Event::Equity(initial_equity), start);
        log = log.push(Event::Equity(initial_equity));
    }
    strategy.force_rebalance(Some(hold));
    let ghost armed = (*strategy, *wallet);
    proof {
        leads_one(log, start, start, Event::Force(Some(hold@)), armed);
        log = log.push(Event::Force(Some(hold@)));
    }
    strategy.trade(wallet);
    let ghost traded = (*strategy, *wallet);
    proof {
        leads_one(log, start, armed, Event::Trade, traded);
        log = log.push(Event::Trade);
    }
    strategy.force_rebalance(None);
    let ghost cleared = (*strategy, *wallet);
    proof {
        leads_one(log, start, traded, Event::Force(None), cleared);
        log = log.push(Event::Force(None));
    }
    let mut rejections: Vec<Rejected<Sym>> = Vec::new();
    let drawn: Ghost<Seq<Rejection<Sym>>> = drain_rejections(strategy, wallet, 0, &mut rejections);
    let ghost told_all = (*strategy, *wallet);
    proof {
        leads_on(log, drained(drawn@), start, cleared, told_all);
        log = log + drained(drawn@);
    }
    let carry_coverage: Option<(usize, usize)> = wallet.carry_coverage();
    proof {
        leads_one(log, start, told_all, Event::Coverage(carry_coverage), told_all);
        log = log.push(Event::Coverage(carry_coverage));
    }
    let attribution: Option<Attribution<Sym>> = strategy.take_attribution();
    let ghost parts = attribution;
    let report: RunReport<Sym> = RunReport {
        equity_curve: Vec::new(),
        fills: Vec::new(),
        rejections,
        initial_equity,
        ruin_bar: None,
        carry_coverage,
        attribution,
    };
    proof {
        leads_one(log, start, told_all, Event::Parts(parts), (*strategy, *wallet));
        let trace = RebalanceTrace {
            initial: initial_equity,
            refused: drawn@,
            coverage: carry_coverage,
            parts,
        };
        assert(log.push(Event::Parts(parts)) =~= rebalance_events(hold@, trace));
        assert(report.rejections@ =~= stamped_refusals(drawn@, 0));
        assert(reports_rebalance(report, trace));
    }
    Ok(report)
}

// ---------------------------------------------------------------------------
// The end of a chunk
// ---------------------------------------------------------------------------

/// What happens to the open positions around a run's last bar.
#[derive(Debug)]
pub enum Closeout {
    /// Leave them open.
    Carry,
    /// Close all of them.
    Flatten,
    /// Drive these symbols to these signed units, and leave the others alone.
    Hold(OrdMap<String, Real>),
    /// Force a rebalance on the last bar, then drive the symbols in `hold` to
    /// their units.
    Rebalance { hold: OrdMap<String, Real> },
}

impl Default for Closeout {
    fn default() -> (out: Closeout)
        ensures
            out == Closeout::Carry,
    {
        Closeout::Carry
    }
}

/// The keys of a map's entries, in order.
pub open spec fn keys(entries: Seq<(String, Real)>) -> Seq<Seq<char>> {
    Seq::new(entries.len(), |i: int| entries[i].0@)
}

impl Closeout {
    /// Whether a map of targets has its keys in order.
    pub open spec fn wf(&self) -> bool {
        match self {
            Closeout::Hold(hold) => hold.wf(),
            Closeout::Rebalance { hold } => hold.wf(),
            _ => true,
        }
    }

    /// The targets, in ascending order of their symbols.
    pub open spec fn named(&self) -> Seq<(String, Real)> {
        match self {
            Closeout::Hold(hold) => hold.entries@,
            Closeout::Rebalance { hold } => hold.entries@,
            _ => seq![],
        }
    }

    /// Whether the positions stay as they are.
    pub fn is_carry(&self) -> (out: bool)
        ensures
            out == (self is Carry),
    {
        match self {
            Closeout::Carry => true,
            _ => false,
        }
    }

    /// The symbols that a forced rebalance leaves alone, ascending; none where no
    /// rebalance is forced.
    pub fn forced_rebalance_hold(&self) -> (out: Option<Vec<String>>)
        requires
            self.wf(),
        ensures
            match out {
                Some(held) => self is Rebalance && text::texts(held@) == keys(self.named())
                    && forall|i: int, j: int|
                    0 <= i < j < held@.len() ==> #[trigger] text::text_lt(held@[i]@, held@[j]@),
                None => !(self is Rebalance),
            },
    {
        match self {
            Closeout::Rebalance { hold } => {
                let mut out: Vec<String> = Vec::new();
                let n: usize = hold.entries.len();
                for i in 0..n
                    invariant
                        n == hold.entries@.len(),
                        out@.len() == i,
                        forall|k: int| 0 <= k < i ==> (#[trigger] out@[k])@ == hold.entries@[k].0@,
                {
                    out.push(hold.entries[i].0.clone());
                }
                assert(text::texts(out@) =~= keys(hold.entries@));
                proof {
                    assert forall|i: int, j: int| 0 <= i < j < out@.len() implies #[trigger]
                        text::text_lt(out@[i]@, out@[j]@) by {
                        assert(<String as Key>::before(
                            hold.entries@[i].0.model(),
                            hold.entries@[j].0.model(),
                        ));
                    }
                }
                Some(out)
            },
            _ => None,
        }
    }
}

/// What the calls of a closeout returned.
pub struct CloseTrace {
    /// The fills of each target, in the targets' order.
    pub settled: Seq<Seq<Order<String>>>,
    /// The fills of closing all positions.
    pub flattened: Seq<Order<String>>,
    pub refused: Seq<Rejection<String>>,
    pub equity: Real,
}

/// Fills, one list after the other.
pub open spec fn gathered(lists: Seq<Seq<Order<String>>>) -> Seq<Order<String>>
    decreases lists.len(),
{
    if lists.len() == 0 {
        seq![]
    } else {
        gathered(lists.drop_last()) + lists.last()
    }
}

/// The calls that drive each symbol to its target, in order.
pub open spec fn settle_events(
    targets: Seq<(String, Real)>,
    settled: Seq<Seq<Order<String>>>,
) -> Seq<Event<String>> {
    Seq::new(targets.len(), |i: int| Event::Settle(targets[i].0, targets[i].1, settled[i]))
}

/// The fills of a closeout.
pub open spec fn close_fills(closeout: Closeout, trace: CloseTrace) -> Seq<Order<String>> {
    if closeout is Flatten {
        trace.flattened
    } else {
        gathered(trace.settled)
    }
}

/// The calls of a closeout that has something to do, in order. The equity is
/// asked for only where the curve has a point to overwrite.
pub open spec fn close_events(closeout: Closeout, points: nat, trace: CloseTrace) -> Seq<
    Event<String>,
> {
    (if closeout is Flatten {
        seq![Event::Flatten(trace.flattened)]
    } else {
        settle_events(closeout.named(), trace.settled)
    }) + told(close_fills(closeout, trace)) + drained(trace.refused) + (if points > 0 {
        seq![Event::Equity(trace.equity)]
    } else {
        seq![]
    })
}

/// Whether a closeout turns one report into another: its fills and refusals are
/// appended at `bar`, and the last point of the curve is overwritten.
pub open spec fn closes(
    pre: RunReport<String>,
    closeout: Closeout,
    bar: int,
    trace: CloseTrace,
    post: RunReport<String>,
) -> bool {
    let n = pre.equity_curve@.len();
    &&& trace.settled.len() == closeout.named().len()
    &&& post.equity_curve@ == (if n > 0 {
        pre.equity_curve@.update(n - 1, trace.equity)
    } else {
        pre.equity_curve@
    })
    &&& post.fills@ == pre.fills@ + stamped(close_fills(closeout, trace), bar)
    &&& post.rejections@ == pre.rejections@ + stamped_refusals(trace.refused, bar)
    &&& post.initial_equity == pre.initial_equity
    &&& post.ruin_bar == pre.ruin_bar
    &&& post.carry_coverage == pre.carry_coverage
    &&& post.attribution == pre.attribution
}

/// Drive each symbol to its target.
fn settle_all<S: Strategy<String>, W: Wallet<String>>(
    strategy: &S,
    wallet: &mut W,
    targets: &Vec<(String, Real)>,
) -> (out: (Vec<Order<String>>, Ghost<Seq<Seq<Order<String>>>>))
    ensures
        out.1@.len() == targets@.len(),
        out.0@ == gathered(out.1@),
        leads(
            settle_events(targets@, out.1@),
            (*strategy, *old(wallet)),
            (*strategy, *final(wallet)),
        ),
{
    let ghost start = (*strategy, *wallet);
    let ghost mut settled: Seq<Seq<Order<String>>> = Seq::empty();
    let mut out: Vec<Order<String>> = Vec::new();
    let n: usize = targets.len();
    proof {
        leads_nowhere::<String, S, W>(start);
        assert(settle_events(targets@.take(0), settled) =~= Seq::<Event<String>>::empty());
    }
    for i in 0..n
        invariant
            n == targets@.len(),
            settled.len() == i,
            out@ == gathered(settled),
            leads(settle_events(targets@.take(i as int), settled), start, (*strategy, *wallet)),
    {
        let ghost mid = (*strategy, *wallet);
        let mut orders: Vec<Order<String>> = wallet.settle_position(&targets[i].0, targets[i].1);
        proof {
            let e = Event::Settle(targets@[i as int].0, targets@[i as int].1, orders@);
            let so_far = settle_events(targets@.take(i as int), settled);
            let more = settled.push(orders@);
            leads_one(so_far, start, mid, e, (*strategy, *wallet));
            assert(so_far.push(e) =~= settle_events(targets@.take(i + 1), more));
            assert(more.drop_last() =~= settled);
            settled = more;
        }
        out.append(&mut orders);
    }
    assert(targets@.take(n as int) =~= targets@);
    (out, Ghost(settled))
}

/// The index of the last bar; zero where there is none.
pub open spec fn last_bar(snapshots: Seq<Snapshot<String>>) -> int {
    if snapshots.len() == 0 {
        0
    } else {
        snapshots.len() - 1
    }
}

/// Whether a closeout turns one state, and the report of how it came about, into
/// another: nothing changes after ruin, or where the positions are carried.
pub open spec fn closes_out<S: Strategy<String>, W: Wallet<String>>(
    pre: (S, W),
    was: RunReport<String>,
    closeout: Closeout,
    bar: int,
    post: (S, W),
    now: RunReport<String>,
) -> bool {
    if was.ruin_bar is Some || closeout is Carry {
        post == pre && now == was
    } else {
        exists|trace: CloseTrace| #[trigger]
            closes(was, closeout, bar, trace, now) && leads(
                close_events(closeout, was.equity_curve@.len(), trace),
                pre,
                post,
            )
    }
}

/// Apply a closeout to an account that a run has just driven. A ruined run, and
/// one whose positions are to be carried, is left alone.
pub fn apply_closeout<S: Strategy<String>, W: Wallet<String>>(
    strategy: &mut S,
    wallet: &mut W,
    snapshots: &[Snapshot<String>],
    report: &mut RunReport<String>,
    closeout: &Closeout,
)
    requires
        closeout.wf(),
    ensures
        closes_out(
            (*old(strategy), *old(wallet)),
            *old(report),
            *closeout,
            last_bar(snapshots@),
            (*final(strategy), *final(wallet)),
            *final(report),
        ),
{
    if report.ruin_bar.is_some() || closeout.is_carry() {
        return ;
    }
    let ghost before = *report;
    let ghost start = (*strategy, *wallet);
    let bar: usize = if snapshots.len() == 0 {
        0
    } else {
        snapshots.len() - 1
    };
    let ghost mut settled: Seq<Seq<Order<String>>> = Seq::empty();
    let ghost mut log: Seq<Event<String>> = Seq::empty();
    let fills: Vec<Order<String>> = match closeout {
        Closeout::Hold(hold) => {
            let (orders, each) = settle_all(&*strategy, wallet, &hold.entries);
            proof {
                settled = each@;
                log = settle_events(hold.entries@, settled);
            }
            orders
        },
        Closeout::Rebalance { hold } => {
            let (orders, each) = settle_all(&*strategy, wallet, &hold.entries);
            proof {
                settled = each@;
                log = settle_events(hold.entries@, settled);
            }
            orders
        },
        _ => {
            let orders: Vec<Order<String>> = wallet.flatten();
            proof {
                leads_nowhere::<String, S, W>(start);
                leads_one(log, start, start, Event::Flatten(orders@), (*strategy, *wallet));
                log = log.push(Event::Flatten(orders@));
            }
            orders
        },
    };
    let ghost all = fills@;
    let ghost mid = (*strategy, *wallet);
    route_fills(strategy, &*wallet, fills, bar, &mut report.fills);
    proof {
        leads_on(log, told(all), start, mid, (*strategy, *wallet));
    }
    let ghost mid = (*strategy, *wallet);
    let refused: Ghost<Seq<Rejection<String>>> = drain_rejections(
        strategy,
        wallet,
        bar,
        &mut report.rejections,
    );
    let ghost done = (*strategy, *wallet);
    proof {
        leads_on(log + told(all), drained(refused@), start, mid, done);
    }
    let ghost log = log + told(all) + drained(refused@);
    let ghost mut equity = Real { bits: 0 };
    let points: usize = report.equity_curve.len();
    if points > 0 {
        let now: Real = wallet.equity();
        report.equity_curve.set(points - 1, now);
        proof {
            leads_one(log, start, done, Event::Equity(now), done);
            equity = now;
        }
    }
    proof {
        let trace = CloseTrace { settled, flattened: all, refused: refused@, equity };
        let expected = close_events(*closeout, before.equity_curve@.len(), trace);
        if points > 0 {
            assert(log.push(Event::Equity(equity)) =~= expected);
        } else {
            assert(log =~= expected);
        }
        assert(leads(expected, start, (*strategy, *wallet)));
        assert(closes(before, *closeout, last_bar(snapshots@), trace, *report));
    }
}

// ---------------------------------------------------------------------------
// Many runs
// ---------------------------------------------------------------------------

/// Drive each pair of strategy and account over the same bars, in parallel, and
/// report on each in the pair's place.
///
/// The body is rayon's `par_iter_mut` on a slice, its `map` and its `collect`.
/// Believed of them: every pair is handed to `run` once, nothing else touches it,
/// and the reports come back in the order of the pairs.
#[verifier::external_body]
pub fn run_many<Sym: Send + Sync, S: Strategy<Sym> + Send, W: Wallet<Sym> + Send>(
    runs: &mut [(S, W)],
    snapshots: &[Snapshot<Sym>],
) -> (reports: Vec<RunReport<Sym>>)
    ensures
        final(runs)@.len() == old(runs)@.len(),
        reports@.len() == old(runs)@.len(),
        forall|i: int|
            0 <= i < old(runs)@.len() ==> drives(
                #[trigger] old(runs)@[i],
                snapshots@,
                DriveMode::Trade,
                None,
                final(runs)@[i],
                reports@[i],
            ),
{
    runs.par_iter_mut().map(|(strategy, wallet)| run(strategy, wallet, snapshots)).collect()
}

// ---------------------------------------------------------------------------
// Laws
// ---------------------------------------------------------------------------

/// A report has one point of the equity curve for each bar.
pub proof fn one_point_per_bar<Sym, S: Strategy<Sym>, W: Wallet<Sym>>(
    pre: (S, W),
    snapshots: Seq<Snapshot<Sym>>,
    mode: DriveMode,
    force: Option<(usize, Seq<Sym>)>,
    post: (S, W),
    report: RunReport<Sym>,
)
    requires
        drives(pre, snapshots, mode, force, post, report),
    ensures
        report.equity_curve@.len() == snapshots.len(),
{
}

/// From the bar of ruin on the curve is zero, before it no point is zero or
/// below, and a run that was not ruined has no such point. A warm-up is never
/// ruined.
pub proof fn ruin_pins_the_curve<Sym, S: Strategy<Sym>, W: Wallet<Sym>>(
    pre: (S, W),
    snapshots: Seq<Snapshot<Sym>>,
    mode: DriveMode,
    force: Option<(usize, Seq<Sym>)>,
    post: (S, W),
    report: RunReport<Sym>,
)
    requires
        drives(pre, snapshots, mode, force, post, report),
        snapshots.len() <= usize::MAX,
    ensures
        match report.ruin_bar {
            Some(b) => {
                &&& mode == DriveMode::Trade
                &&& b < snapshots.len()
                &&& forall|i: int|
                    0 <= i < b ==> !(#[trigger] report.equity_curve@[i]).at_most_zero()
                &&& forall|i: int|
                    b <= i < snapshots.len() ==> #[trigger] report.equity_curve@[i] == (Real {
                        bits: 0,
                    })
            },
            None => mode == DriveMode::Trade ==> forall|i: int|
                0 <= i < snapshots.len() ==> !(#[trigger] report.equity_curve@[i]).at_most_zero(),
        },
{
    let trace = choose|trace: RunTrace<Sym>|
        trace.outs.len() == snapshots.len() && #[trigger] reports(report, mode, trace) && leads(
            run_events(snapshots, mode, force, trace),
            pre,
            post,
        );
    ruin_is_early(trace.outs, mode);
}

/// From the bar of ruin on every part's equity is zero, as the curve is.
pub proof fn ruin_pins_the_parts<Sym, S: Strategy<Sym>, W: Wallet<Sym>>(
    pre: (S, W),
    snapshots: Seq<Snapshot<Sym>>,
    mode: DriveMode,
    force: Option<(usize, Seq<Sym>)>,
    post: (S, W),
    report: RunReport<Sym>,
    parts: Attribution<Sym>,
    bar: usize,
)
    requires
        drives(pre, snapshots, mode, force, post, report),
        report.attribution == Some(parts),
        report.ruin_bar == Some(bar),
    ensures
        forall|i: int, j: int|
            bar <= i < parts.equity@.len() && 0 <= j < parts.equity@[i]@.len() ==> (
            #[trigger] parts.equity@[i]@[j]) == (Real { bits: 0 }),
{
    let trace = choose|trace: RunTrace<Sym>|
        trace.outs.len() == snapshots.len() && #[trigger] reports(report, mode, trace) && leads(
            run_events(snapshots, mode, force, trace),
            pre,
            post,
        );
    let table = attribution::rows(parts.equity@);
    let given = attribution::rows(trace.parts->0.equity@);
    assert(table == attribution::pinned(given, bar as int));
    assert forall|i: int, j: int|
        bar <= i < parts.equity@.len() && 0 <= j < parts.equity@[i]@.len() implies (
    #[trigger] parts.equity@[i]@[j]) == (Real { bits: 0 }) by {
        assert(table[i] == parts.equity@[i]@);
    }
}

/// Where the parts that a strategy gives up have one row for each bar, and each row
/// adds up to the account's equity at the close of its bar, the report's rows add up
/// to its curve, bar by bar, those from the bar of ruin on too. What adding up means
/// is left open, but for this: zeros add up to zero.
pub proof fn parts_add_up_to_the_curve<Sym>(
    adds_up: spec_fn(Seq<Real>, Real) -> bool,
    report: RunReport<Sym>,
    mode: DriveMode,
    trace: RunTrace<Sym>,
)
    requires
        reports(report, mode, trace),
        trace.parts is Some,
        trace.parts->0.equity@.len() == trace.outs.len(),
        forall|i: int|
            0 <= i < trace.outs.len() ==> adds_up(
                #[trigger] trace.parts->0.equity@[i]@,
                trace.outs[i].equity,
            ),
        forall|row: Seq<Real>|
            (forall|j: int| 0 <= j < row.len() ==> row[j] == (Real { bits: 0 }))
                ==> #[trigger] adds_up(row, Real { bits: 0 }),
    ensures
        report.attribution is Some,
        report.attribution->0.equity@.len() == report.equity_curve@.len(),
        forall|i: int|
            0 <= i < report.equity_curve@.len() ==> adds_up(
                #[trigger] report.attribution->0.equity@[i]@,
                report.equity_curve@[i],
            ),
{
    let given = attribution::rows(trace.parts->0.equity@);
    let shown = attribution::rows(report.attribution->0.equity@);
    assert(shown.len() == given.len());
    assert forall|i: int| 0 <= i < report.equity_curve@.len() implies adds_up(
        #[trigger] report.attribution->0.equity@[i]@,
        report.equity_curve@[i],
    ) by {
        assert(shown[i] == report.attribution->0.equity@[i]@);
        assert(given[i] == trace.parts->0.equity@[i]@);
        assert(adds_up(given[i], trace.outs[i].equity));
        match report.ruin_bar {
            Some(bar) => {
                if i >= bar {
                    assert(shown[i] =~= Seq::new(given[i].len(), |j: int| Real { bits: 0 }));
                    assert(adds_up(shown[i], Real { bits: 0 }));
                }
            },
            None => {},
        }
    }
}

/// A run over no bars leaves the account as it was and reports nothing but its
/// equity, its carry and the parts; of the strategy it only takes the parts.
pub proof fn no_bars_leave_the_account<Sym, S: Strategy<Sym>, W: Wallet<Sym>>(
    pre: (S, W),
    mode: DriveMode,
    force: Option<(usize, Seq<Sym>)>,
    post: (S, W),
    report: RunReport<Sym>,
)
    requires
        drives(pre, Seq::<Snapshot<Sym>>::empty(), mode, force, post, report),
    ensures
        post.1 == pre.1,
        S::does(pre.0, Event::Parts(report.attribution), post.0),
        W::does(pre.1, Event::Equity(report.initial_equity), pre.1),
        W::does(pre.1, Event::Coverage(report.carry_coverage), pre.1),
        report.equity_curve@.len() == 0,
        report.fills@.len() == 0,
        report.rejections@.len() == 0,
        report.ruin_bar is None,
{
    let trace = choose|trace: RunTrace<Sym>|
        trace.outs.len() == 0 && #[trigger] reports(report, mode, trace) && leads(
            run_events(Seq::<Snapshot<Sym>>::empty(), mode, force, trace),
            pre,
            post,
        );
    let log = run_events(Seq::<Snapshot<Sym>>::empty(), mode, force, trace);
    assert(trace.outs =~= Seq::<BarOutcome<Sym>>::empty());
    assert(log =~= seq![
        Event::Equity(trace.initial),
        Event::Parts(trace.parts),
        Event::Coverage(trace.coverage),
    ]);
    reveal_with_fuel(leads, 4);
    let third = choose|mid: (S, W)|
        leads(log.drop_last(), pre, mid) && #[trigger] happens(mid, log.last(), post);
    let two = log.drop_last();
    let second = choose|mid: (S, W)|
        leads(two.drop_last(), pre, mid) && #[trigger] happens(mid, two.last(), third);
    let one = two.drop_last();
    let first = choose|mid: (S, W)|
        leads(one.drop_last(), pre, mid) && #[trigger] happens(mid, one.last(), second);
    assert(one.drop_last().len() == 0);
}

/// Whether no call in a log submits anything: the strategy does not trade, its
/// gate is not touched, and nothing is closed.
pub open spec fn submits_nothing<Sym>(log: Seq<Event<Sym>>) -> bool {
    forall|i: int|
        0 <= i < log.len() ==> !((#[trigger] log[i]) is Trade) && !(log[i] is Force) && !(log[i]
            is Flatten) && !(log[i] is Settle)
}

proof fn shown_submits_nothing<Sym>(entries: Seq<Entry<Sym>>)
    ensures
        submits_nothing(shown(entries)),
    decreases entries.len(),
{
    if entries.len() > 0 {
        shown_submits_nothing(entries.drop_last());
    }
}

proof fn joined_submit_nothing<Sym>(a: Seq<Event<Sym>>, b: Seq<Event<Sym>>)
    requires
        submits_nothing(a),
        submits_nothing(b),
    ensures
        submits_nothing(a + b),
{
    assert forall|i: int| 0 <= i < (a + b).len() implies !((#[trigger] (a + b)[i]) is Trade) && !((a
        + b)[i] is Force) && !((a + b)[i] is Flatten) && !((a + b)[i] is Settle) by {
        if i < a.len() {
            assert((a + b)[i] == a[i]);
        } else {
            assert((a + b)[i] == b[i - a.len()]);
        }
    }
}

proof fn feed_submits_nothing<Sym>(
    snapshot: Snapshot<Sym>,
    filled: Seq<Order<Sym>>,
    refused: Seq<Rejection<Sym>>,
    polled: Seq<Order<Sym>>,
)
    ensures
        submits_nothing(feed_events(snapshot, filled, refused, polled)),
{
    shown_submits_nothing(snapshot.entries@);
    let log = shown(snapshot.entries@).push(Event::Advance(priced(snapshot.entries@), filled));
    assert(submits_nothing(log));
    joined_submit_nothing(log, told(filled));
    let log = log + told(filled);
    joined_submit_nothing(seq![Event::Refusals(refused)], drained(refused).skip(1));
    assert(drained(refused) =~= seq![Event::Refusals(refused)] + drained(refused).skip(1));
    joined_submit_nothing(log, drained(refused));
    let log = log + drained(refused);
    joined_submit_nothing(log, seq![Event::Poll(polled)]);
    let log = log + seq![Event::Poll(polled)];
    joined_submit_nothing(log, told(polled));
    joined_submit_nothing(log + told(polled), seq![Event::Update(snapshot)]);
}

/// On a bar of a warm-up, and on one after the bar of ruin, nothing is submitted.
pub proof fn idle_bars_submit_nothing<Sym>(
    snapshot: Snapshot<Sym>,
    mode: DriveMode,
    force: Option<Seq<Sym>>,
    ruined: bool,
    o: BarOutcome<Sym>,
)
    requires
        mode == DriveMode::WarmUpOnly || ruined,
    ensures
        submits_nothing(bar_events(snapshot, mode, force, ruined, o)),
{
    feed_submits_nothing(snapshot, o.filled, o.refused, o.polled);
    let fed = feed_events(snapshot, o.filled, o.refused, o.polled);
    let none = Seq::<Event<Sym>>::empty();
    joined_submit_nothing(fed, none);
    joined_submit_nothing(fed + none, seq![Event::Equity(o.equity)]);
    joined_submit_nothing(fed + none + seq![Event::Equity(o.equity)], none);
}

proof fn warm_up_bars_submit_nothing<Sym>(
    snapshots: Seq<Snapshot<Sym>>,
    force: Option<(usize, Seq<Sym>)>,
    outs: Seq<BarOutcome<Sym>>,
)
    ensures
        submits_nothing(all_events(snapshots, DriveMode::WarmUpOnly, force, outs)),
    decreases outs.len(),
{
    if outs.len() > 0 {
        let n = outs.len() - 1;
        warm_up_bars_submit_nothing(snapshots, force, outs.drop_last());
        let ruined = ruin_of(outs.drop_last(), DriveMode::WarmUpOnly) is Some;
        idle_bars_submit_nothing(
            snapshots[n],
            DriveMode::WarmUpOnly,
            force_at(force, n),
            ruined,
            outs.last(),
        );
        joined_submit_nothing(
            all_events(snapshots, DriveMode::WarmUpOnly, force, outs.drop_last()),
            bar_events(
                snapshots[n],
                DriveMode::WarmUpOnly,
                force_at(force, n),
                ruined,
                outs.last(),
            ),
        );
    }
}

/// A warm-up submits nothing.
pub proof fn warm_up_submits_nothing<Sym>(
    snapshots: Seq<Snapshot<Sym>>,
    force: Option<(usize, Seq<Sym>)>,
    trace: RunTrace<Sym>,
)
    ensures
        submits_nothing(run_events(snapshots, DriveMode::WarmUpOnly, force, trace)),
{
    let head = seq![Event::<Sym>::Equity(trace.initial)];
    let tail = seq![Event::<Sym>::Parts(trace.parts), Event::Coverage(trace.coverage)];
    warm_up_bars_submit_nothing(snapshots, force, trace.outs);
    let bars = all_events(snapshots, DriveMode::WarmUpOnly, force, trace.outs);
    joined_submit_nothing(head, bars);
    joined_submit_nothing(head + bars, tail);
}

/// Where a bar's gate is forced, the strategy trades next, and the rebalance gate is let go
/// right after. Where nothing is to be forced, the rebalance gate is not touched.
pub proof fn forced_gate_is_let_go<Sym>(o: BarOutcome<Sym>, force: Option<Seq<Sym>>, i: int)
    requires
        0 <= i < trade_events(o, force).len(),
    ensures
        force is None ==> !(trade_events(o, force)[i] is Force),
        force is Some && o.ready ==> trade_events(o, force)[1] == Event::Force(force),
        trade_events(o, force)[i] matches Event::Force(Some(hold)) ==> force == Some(hold) && i + 2
            < trade_events(o, force).len() && trade_events(o, force)[i + 1] is Trade
            && trade_events(o, force)[i + 2] == Event::<Sym>::Force(None),
{
    let log = trade_events(o, force);
    if o.ready {
        let d = drained(o.trade_refused);
        match force {
            Some(hold) => {
                if i >= 4 {
                    assert(log[i] == d[i - 4]);
                }
            },
            None => {
                if i >= 2 {
                    assert(log[i] == d[i - 2]);
                }
            },
        }
    }
}

/// Fills and refusals are reported in the order of their bars, and on the bars
/// of the run.
pub proof fn stamps_are_in_order<Sym>(outs: Seq<BarOutcome<Sym>>, mode: DriveMode)
    requires
        outs.len() <= usize::MAX,
    ensures
        forall|i: int|
            0 <= i < all_fills(outs, mode).len() ==> (#[trigger] all_fills(outs, mode)[i]).bar
                < outs.len(),
        forall|i: int, j: int|
            0 <= i <= j < all_fills(outs, mode).len() ==> (#[trigger] all_fills(outs, mode)[i]).bar
                <= (#[trigger] all_fills(outs, mode)[j]).bar,
        forall|i: int|
            0 <= i < all_refusals(outs, mode).len() ==> (#[trigger] all_refusals(outs, mode)[i]).bar
                < outs.len(),
        forall|i: int, j: int|
            0 <= i <= j < all_refusals(outs, mode).len() ==> (#[trigger] all_refusals(
                outs,
                mode,
            )[i]).bar <= (#[trigger] all_refusals(outs, mode)[j]).bar,
    decreases outs.len(),
{
    if outs.len() > 0 {
        let before = outs.drop_last();
        stamps_are_in_order(before, mode);
        let bar = outs.len() - 1;
        let fills = all_fills(outs, mode);
        let n = all_fills(before, mode).len();
        assert forall|i: int| 0 <= i < fills.len() implies if i < n {
            #[trigger] fills[i] == all_fills(before, mode)[i]
        } else {
            fills[i].bar == bar
        } by {}
        let refusals = all_refusals(outs, mode);
        let m = all_refusals(before, mode).len();
        assert forall|i: int| 0 <= i < refusals.len() implies if i < m {
            #[trigger] refusals[i] == all_refusals(before, mode)[i]
        } else {
            refusals[i].bar == bar
        } by {}
    }
}

/// Whether an account books nothing on the bars after one.
pub open spec fn quiet_after<Sym>(outs: Seq<BarOutcome<Sym>>, bar: int) -> bool {
    forall|i: int|
        bar < i < outs.len() ==> (#[trigger] outs[i]).filled.len() == 0 && outs[i].polled.len() == 0
}

/// A ruined run has no fill after the bar of ruin, on an account that books nothing
/// once its positions are closed.
pub proof fn no_fill_after_ruin<Sym>(outs: Seq<BarOutcome<Sym>>, mode: DriveMode, bar: usize)
    requires
        outs.len() <= usize::MAX,
        ruin_of(outs, mode) == Some(bar),
        quiet_after(outs, bar as int),
    ensures
        forall|i: int|
            0 <= i < all_fills(outs, mode).len() ==> (#[trigger] all_fills(outs, mode)[i]).bar
                <= bar,
    decreases outs.len(),
{
    if outs.len() > 0 {
        let before = outs.drop_last();
        match ruin_of(before, mode) {
            Some(b) => {
                ruin_is_early(before, mode);
                assert forall|i: int| bar < i < before.len() implies (
                #[trigger] before[i]).filled.len() == 0 && before[i].polled.len() == 0 by {
                    assert(before[i] == outs[i]);
                }
                no_fill_after_ruin(before, mode, bar);
                assert(outs[outs.len() - 1].filled.len() == 0);
                assert(all_fills(outs, mode) =~= all_fills(before, mode));
            },
            None => {
                stamps_are_in_order(outs, mode);
            },
        }
    }
}

/// Closing out never makes the curve longer or shorter, changes no point but the
/// last, and takes back no fill and no refusal; what it adds stands at its bar.
pub proof fn closing_keeps_the_past(
    pre: RunReport<String>,
    closeout: Closeout,
    bar: usize,
    trace: CloseTrace,
    post: RunReport<String>,
)
    requires
        closes(pre, closeout, bar as int, trace, post),
    ensures
        post.equity_curve@.len() == pre.equity_curve@.len(),
        forall|i: int|
            0 <= i < pre.equity_curve@.len() - 1 ==> #[trigger] post.equity_curve@[i]
                == pre.equity_curve@[i],
        pre.fills@.is_prefix_of(post.fills@),
        pre.rejections@.is_prefix_of(post.rejections@),
        forall|i: int|
            pre.fills@.len() <= i < post.fills@.len() ==> (#[trigger] post.fills@[i]).bar == bar,
        forall|i: int|
            pre.rejections@.len() <= i < post.rejections@.len() ==> (
            #[trigger] post.rejections@[i]).bar == bar,
{
    let fills = stamped(close_fills(closeout, trace), bar as int);
    assert forall|i: int| pre.fills@.len() <= i < post.fills@.len() implies (
    #[trigger] post.fills@[i]).bar == bar by {
        assert(post.fills@[i] == fills[i - pre.fills@.len()]);
    }
    let refusals = stamped_refusals(trace.refused, bar as int);
    assert forall|i: int| pre.rejections@.len() <= i < post.rejections@.len() implies (
    #[trigger] post.rejections@[i]).bar == bar by {
        assert(post.rejections@[i] == refusals[i - pre.rejections@.len()]);
    }
}

/// A closeout that holds targets, with or without a rebalance before it, settles
/// each of them once, in ascending order of the symbols, at its own number of units.
/// It closes nothing else and trades nothing, and what it books is what the settling
/// calls returned, in their order. Without targets it books nothing.
#[verifier::rlimit(40)]
pub proof fn holding_settles_each_target_once(
    closeout: Closeout,
    targets: OrdMap<String, Real>,
    points: nat,
    trace: CloseTrace,
)
    requires
        targets.wf(),
        closeout == Closeout::Hold(targets) || closeout == (Closeout::Rebalance { hold: targets }),
        trace.settled.len() == targets.entries@.len(),
    ensures
        ({
            let log = close_events(closeout, points, trace);
            let settling = log.take(targets.entries@.len() as int);
            &&& forall|i: int|
                0 <= i < log.len() ==> !((#[trigger] log[i]) is Flatten) && !(log[i] is Trade)
                    && !(log[i] is Force) && !(log[i] is Advance)
            &&& forall|i: int|
                0 <= i < log.len() && (#[trigger] log[i]) is Settle ==> i
                    < targets.entries@.len() && targets@.dom().contains(log[i]->Settle_0@)
                    && log[i]->Settle_1 == targets@[log[i]->Settle_0@]
            &&& forall|s: Seq<char>| #[trigger]
                targets@.dom().contains(s) ==> exists|i: int|
                    0 <= i < log.len() && (#[trigger] log[i]) is Settle && log[i]->Settle_0@ == s
            &&& forall|i: int, j: int|
                0 <= i < j < log.len() && (#[trigger] log[i]) is Settle && (#[trigger] log[j])
                    is Settle ==> text::text_lt(log[i]->Settle_0@, log[j]->Settle_0@)
            &&& close_fills(closeout, trace) == settling.map_values(
                |e: Event<String>| e->Settle_2,
            ).flatten_alt()
            &&& targets.entries@.len() == 0 ==> close_fills(closeout, trace).len() == 0
        }),
{
    let n = targets.entries@.len() as int;
    let log = close_events(closeout, points, trace);
    let settles = settle_events(targets.entries@, trace.settled);
    let rest = told(close_fills(closeout, trace)) + drained(trace.refused) + (if points > 0 {
        seq![Event::Equity(trace.equity)]
    } else {
        seq![]
    });
    assert(log =~= settles + rest);
    assert forall|i: int| 0 <= i < log.len() implies (if i < n {
        (#[trigger] log[i]) == Event::Settle(
            targets.entries@[i].0,
            targets.entries@[i].1,
            trace.settled[i],
        )
    } else {
        log[i] is Filled || log[i] is Refusals || log[i] is Refused || log[i] is Equity
    }) by {
        if i >= n {
            assert(log[i] == rest[i - n]);
        }
    }
    assert forall|i: int| 0 <= i < log.len() && (#[trigger] log[i]) is Settle implies i < n
        && targets@.dom().contains(log[i]->Settle_0@) && log[i]->Settle_1
        == targets@[log[i]->Settle_0@] by {
        crate::ordmap::place_is_unique(targets.entries@, i);
    }
    assert forall|s: Seq<char>| #[trigger] targets@.dom().contains(s) implies exists|i: int|
        0 <= i < log.len() && (#[trigger] log[i]) is Settle && log[i]->Settle_0@ == s by {
        let p = choose|p: int| crate::ordmap::holds(targets.entries@, s, p);
        assert(crate::ordmap::holds(targets.entries@, s, p));
        assert(log[p] is Settle);
    }
    assert forall|i: int, j: int|
        0 <= i < j < log.len() && (#[trigger] log[i]) is Settle && (#[trigger] log[j])
            is Settle implies text::text_lt(log[i]->Settle_0@, log[j]->Settle_0@) by {
        assert(<String as Key>::before(
            targets.entries@[i].0.model(),
            targets.entries@[j].0.model(),
        ));
    }
    let lists = log.take(n).map_values(|e: Event<String>| e->Settle_2);
    assert(lists =~= trace.settled);
    gathered_is_flat(trace.settled);
}

/// Carrying leaves the strategy, the account and the report as they were, and so does
/// any closeout of a ruined run. Any other keeps all of the report but its last point
/// and what it appends.
pub proof fn carried_and_ruined_runs_stay<S: Strategy<String>, W: Wallet<String>>(
    pre: (S, W),
    was: RunReport<String>,
    closeout: Closeout,
    bar: int,
    post: (S, W),
    now: RunReport<String>,
)
    requires
        closes_out(pre, was, closeout, bar, post, now),
    ensures
        closeout == Closeout::Carry ==> post == pre && now == was,
        was.ruin_bar is Some ==> post == pre && now == was,
        now.ruin_bar == was.ruin_bar,
        now.initial_equity == was.initial_equity,
        now.carry_coverage == was.carry_coverage,
        now.attribution == was.attribution,
        now.equity_curve@.len() == was.equity_curve@.len(),
        now.fills@.len() >= was.fills@.len(),
{
}

proof fn gathered_is_flat(lists: Seq<Seq<Order<String>>>)
    ensures
        gathered(lists) == lists.flatten_alt(),
    decreases lists.len(),
{
    if lists.len() > 0 {
        gathered_is_flat(lists.drop_last());
    }
}

/// A closeout that flattens closes all positions, once and before anything else,
/// settles no single one and trades nothing; what it books is what that call
/// returned.
pub proof fn flattening_closes_once(closeout: Closeout, points: nat, trace: CloseTrace)
    requires
        closeout is Flatten,
    ensures
        ({
            let log = close_events(closeout, points, trace);
            &&& log.len() > 0
            &&& log[0] == Event::Flatten(close_fills(closeout, trace))
            &&& forall|i: int|
                1 <= i < log.len() ==> !((#[trigger] log[i]) is Flatten) && !(log[i] is Settle)
                    && !(log[i] is Trade) && !(log[i] is Force) && !(log[i] is Advance)
        }),
{
    let log = close_events(closeout, points, trace);
    let rest = told(close_fills(closeout, trace)) + drained(trace.refused) + (if points > 0 {
        seq![Event::Equity(trace.equity)]
    } else {
        seq![]
    });
    assert(log =~= seq![Event::Flatten(trace.flattened)] + rest);
    assert forall|i: int| 1 <= i < log.len() implies (#[trigger] log[i]) is Filled || log[i]
        is Refusals || log[i] is Refused || log[i] is Equity by {
        assert(log[i] == rest[i - 1]);
    }
}

// ---------------------------------------------------------------------------
// The books of a log
// ---------------------------------------------------------------------------

/// What the calls of a log carried, by what they were about.
pub struct Books<Sym> {
    /// The fills that the account's calls returned, in order.
    pub booked: Seq<Order<Sym>>,
    /// The fills that the strategy was told of, in order.
    pub heard: Seq<Order<Sym>>,
    /// The refusals that the account gave up, in order.
    pub refused: Seq<Rejection<Sym>>,
    /// The refusals that the strategy was told of, in order.
    pub answered: Seq<Rejection<Sym>>,
    /// The bars that the strategy was shown, in order.
    pub seen: Seq<Snapshot<Sym>>,
    /// The prices that the account was fed, in order.
    pub fed: Seq<Seq<(Sym, Candle)>>,
    /// What the account said of its equity, in order.
    pub valued: Seq<Real>,
    /// How often the strategy traded.
    pub trades: nat,
}

impl<Sym> Books<Sym> {
    /// Books with nothing in them.
    pub open spec fn blank() -> Books<Sym> {
        Books {
            booked: seq![],
            heard: seq![],
            refused: seq![],
            answered: seq![],
            seen: seq![],
            fed: seq![],
            valued: seq![],
            trades: 0,
        }
    }

    /// These books and then others.
    pub open spec fn and(self, more: Books<Sym>) -> Books<Sym> {
        Books {
            booked: self.booked + more.booked,
            heard: self.heard + more.heard,
            refused: self.refused + more.refused,
            answered: self.answered + more.answered,
            seen: self.seen + more.seen,
            fed: self.fed + more.fed,
            valued: self.valued + more.valued,
            trades: self.trades + more.trades,
        }
    }
}

/// What one call carried.
pub open spec fn entered<Sym>(event: Event<Sym>) -> Books<Sym> {
    let blank = Books::<Sym>::blank();
    match event {
        Event::Advance(bars, orders) => Books { booked: orders, fed: seq![bars], ..blank },
        Event::Poll(orders) => Books { booked: orders, ..blank },
        Event::Flatten(orders) => Books { booked: orders, ..blank },
        Event::Settle(_, _, orders) => Books { booked: orders, ..blank },
        Event::Filled(order) => Books { heard: seq![order], ..blank },
        Event::Refusals(rejections) => Books { refused: rejections, ..blank },
        Event::Refused(rejection) => Books { answered: seq![rejection], ..blank },
        Event::Update(snapshot) => Books { seen: seq![snapshot], ..blank },
        Event::Equity(equity) => Books { valued: seq![equity], ..blank },
        Event::Trade => Books { trades: 1, ..blank },
        _ => blank,
    }
}

/// What the calls of a log carried.
pub open spec fn books<Sym>(log: Seq<Event<Sym>>) -> Books<Sym>
    decreases log.len(),
{
    if log.len() == 0 {
        Books::blank()
    } else {
        books(log.drop_last()).and(entered(log.last()))
    }
}

proof fn same_books<Sym>(a: Books<Sym>, b: Books<Sym>)
    requires
        a.booked =~= b.booked,
        a.heard =~= b.heard,
        a.refused =~= b.refused,
        a.answered =~= b.answered,
        a.seen =~= b.seen,
        a.fed =~= b.fed,
        a.valued =~= b.valued,
        a.trades == b.trades,
    ensures
        a == b,
{
}

proof fn books_join<Sym>(a: Seq<Event<Sym>>, b: Seq<Event<Sym>>)
    ensures
        books(a + b) == books(a).and(books(b)),
    decreases b.len(),
{
    if b.len() == 0 {
        assert(a + b =~= a);
    } else {
        assert((a + b).drop_last() =~= a + b.drop_last());
        books_join(a, b.drop_last());
    }
    same_books(books(a + b), books(a).and(books(b)));
}

proof fn books_of_one<Sym>(event: Event<Sym>)
    ensures
        books(seq![event]) == entered(event),
{
    assert(seq![event].drop_last() =~= Seq::<Event<Sym>>::empty());
    assert(books(Seq::<Event<Sym>>::empty()) == Books::<Sym>::blank());
    same_books(books(seq![event]), entered(event));
}

proof fn books_of_told<Sym>(orders: Seq<Order<Sym>>)
    ensures
        books(told(orders)) == (Books { heard: orders, ..Books::<Sym>::blank() }),
    decreases orders.len(),
{
    if orders.len() > 0 {
        books_of_told(orders.drop_last());
        assert(told(orders).drop_last() =~= told(orders.drop_last()));
        assert(orders.drop_last().push(orders.last()) =~= orders);
    }
    same_books(books(told(orders)), Books { heard: orders, ..Books::<Sym>::blank() });
}

proof fn books_of_answers<Sym>(rejections: Seq<Rejection<Sym>>)
    ensures
        books(Seq::new(rejections.len(), |i: int| Event::Refused(rejections[i]))) == (Books {
            answered: rejections,
            ..Books::<Sym>::blank()
        }),
    decreases rejections.len(),
{
    let log = Seq::new(rejections.len(), |i: int| Event::Refused(rejections[i]));
    if rejections.len() > 0 {
        let less = rejections.drop_last();
        books_of_answers(less);
        assert(log.drop_last() =~= Seq::new(less.len(), |i: int| Event::Refused(less[i])));
        assert(less.push(rejections.last()) =~= rejections);
    }
    same_books(books(log), Books { answered: rejections, ..Books::<Sym>::blank() });
}

proof fn books_of_drained<Sym>(rejections: Seq<Rejection<Sym>>)
    ensures
        books(drained(rejections)) == (Books {
            refused: rejections,
            answered: rejections,
            ..Books::<Sym>::blank()
        }),
{
    let answers = Seq::new(rejections.len(), |i: int| Event::Refused(rejections[i]));
    books_of_one(Event::Refusals(rejections));
    books_of_answers(rejections);
    books_join(seq![Event::Refusals(rejections)], answers);
    same_books(
        books(drained(rejections)),
        Books { refused: rejections, answered: rejections, ..Books::<Sym>::blank() },
    );
}

proof fn books_of_shown<Sym>(entries: Seq<Entry<Sym>>)
    ensures
        books(shown(entries)) == Books::<Sym>::blank(),
    decreases entries.len(),
{
    if entries.len() > 0 {
        books_of_shown(entries.drop_last());
        let last = entries.last();
        if let Some(s) = last.symbol {
            let log = shown(entries.drop_last());
            assert(log.push(Event::Observe(s, last.atom)).drop_last() =~= log);
        }
    }
    same_books(books(shown(entries)), Books::<Sym>::blank());
}

/// The books of a bar: its bars are fed and seen once, what the account books is
/// what the strategy hears, its equity is asked for once, and the strategy trades
/// once where it may and is ready.
#[verifier::rlimit(60)]
#[verifier::spinoff_prover]
pub proof fn a_bar_balances<Sym>(
    snapshot: Snapshot<Sym>,
    mode: DriveMode,
    force: Option<Seq<Sym>>,
    ruined: bool,
    o: BarOutcome<Sym>,
)
    ensures
        ({
            let b = books(bar_events(snapshot, mode, force, ruined, o));
            let ruin = mode == DriveMode::Trade && !ruined && o.equity.at_most_zero();
            let trades = mode == DriveMode::Trade && !ruined && o.ready;
            &&& b.booked == b.heard
            &&& b.refused == b.answered
            &&& b.booked == o.filled + o.polled + (if ruin {
                o.flattened
            } else {
                seq![]
            })
            &&& b.refused == o.refused + (if trades {
                o.trade_refused
            } else {
                seq![]
            }) + (if ruin {
                o.flatten_refused
            } else {
                seq![]
            })
            &&& b.seen == seq![snapshot]
            &&& b.fed == seq![priced(snapshot.entries@)]
            &&& b.valued == seq![o.equity]
            &&& b.trades == (if trades {
                1nat
            } else {
                0
            })
        }),
{
    let ruin = ruins(o, mode, ruined);
    let may = mode == DriveMode::Trade && !ruined;
    let log = feed_events(snapshot, o.filled, o.refused, o.polled);
    books_of_feed(snapshot, o.filled, o.refused, o.polled);
    let trading = if may {
        trade_events(o, force)
    } else {
        seq![]
    };
    if may {
        books_of_trade(o, force);
    }
    books_join(log, trading);
    books_of_one(Event::<Sym>::Equity(o.equity));
    books_join(log + trading, seq![Event::Equity(o.equity)]);
    let closing = if ruin {
        flatten_events(o.flattened, o.flatten_refused)
    } else {
        seq![]
    };
    if ruin {
        books_of_flatten(o.flattened, o.flatten_refused);
    }
    books_join(log + trading + seq![Event::Equity(o.equity)], closing);
    let b = books(bar_events(snapshot, mode, force, ruined, o));
    assert(b == books(log).and(books(trading)).and(entered(Event::Equity(o.equity))).and(
        books(closing),
    ));
    let flat = if ruin {
        o.flattened
    } else {
        seq![]
    };
    let late = if ruin {
        o.flatten_refused
    } else {
        seq![]
    };
    let own = if may && o.ready {
        o.trade_refused
    } else {
        seq![]
    };
    assert(books(closing).booked =~= flat && books(closing).heard =~= flat);
    assert(books(closing).refused =~= late && books(closing).answered =~= late);
    assert(books(trading).refused =~= own && books(trading).answered =~= own);
    assert(b.booked =~= o.filled + o.polled + flat);
    assert(b.heard =~= o.filled + o.polled + flat);
    assert(b.refused =~= o.refused + own + late);
    assert(b.answered =~= o.refused + own + late);
    assert(b.seen =~= seq![snapshot]);
    assert(b.fed =~= seq![priced(snapshot.entries@)]);
    assert(b.valued =~= seq![o.equity]);
}

#[verifier::rlimit(60)]
#[verifier::spinoff_prover]
proof fn books_of_feed<Sym>(
    snapshot: Snapshot<Sym>,
    filled: Seq<Order<Sym>>,
    refused: Seq<Rejection<Sym>>,
    polled: Seq<Order<Sym>>,
)
    ensures
        books(feed_events(snapshot, filled, refused, polled)) == (Books {
            booked: filled + polled,
            heard: filled + polled,
            refused,
            answered: refused,
            seen: seq![snapshot],
            fed: seq![priced(snapshot.entries@)],
            valued: seq![],
            trades: 0,
        }),
{
    let observed = shown(snapshot.entries@);
    let bars = priced(snapshot.entries@);
    let advance = Event::Advance(bars, filled);
    books_of_shown(snapshot.entries@);
    assert(observed.push(advance) =~= observed + seq![advance]);
    books_join(observed, seq![advance]);
    books_of_one(advance);
    let a = observed.push(advance);
    books_of_told(filled);
    books_join(a, told(filled));
    let b = a + told(filled);
    books_of_drained(refused);
    books_join(b, drained(refused));
    let c = b + drained(refused);
    books_of_one(Event::<Sym>::Poll(polled));
    books_join(c, seq![Event::Poll(polled)]);
    let d = c + seq![Event::Poll(polled)];
    books_of_told(polled);
    books_join(d, told(polled));
    let e = d + told(polled);
    books_of_one(Event::Update(snapshot));
    books_join(e, seq![Event::Update(snapshot)]);
    same_books(
        books(feed_events(snapshot, filled, refused, polled)),
        Books {
            booked: filled + polled,
            heard: filled + polled,
            refused,
            answered: refused,
            seen: seq![snapshot],
            fed: seq![bars],
            valued: seq![],
            trades: 0,
        },
    );
}

#[verifier::rlimit(60)]
#[verifier::spinoff_prover]
proof fn books_of_trade<Sym>(o: BarOutcome<Sym>, force: Option<Seq<Sym>>)
    ensures
        books(trade_events(o, force)) == (if o.ready {
            Books {
                refused: o.trade_refused,
                answered: o.trade_refused,
                trades: 1,
                ..Books::<Sym>::blank()
            }
        } else {
            Books::<Sym>::blank()
        }),
{
    if !o.ready {
        books_of_one(Event::<Sym>::Ready(false));
    } else {
        books_of_drained(o.trade_refused);
        let want = Books { trades: 1, ..Books::<Sym>::blank() };
        match force {
            Some(hold) => {
                let a = seq![Event::Ready(true), Event::Force(Some(hold))];
                let b = seq![Event::<Sym>::Trade, Event::Force(None)];
                books_pair(a[0], a[1]);
                books_pair(b[0], b[1]);
                books_join(a, b);
                let head = seq![
                    Event::Ready(true),
                    Event::Force(Some(hold)),
                    Event::Trade,
                    Event::Force(None),
                ];
                assert(head =~= a + b);
                same_books(books(head), want);
                books_join(head, drained(o.trade_refused));
            },
            None => {
                let head = seq![Event::<Sym>::Ready(true), Event::Trade];
                books_pair(head[0], head[1]);
                same_books(books(head), want);
                books_join(head, drained(o.trade_refused));
            },
        }
        same_books(
            books(trade_events(o, force)),
            Books {
                refused: o.trade_refused,
                answered: o.trade_refused,
                trades: 1,
                ..Books::<Sym>::blank()
            },
        );
    }
}

proof fn books_pair<Sym>(a: Event<Sym>, b: Event<Sym>)
    ensures
        books(seq![a, b]) == entered(a).and(entered(b)),
{
    books_of_one(a);
    books_of_one(b);
    books_join(seq![a], seq![b]);
    assert(seq![a] + seq![b] =~= seq![a, b]);
}

proof fn books_of_flatten<Sym>(flattened: Seq<Order<Sym>>, refused: Seq<Rejection<Sym>>)
    ensures
        books(flatten_events(flattened, refused)) == (Books {
            booked: flattened,
            heard: flattened,
            refused,
            answered: refused,
            ..Books::<Sym>::blank()
        }),
{
    let head = seq![Event::Flatten(flattened)];
    books_of_one(Event::Flatten(flattened));
    books_of_told(flattened);
    books_join(head, told(flattened));
    books_of_drained(refused);
    books_join(head + told(flattened), drained(refused));
    same_books(
        books(flatten_events(flattened, refused)),
        Books {
            booked: flattened,
            heard: flattened,
            refused,
            answered: refused,
            ..Books::<Sym>::blank()
        },
    );
}

/// The orders of fills.
pub open spec fn orders_in<Sym>(fills: Seq<Fill<Sym>>) -> Seq<Order<Sym>> {
    fills.map_values(|f: Fill<Sym>| f.order)
}

/// The refusals of a report.
pub open spec fn refusals_in<Sym>(rejections: Seq<Rejected<Sym>>) -> Seq<Rejection<Sym>> {
    rejections.map_values(|r: Rejected<Sym>| r.rejection)
}

#[verifier::rlimit(60)]
#[verifier::spinoff_prover]
proof fn bars_balance<Sym>(
    snapshots: Seq<Snapshot<Sym>>,
    mode: DriveMode,
    force: Option<(usize, Seq<Sym>)>,
    outs: Seq<BarOutcome<Sym>>,
)
    requires
        outs.len() <= snapshots.len(),
    ensures
        ({
            let b = books(all_events(snapshots, mode, force, outs));
            &&& b.booked == orders_in(all_fills(outs, mode))
            &&& b.heard == b.booked
            &&& b.refused == refusals_in(all_refusals(outs, mode))
            &&& b.answered == b.refused
            &&& b.seen == snapshots.take(outs.len() as int)
            &&& b.fed == Seq::new(outs.len(), |i: int| priced(snapshots[i].entries@))
            &&& b.valued == Seq::new(outs.len(), |i: int| outs[i].equity)
            &&& b.trades <= outs.len()
            &&& mode == DriveMode::WarmUpOnly ==> b.trades == 0
        }),
    decreases outs.len(),
{
    let b = books(all_events(snapshots, mode, force, outs));
    if outs.len() == 0 {
        assert(b == Books::<Sym>::blank());
        assert(orders_in(all_fills(outs, mode)) =~= Seq::<Order<Sym>>::empty());
        assert(refusals_in(all_refusals(outs, mode)) =~= Seq::<Rejection<Sym>>::empty());
        assert(b.seen =~= snapshots.take(0));
    } else {
        let n = outs.len() - 1;
        let less = outs.drop_last();
        let o = outs.last();
        let ruined = ruin_of(less, mode) is Some;
        bars_balance(snapshots, mode, force, less);
        let bar = bar_events(snapshots[n], mode, force_at(force, n), ruined, o);
        a_bar_balances(snapshots[n], mode, force_at(force, n), ruined, o);
        books_join(all_events(snapshots, mode, force, less), bar);
        let before = books(all_events(snapshots, mode, force, less));
        let last = books(bar);
        assert(all_events(snapshots, mode, force, outs) == all_events(snapshots, mode, force, less)
            + bar);
        assert(b == before.and(last));
        last_fills(outs, mode);
        assert(b.booked == before.booked + last.booked);
        assert(b.refused == before.refused + last.refused);
        assert(b.booked == orders_in(all_fills(outs, mode)));
        assert(b.refused == refusals_in(all_refusals(outs, mode)));
        assert(b.heard =~= b.booked);
        assert(b.answered =~= b.refused);
        assert(b.seen =~= snapshots.take(outs.len() as int));
    }
    assert(b.fed =~= Seq::new(outs.len(), |i: int| priced(snapshots[i].entries@)));
    assert(b.valued =~= Seq::new(outs.len(), |i: int| outs[i].equity));
}

#[verifier::rlimit(60)]
#[verifier::spinoff_prover]
proof fn last_fills<Sym>(outs: Seq<BarOutcome<Sym>>, mode: DriveMode)
    requires
        outs.len() > 0,
    ensures
        ({
            let o = outs.last();
            let less = outs.drop_last();
            let ruined = ruin_of(less, mode) is Some;
            &&& orders_in(all_fills(outs, mode)) == orders_in(all_fills(less, mode)) + (o.filled
                + o.polled + (if ruins(o, mode, ruined) {
                o.flattened
            } else {
                seq![]
            }))
            &&& refusals_in(all_refusals(outs, mode)) == refusals_in(all_refusals(less, mode)) + (
            o.refused + (if mode == DriveMode::Trade && !ruined && o.ready {
                o.trade_refused
            } else {
                seq![]
            }) + (if ruins(o, mode, ruined) {
                o.flatten_refused
            } else {
                seq![]
            }))
        }),
{
    let o = outs.last();
    let less = outs.drop_last();
    let ruined = ruin_of(less, mode) is Some;
    assert(orders_in(all_fills(outs, mode)) =~= orders_in(all_fills(less, mode)) + (o.filled
        + o.polled + (if ruins(o, mode, ruined) {
        o.flattened
    } else {
        seq![]
    })));
    assert(refusals_in(all_refusals(outs, mode)) =~= refusals_in(all_refusals(less, mode)) + (
    o.refused + (if mode == DriveMode::Trade && !ruined && o.ready {
        o.trade_refused
    } else {
        seq![]
    }) + (if ruins(o, mode, ruined) {
        o.flatten_refused
    } else {
        seq![]
    })));
}

/// A run's books balance. Every fill that the account books is told to the strategy
/// once and stands in the report once, in order; so does every refusal. Every bar is
/// shown to the strategy once, in order, and the account is fed each bar's prices
/// once. The equity is asked for before the first bar, and once for each, and the
/// curve holds the answers but for those from the bar of ruin on.
#[verifier::rlimit(60)]
#[verifier::spinoff_prover]
pub proof fn a_run_balances<Sym>(
    snapshots: Seq<Snapshot<Sym>>,
    mode: DriveMode,
    force: Option<(usize, Seq<Sym>)>,
    trace: RunTrace<Sym>,
    report: RunReport<Sym>,
)
    requires
        trace.outs.len() == snapshots.len(),
        reports(report, mode, trace),
    ensures
        ({
            let b = books(run_events(snapshots, mode, force, trace));
            &&& b.booked == orders_in(report.fills@)
            &&& b.heard == orders_in(report.fills@)
            &&& b.refused == refusals_in(report.rejections@)
            &&& b.answered == refusals_in(report.rejections@)
            &&& b.seen == snapshots
            &&& b.fed == Seq::new(snapshots.len(), |i: int| priced(snapshots[i].entries@))
            &&& b.valued.len() == snapshots.len() + 1
            &&& b.valued[0] == report.initial_equity
            &&& forall|i: int|
                0 <= i < snapshots.len() && (report.ruin_bar matches Some(r) ==> i < r)
                    ==> #[trigger] report.equity_curve@[i] == b.valued[i + 1]
            &&& b.trades <= snapshots.len()
            &&& mode == DriveMode::WarmUpOnly ==> b.trades == 0
        }),
{
    let head = seq![Event::<Sym>::Equity(trace.initial)];
    let bars = all_events(snapshots, mode, force, trace.outs);
    let tail = seq![Event::<Sym>::Parts(trace.parts), Event::Coverage(trace.coverage)];
    books_of_one(head[0]);
    bars_balance(snapshots, mode, force, trace.outs);
    books_join(head, bars);
    books_pair(tail[0], tail[1]);
    books_join(head + bars, tail);
    let b = books(run_events(snapshots, mode, force, trace));
    assert(b.booked =~= orders_in(report.fills@));
    assert(b.heard =~= orders_in(report.fills@));
    assert(b.refused =~= refusals_in(report.rejections@));
    assert(b.answered =~= refusals_in(report.rejections@));
    assert(snapshots.take(snapshots.len() as int) =~= snapshots);
    assert(b.seen =~= snapshots);
    assert(b.fed =~= Seq::new(snapshots.len(), |i: int| priced(snapshots[i].entries@)));
}

/// A closeout's books balance: every fill and every refusal of its calls is told to
/// the strategy once and appended to the report once, in order, and nothing else is.
/// The strategy does not trade.
#[verifier::rlimit(60)]
#[verifier::spinoff_prover]
pub proof fn a_closeout_balances(
    pre: RunReport<String>,
    closeout: Closeout,
    bar: int,
    trace: CloseTrace,
    post: RunReport<String>,
)
    requires
        closes(pre, closeout, bar, trace, post),
    ensures
        ({
            let b = books(close_events(closeout, pre.equity_curve@.len(), trace));
            &&& orders_in(post.fills@) == orders_in(pre.fills@) + b.booked
            &&& b.heard == b.booked
            &&& refusals_in(post.rejections@) == refusals_in(pre.rejections@) + b.refused
            &&& b.answered == b.refused
            &&& b.trades == 0
            &&& b.seen.len() == 0 && b.fed.len() == 0
            &&& pre.equity_curve@.len() > 0 ==> b.valued == seq![post.equity_curve@.last()]
        }),
{
    let points = pre.equity_curve@.len();
    let log = close_events(closeout, points, trace);
    let fills = close_fills(closeout, trace);
    let head = if closeout is Flatten {
        seq![Event::Flatten(trace.flattened)]
    } else {
        settle_events(closeout.named(), trace.settled)
    };
    let tail = if points > 0 {
        seq![Event::<String>::Equity(trace.equity)]
    } else {
        seq![]
    };
    if closeout is Flatten {
        books_of_one(Event::Flatten(trace.flattened));
    } else {
        books_of_settles(closeout.named(), trace.settled);
    }
    books_of_told(fills);
    books_join(head, told(fills));
    books_of_drained(trace.refused);
    books_join(head + told(fills), drained(trace.refused));
    books_of_one(Event::<String>::Equity(trace.equity));
    books_join(head + told(fills) + drained(trace.refused), tail);
    let b = books(log);
    assert(b.booked =~= fills);
    assert(b.heard =~= fills);
    assert(b.refused =~= trace.refused);
    assert(b.answered =~= trace.refused);
    assert(orders_in(post.fills@) =~= orders_in(pre.fills@) + fills);
    assert(refusals_in(post.rejections@) =~= refusals_in(pre.rejections@) + trace.refused);
    if points > 0 {
        assert(b.valued =~= seq![trace.equity]);
    }
}

proof fn books_of_settles(targets: Seq<(String, Real)>, settled: Seq<Seq<Order<String>>>)
    requires
        settled.len() == targets.len(),
    ensures
        books(settle_events(targets, settled)) == (Books {
            booked: gathered(settled),
            ..Books::<String>::blank()
        }),
    decreases targets.len(),
{
    let log = settle_events(targets, settled);
    if targets.len() > 0 {
        books_of_settles(targets.drop_last(), settled.drop_last());
        assert(log.drop_last() =~= settle_events(targets.drop_last(), settled.drop_last()));
    }
    same_books(
        books(log),
        Books { booked: gathered(settled), ..Books::<String>::blank() },
    );
}

/// A rebalance between bars trades once, shows no bar and asks for no prices, and
/// every refusal that it meets is told to the strategy and reported.
#[verifier::rlimit(60)]
#[verifier::spinoff_prover]
pub proof fn a_rebalance_balances<Sym>(
    hold: Seq<Sym>,
    trace: RebalanceTrace<Sym>,
    report: RunReport<Sym>,
)
    requires
        reports_rebalance(report, trace),
    ensures
        ({
            let log = rebalance_events(hold, trace);
            let b = books(log);
            &&& b.trades == 1
            &&& b.seen.len() == 0 && b.fed.len() == 0 && b.booked.len() == 0 && b.heard.len() == 0
            &&& b.refused == refusals_in(report.rejections@)
            &&& b.answered == refusals_in(report.rejections@)
            &&& b.valued == seq![report.initial_equity]
            &&& forall|i: int|
                0 <= i < log.len() && (#[trigger] log[i]) is Trade ==> 0 < i < log.len() - 1
                    && log[i - 1] == Event::Force(Some(hold)) && log[i + 1] == Event::<Sym>::Force(
                    None,
                )
            &&& log[0] == Event::<Sym>::Ready(true)
        }),
{
    let log = rebalance_events(hold, trace);
    let a = seq![Event::<Sym>::Ready(true), Event::Equity(trace.initial)];
    let b = seq![Event::Force(Some(hold)), Event::Trade];
    let c = seq![Event::<Sym>::Force(None)];
    let d = drained(trace.refused);
    let e = seq![Event::<Sym>::Coverage(trace.coverage), Event::Parts(trace.parts)];
    books_pair(a[0], a[1]);
    books_pair(b[0], b[1]);
    books_of_one(c[0]);
    books_of_drained(trace.refused);
    books_pair(e[0], e[1]);
    books_join(a, b);
    books_join(a + b, c);
    books_join(a + b + c, d);
    books_join(a + b + c + d, e);
    assert(log =~= a + b + c + d + e);
    assert(books(log).refused =~= trace.refused);
    assert(books(log).answered =~= trace.refused);
    assert(refusals_in(report.rejections@) =~= trace.refused);
    assert(books(log).valued =~= seq![trace.initial]);
    assert forall|i: int| 0 <= i < log.len() && (#[trigger] log[i]) is Trade implies i == 3 by {
        if 5 <= i < 5 + d.len() {
            assert(log[i] == d[i - 5]);
        } else if i >= 5 + d.len() {
            assert(log[i] == e[i - 5 - d.len()]);
        }
    }
}

/// On a bar the account is fed before the strategy sees the bar, and the strategy
/// sees the bar before it trades: an order is never filled at prices of its own bar.
/// The equity is asked for after the trade, and positions are closed after that.
#[verifier::rlimit(40)]
pub proof fn a_bar_is_priced_before_it_is_traded<Sym>(
    snapshot: Snapshot<Sym>,
    mode: DriveMode,
    force: Option<Seq<Sym>>,
    ruined: bool,
    o: BarOutcome<Sym>,
    i: int,
    j: int,
)
    requires
        0 <= i < j < bar_events(snapshot, mode, force, ruined, o).len(),
    ensures
        ({
            let log = bar_events(snapshot, mode, force, ruined, o);
            &&& log[i] is Trade ==> !(log[j] is Observe) && !(log[j] is Advance) && !(log[j]
                is Poll) && !(log[j] is Update)
            &&& log[i] is Update ==> !(log[j] is Observe) && !(log[j] is Advance) && !(log[j]
                is Poll)
            &&& log[i] is Advance ==> !(log[j] is Observe)
            &&& log[i] is Equity ==> !(log[j] is Trade) && !(log[j] is Advance) && !(log[j]
                is Poll) && !(log[j] is Update)
            &&& log[i] is Flatten ==> !(log[j] is Trade) && !(log[j] is Equity)
        }),
{
    let log = bar_events(snapshot, mode, force, ruined, o);
    let fed = feed_events(snapshot, o.filled, o.refused, o.polled);
    let trading = if mode == DriveMode::Trade && !ruined {
        trade_events(o, force)
    } else {
        seq![]
    };
    let closing = if ruins(o, mode, ruined) {
        flatten_events(o.flattened, o.flatten_refused)
    } else {
        seq![]
    };
    let rest = trading + seq![Event::Equity(o.equity)] + closing;
    assert(log =~= fed + rest);
    feed_submits_nothing(snapshot, o.filled, o.refused, o.polled);
    phases_of_feed(snapshot, o.filled, o.refused, o.polled);
    phases_of_rest(o, force, trading, closing);
    assert(i < fed.len() ==> log[i] == fed[i]);
    assert(j < fed.len() ==> log[j] == fed[j]);
    assert(i >= fed.len() ==> log[i] == rest[i - fed.len()]);
    assert(j >= fed.len() ==> log[j] == rest[j - fed.len()]);
}

/// When a call of a bar comes: showing, feeding, polling, updating, trading, valuing
/// and closing, in this order. News is passed on at any time.
spec fn phase<Sym>(event: Event<Sym>) -> int {
    match event {
        Event::Observe(_, _) => 0,
        Event::Advance(_, _) => 1,
        Event::Poll(_) => 2,
        Event::Update(_) => 3,
        Event::Trade => 4,
        Event::Equity(_) => 5,
        Event::Flatten(_) => 6,
        _ => -1,
    }
}

/// Whether the calls of a log come in the order of their phases, each phase from
/// `low` to `high`.
spec fn in_phases<Sym>(log: Seq<Event<Sym>>, low: int, high: int) -> bool {
    &&& forall|i: int|
        0 <= i < log.len() ==> phase(#[trigger] log[i]) == -1 || low <= phase(log[i]) <= high
    &&& forall|i: int, j: int|
        0 <= i < j < log.len() && phase(log[i]) >= 0 && phase(log[j]) >= 0 ==> phase(
            #[trigger] log[i],
        ) <= phase(#[trigger] log[j])
}

proof fn phases_join<Sym>(a: Seq<Event<Sym>>, b: Seq<Event<Sym>>, low: int, mid: int, more: int, high: int)
    requires
        in_phases(a, low, mid),
        in_phases(b, more, high),
        low <= more,
        mid <= more,
        mid <= high,
    ensures
        in_phases(a + b, low, high),
{
    let c = a + b;
    assert forall|i: int| 0 <= i < c.len() implies phase(#[trigger] c[i]) == -1 || low <= phase(
        c[i],
    ) <= high by {
        if i < a.len() {
            assert(c[i] == a[i]);
        } else {
            assert(c[i] == b[i - a.len()]);
        }
    }
    assert forall|i: int, j: int|
        0 <= i < j < c.len() && phase(c[i]) >= 0 && phase(c[j]) >= 0 implies phase(#[trigger] c[i])
        <= phase(#[trigger] c[j]) by {
        if j < a.len() {
            assert(c[i] == a[i] && c[j] == a[j]);
        } else if i >= a.len() {
            assert(c[i] == b[i - a.len()] && c[j] == b[j - a.len()]);
        } else {
            assert(c[i] == a[i] && c[j] == b[j - a.len()]);
        }
    }
}

proof fn phases_of_shown<Sym>(entries: Seq<Entry<Sym>>)
    ensures
        in_phases(shown(entries), 0, 0),
    decreases entries.len(),
{
    if entries.len() > 0 {
        phases_of_shown(entries.drop_last());
        if let Some(s) = entries.last().symbol {
            let e = Event::Observe(s, entries.last().atom);
            assert(in_phases(seq![e], 0, 0));
            phases_join(shown(entries.drop_last()), seq![e], 0, 0, 0, 0);
            assert(shown(entries.drop_last()) + seq![e] =~= shown(entries));
        }
    }
}

proof fn phases_of_feed<Sym>(
    snapshot: Snapshot<Sym>,
    filled: Seq<Order<Sym>>,
    refused: Seq<Rejection<Sym>>,
    polled: Seq<Order<Sym>>,
)
    ensures
        in_phases(feed_events(snapshot, filled, refused, polled), 0, 3),
{
    let entries = snapshot.entries@;
    phases_of_shown(entries);
    let advance = seq![Event::Advance(priced(entries), filled)];
    assert(in_phases(advance, 1, 1));
    phases_join(shown(entries), advance, 0, 0, 1, 1);
    let log = shown(entries) + advance;
    assert(log =~= shown(entries).push(advance[0]));
    assert(in_phases(told(filled), 1, 1));
    phases_join(log, told(filled), 0, 1, 1, 1);
    let log = log + told(filled);
    assert(in_phases(drained(refused), 1, 1));
    phases_join(log, drained(refused), 0, 1, 1, 1);
    let log = log + drained(refused);
    let poll = seq![Event::<Sym>::Poll(polled)];
    assert(in_phases(poll, 2, 2));
    phases_join(log, poll, 0, 1, 2, 2);
    let log = log + poll;
    assert(in_phases(told(polled), 2, 2));
    phases_join(log, told(polled), 0, 2, 2, 2);
    let log = log + told(polled);
    assert(in_phases(seq![Event::Update(snapshot)], 3, 3));
    phases_join(log, seq![Event::Update(snapshot)], 0, 2, 3, 3);
}

proof fn phases_of_rest<Sym>(
    o: BarOutcome<Sym>,
    force: Option<Seq<Sym>>,
    trading: Seq<Event<Sym>>,
    closing: Seq<Event<Sym>>,
)
    requires
        trading == trade_events(o, force) || trading.len() == 0,
        closing == flatten_events(o.flattened, o.flatten_refused) || closing.len() == 0,
    ensures
        in_phases(trading + seq![Event::Equity(o.equity)] + closing, 4, 6),
{
    assert(in_phases(drained(o.trade_refused), 4, 4));
    if o.ready {
        let head = match force {
            Some(hold) => seq![
                Event::Ready(true),
                Event::Force(Some(hold)),
                Event::Trade,
                Event::Force(None),
            ],
            None => seq![Event::Ready(true), Event::Trade],
        };
        assert(in_phases(head, 4, 4));
        phases_join(head, drained(o.trade_refused), 4, 4, 4, 4);
    }
    assert(in_phases(trading, 4, 4));
    let equity = seq![Event::<Sym>::Equity(o.equity)];
    assert(in_phases(equity, 5, 5));
    phases_join(trading, equity, 4, 4, 5, 5);
    let flat = seq![Event::<Sym>::Flatten(o.flattened)];
    assert(in_phases(flat, 6, 6));
    assert(in_phases(told(o.flattened), 6, 6));
    phases_join(flat, told(o.flattened), 6, 6, 6, 6);
    assert(in_phases(drained(o.flatten_refused), 6, 6));
    phases_join(flat + told(o.flattened), drained(o.flatten_refused), 6, 6, 6, 6);
    assert(in_phases(closing, 6, 6));
    phases_join(trading + equity, closing, 4, 5, 6, 6);
}

/// The account is fed the prices of exactly the bars that have a symbol and prices,
/// under their symbols and in their order.
pub proof fn every_priced_bar_is_fed<Sym>(entries: Seq<Entry<Sym>>)
    ensures
        priced(entries) == entries.filter(
            |e: Entry<Sym>| e.symbol is Some && e.atom.candle is Some,
        ).map_values(|e: Entry<Sym>| (e.symbol->0, e.atom.candle->0)),
    decreases entries.len(),
{
    reveal(Seq::filter);
    let keep = |e: Entry<Sym>| e.symbol is Some && e.atom.candle is Some;
    let pair = |e: Entry<Sym>| (e.symbol->0, e.atom.candle->0);
    if entries.len() > 0 {
        every_priced_bar_is_fed(entries.drop_last());
        if keep(entries.last()) {
            assert(entries.filter(keep) == entries.drop_last().filter(keep).push(entries.last()));
        }
    }
    assert(priced(entries) =~= entries.filter(keep).map_values(pair));
}

/// The account is shown exactly the bars that have a symbol, in their order.
pub proof fn every_named_bar_is_shown<Sym>(entries: Seq<Entry<Sym>>)
    ensures
        shown(entries) == entries.filter(|e: Entry<Sym>| e.symbol is Some).map_values(
            |e: Entry<Sym>| Event::Observe(e.symbol->0, e.atom),
        ),
    decreases entries.len(),
{
    reveal(Seq::filter);
    let keep = |e: Entry<Sym>| e.symbol is Some;
    let show = |e: Entry<Sym>| Event::Observe(e.symbol->0, e.atom);
    if entries.len() > 0 {
        every_named_bar_is_shown(entries.drop_last());
        if keep(entries.last()) {
            assert(entries.filter(keep) == entries.drop_last().filter(keep).push(entries.last()));
        }
    }
    assert(shown(entries) =~= entries.filter(keep).map_values(show));
}

/// The count of fills that were cut is the number of those that say so, and the worst
/// ratio is that of one of them and above that of none.
pub proof fn the_worst_cut_is_one_of_them<Sym>(fills: Seq<Fill<Sym>>)
    ensures
        fitted(fills).0 == fills.filter(|f: Fill<Sym>| f.order.materially_fitted).len(),
        !fitted(fills).1.nan(),
        forall|i: int|
            0 <= i < fills.len() && (#[trigger] fills[i]).order.materially_fitted ==> !fills[i].order.fill_ratio.below(
                fitted(fills).1,
            ),
        fitted(fills).1 == (Real { bits: crate::number::INFINITE }) || exists|i: int|
            0 <= i < fills.len() && (#[trigger] fills[i]).order.materially_fitted
                && fills[i].order.fill_ratio == fitted(fills).1,
    decreases fills.len(),
{
    reveal(Seq::filter);
    assert(!(Real { bits: crate::number::INFINITE }).nan());
    if fills.len() > 0 {
        let less = fills.drop_last();
        the_worst_cut_is_one_of_them(less);
        let last = fills.last().order;
        let (n, worst) = fitted(less);
        let now = fitted(fills).1;
        assert forall|i: int|
            0 <= i < fills.len() && (#[trigger] fills[i]).order.materially_fitted implies !fills[i].order.fill_ratio.below(
            now) by {
            if i < less.len() {
                assert(less[i] == fills[i]);
            }
        }
        if now == worst && worst != (Real { bits: crate::number::INFINITE }) {
            let i = choose|i: int|
                0 <= i < less.len() && (#[trigger] less[i]).order.materially_fitted
                    && less[i].order.fill_ratio == worst;
            assert(fills[i] == less[i]);
        } else if now != worst {
            assert(fills[fills.len() - 1].order.fill_ratio == now);
        }
    }
}

// ---------------------------------------------------------------------------
// Equal runs
// ---------------------------------------------------------------------------

/// Whether two events are the same call: they differ at most in what it returned.
pub open spec fn same_call<Sym>(a: Event<Sym>, b: Event<Sym>) -> bool {
    match (a, b) {
        (Event::Equity(_), Event::Equity(_)) => true,
        (Event::Advance(p, _), Event::Advance(q, _)) => p == q,
        (Event::Refusals(_), Event::Refusals(_)) => true,
        (Event::Poll(_), Event::Poll(_)) => true,
        (Event::Flatten(_), Event::Flatten(_)) => true,
        (Event::Settle(x, t, _), Event::Settle(y, u, _)) => x == y && t == u,
        (Event::Coverage(_), Event::Coverage(_)) => true,
        (Event::Ready(_), Event::Ready(_)) => true,
        (Event::Parts(_), Event::Parts(_)) => true,
        _ => a == b,
    }
}

/// Whether a state and a call decide what the call returns and the state after it,
/// for the strategy, for the account, and for the strategy's trading on it.
pub open spec fn is_functional<Sym, S: Strategy<Sym>, W: Wallet<Sym>>() -> bool {
    &&& forall|pre: S, a: Event<Sym>, x: S, b: Event<Sym>, y: S| #[trigger]
        S::does(pre, a, x) && #[trigger] S::does(pre, b, y) && same_call(a, b) ==> a == b && x == y
    &&& forall|pre: W, a: Event<Sym>, x: W, b: Event<Sym>, y: W| #[trigger]
        W::does(pre, a, x) && #[trigger] W::does(pre, b, y) && same_call(a, b) ==> a == b && x == y
    &&& forall|s: S, pre: W, x: W, y: W| #[trigger]
        S::trades(s, pre, x) && #[trigger] S::trades(s, pre, y) ==> x == y
}

/// Two reports that say the same.
pub open spec fn same_report<Sym>(a: RunReport<Sym>, b: RunReport<Sym>) -> bool {
    &&& a.equity_curve@ == b.equity_curve@
    &&& a.fills@ == b.fills@
    &&& a.rejections@ == b.rejections@
    &&& a.initial_equity == b.initial_equity
    &&& a.ruin_bar == b.ruin_bar
    &&& a.carry_coverage == b.carry_coverage
    &&& match (a.attribution, b.attribution) {
        (None, None) => true,
        (Some(x), Some(y)) => x.names == y.names && x.fills == y.fills && attribution::rows(
            x.equity@,
        ) == attribution::rows(y.equity@),
        _ => false,
    }
}

proof fn leads_splits<Sym, S: Strategy<Sym>, W: Wallet<Sym>>(
    log: Seq<Event<Sym>>,
    more: Seq<Event<Sym>>,
    pre: (S, W),
    post: (S, W),
) -> (mid: (S, W))
    requires
        leads(log + more, pre, post),
    ensures
        leads(log, pre, mid),
        leads(more, mid, post),
    decreases more.len(),
{
    if more.len() == 0 {
        assert(log + more =~= log);
        reveal(leads);
        post
    } else {
        let near = {
            reveal(leads);
            choose|near: (S, W)|
                leads((log + more).drop_last(), pre, near) && #[trigger] happens(
                    near,
                    (log + more).last(),
                    post,
                )
        };
        assert(leads((log + more).drop_last(), pre, near) && happens(
            near,
            (log + more).last(),
            post,
        )) by {
            reveal(leads);
        }
        assert((log + more).drop_last() =~= log + more.drop_last());
        let mid = leads_splits(log, more.drop_last(), pre, near);
        leads_one(more.drop_last(), mid, near, more.last(), post);
        assert(more.drop_last().push(more.last()) =~= more);
        mid
    }
}

/// After the same call from the same state, two logs go on from the same state.
proof fn step_is_decided<Sym, S: Strategy<Sym>, W: Wallet<Sym>>(
    a: Event<Sym>,
    b: Event<Sym>,
    more: Seq<Event<Sym>>,
    rest: Seq<Event<Sym>>,
    pre: (S, W),
    x: (S, W),
    y: (S, W),
) -> (mid: (S, W))
    requires
        is_functional::<Sym, S, W>(),
        same_call(a, b),
        leads(seq![a] + more, pre, x),
        leads(seq![b] + rest, pre, y),
    ensures
        a == b,
        leads(more, mid, x),
        leads(rest, mid, y),
{
    let m = leads_splits(seq![a], more, pre, x);
    let n = leads_splits(seq![b], rest, pre, y);
    assert(happens(pre, a, m)) by {
        reveal_with_fuel(leads, 2);
        assert(seq![a].drop_last() =~= Seq::<Event<Sym>>::empty());
    }
    assert(happens(pre, b, n)) by {
        reveal_with_fuel(leads, 2);
        assert(seq![b].drop_last() =~= Seq::<Event<Sym>>::empty());
    }
    assert(a == b && m == n);
    m
}

/// After the same calls with the same results, two logs go on from the same state.
proof fn steps_are_decided<Sym, S: Strategy<Sym>, W: Wallet<Sym>>(
    log: Seq<Event<Sym>>,
    more: Seq<Event<Sym>>,
    rest: Seq<Event<Sym>>,
    pre: (S, W),
    x: (S, W),
    y: (S, W),
) -> (mid: (S, W))
    requires
        is_functional::<Sym, S, W>(),
        leads(log + more, pre, x),
        leads(log + rest, pre, y),
    ensures
        leads(more, mid, x),
        leads(rest, mid, y),
    decreases log.len(),
{
    if log.len() == 0 {
        assert(log + more =~= more);
        assert(log + rest =~= rest);
        pre
    } else {
        let e = log[0];
        let tail = log.skip(1);
        assert(log + more =~= seq![e] + (tail + more));
        assert(log + rest =~= seq![e] + (tail + rest));
        let mid = step_is_decided(e, e, tail + more, tail + rest, pre, x, y);
        steps_are_decided(tail, more, rest, mid, x, y)
    }
}

/// What one call returns is decided, and so is what follows the telling of it.
proof fn refusals_are_decided<Sym, S: Strategy<Sym>, W: Wallet<Sym>>(
    a: Seq<Rejection<Sym>>,
    b: Seq<Rejection<Sym>>,
    more: Seq<Event<Sym>>,
    rest: Seq<Event<Sym>>,
    pre: (S, W),
    x: (S, W),
    y: (S, W),
) -> (mid: (S, W))
    requires
        is_functional::<Sym, S, W>(),
        leads(drained(a) + more, pre, x),
        leads(drained(b) + rest, pre, y),
    ensures
        a == b,
        leads(more, mid, x),
        leads(rest, mid, y),
{
    let ta = drained(a).skip(1);
    let tb = drained(b).skip(1);
    assert(drained(a) + more =~= seq![Event::Refusals(a)] + (ta + more));
    assert(drained(b) + rest =~= seq![Event::Refusals(b)] + (tb + rest));
    let mid = step_is_decided(
        Event::Refusals(a),
        Event::Refusals(b),
        ta + more,
        tb + rest,
        pre,
        x,
        y,
    );
    steps_are_decided(ta, more, rest, mid, x, y)
}

proof fn feeding_is_decided<Sym, S: Strategy<Sym>, W: Wallet<Sym>>(
    snapshot: Snapshot<Sym>,
    o: BarOutcome<Sym>,
    p: BarOutcome<Sym>,
    more: Seq<Event<Sym>>,
    rest: Seq<Event<Sym>>,
    pre: (S, W),
    x: (S, W),
    y: (S, W),
) -> (mid: (S, W))
    requires
        is_functional::<Sym, S, W>(),
        leads(feed_events(snapshot, o.filled, o.refused, o.polled) + more, pre, x),
        leads(feed_events(snapshot, p.filled, p.refused, p.polled) + rest, pre, y),
    ensures
        o.filled == p.filled,
        o.refused == p.refused,
        o.polled == p.polled,
        leads(more, mid, x),
        leads(rest, mid, y),
{
    let seen = shown(snapshot.entries@);
    let prices = priced(snapshot.entries@);
    let update = seq![Event::Update(snapshot)];
    let more5 = told(o.polled) + (update + more);
    let rest5 = told(p.polled) + (update + rest);
    let more4 = seq![Event::Poll(o.polled)] + more5;
    let rest4 = seq![Event::Poll(p.polled)] + rest5;
    let more3 = drained(o.refused) + more4;
    let rest3 = drained(p.refused) + rest4;
    let more2 = told(o.filled) + more3;
    let rest2 = told(p.filled) + rest3;
    let more1 = seq![Event::Advance(prices, o.filled)] + more2;
    let rest1 = seq![Event::Advance(prices, p.filled)] + rest2;
    assert(feed_events(snapshot, o.filled, o.refused, o.polled) + more =~= seen + more1);
    assert(feed_events(snapshot, p.filled, p.refused, p.polled) + rest =~= seen + rest1);
    let s1 = steps_are_decided(seen, more1, rest1, pre, x, y);
    let s2 = step_is_decided(
        Event::Advance(prices, o.filled),
        Event::Advance(prices, p.filled),
        more2,
        rest2,
        s1,
        x,
        y,
    );
    let s3 = steps_are_decided(told(o.filled), more3, rest3, s2, x, y);
    let s4 = refusals_are_decided(o.refused, p.refused, more4, rest4, s3, x, y);
    let s5 = step_is_decided(
        Event::Poll(o.polled),
        Event::Poll(p.polled),
        more5,
        rest5,
        s4,
        x,
        y,
    );
    let s6 = steps_are_decided(told(o.polled), update + more, update + rest, s5, x, y);
    steps_are_decided(update, more, rest, s6, x, y)
}

proof fn trading_is_decided<Sym, S: Strategy<Sym>, W: Wallet<Sym>>(
    force: Option<Seq<Sym>>,
    o: BarOutcome<Sym>,
    p: BarOutcome<Sym>,
    more: Seq<Event<Sym>>,
    rest: Seq<Event<Sym>>,
    pre: (S, W),
    x: (S, W),
    y: (S, W),
) -> (mid: (S, W))
    requires
        is_functional::<Sym, S, W>(),
        leads(trade_events(o, force) + more, pre, x),
        leads(trade_events(p, force) + rest, pre, y),
    ensures
        o.ready == p.ready,
        o.ready ==> o.trade_refused == p.trade_refused,
        leads(more, mid, x),
        leads(rest, mid, y),
{
    let to = trade_events(o, force).skip(1);
    let tp = trade_events(p, force).skip(1);
    assert(trade_events(o, force) + more =~= seq![Event::Ready(o.ready)] + (to + more));
    assert(trade_events(p, force) + rest =~= seq![Event::Ready(p.ready)] + (tp + rest));
    let s1 = step_is_decided(
        Event::Ready(o.ready),
        Event::Ready(p.ready),
        to + more,
        tp + rest,
        pre,
        x,
        y,
    );
    if o.ready {
        let act = match force {
            Some(hold) => seq![Event::Force(Some(hold)), Event::Trade, Event::Force(None)],
            None => seq![Event::<Sym>::Trade],
        };
        let more1 = drained(o.trade_refused) + more;
        let rest1 = drained(p.trade_refused) + rest;
        assert(to + more =~= act + more1);
        assert(tp + rest =~= act + rest1);
        let s2 = steps_are_decided(act, more1, rest1, s1, x, y);
        refusals_are_decided(o.trade_refused, p.trade_refused, more, rest, s2, x, y)
    } else {
        assert(to + more =~= more);
        assert(tp + rest =~= rest);
        s1
    }
}

proof fn flattening_is_decided<Sym, S: Strategy<Sym>, W: Wallet<Sym>>(
    o: BarOutcome<Sym>,
    p: BarOutcome<Sym>,
    more: Seq<Event<Sym>>,
    rest: Seq<Event<Sym>>,
    pre: (S, W),
    x: (S, W),
    y: (S, W),
) -> (mid: (S, W))
    requires
        is_functional::<Sym, S, W>(),
        leads(flatten_events(o.flattened, o.flatten_refused) + more, pre, x),
        leads(flatten_events(p.flattened, p.flatten_refused) + rest, pre, y),
    ensures
        o.flattened == p.flattened,
        o.flatten_refused == p.flatten_refused,
        leads(more, mid, x),
        leads(rest, mid, y),
{
    let more2 = drained(o.flatten_refused) + more;
    let rest2 = drained(p.flatten_refused) + rest;
    let more1 = told(o.flattened) + more2;
    let rest1 = told(p.flattened) + rest2;
    assert(flatten_events(o.flattened, o.flatten_refused) + more =~= seq![
        Event::Flatten(o.flattened),
    ] + more1);
    assert(flatten_events(p.flattened, p.flatten_refused) + rest =~= seq![
        Event::Flatten(p.flattened),
    ] + rest1);
    let s1 = step_is_decided(
        Event::Flatten(o.flattened),
        Event::Flatten(p.flattened),
        more1,
        rest1,
        pre,
        x,
        y,
    );
    let s2 = steps_are_decided(told(o.flattened), more2, rest2, s1, x, y);
    refusals_are_decided(o.flatten_refused, p.flatten_refused, more, rest, s2, x, y)
}

/// Whether two outcomes of a bar agree in all that was asked for.
pub open spec fn agree<Sym>(
    o: BarOutcome<Sym>,
    p: BarOutcome<Sym>,
    mode: DriveMode,
    ruined: bool,
) -> bool {
    &&& o.filled == p.filled
    &&& o.refused == p.refused
    &&& o.polled == p.polled
    &&& o.equity == p.equity
    &&& mode == DriveMode::Trade && !ruined ==> o.ready == p.ready && (o.ready ==> o.trade_refused
        == p.trade_refused)
    &&& ruins(o, mode, ruined) ==> o.flattened == p.flattened && o.flatten_refused
        == p.flatten_refused
}

proof fn bar_is_decided<Sym, S: Strategy<Sym>, W: Wallet<Sym>>(
    snapshot: Snapshot<Sym>,
    mode: DriveMode,
    force: Option<Seq<Sym>>,
    ruined: bool,
    o: BarOutcome<Sym>,
    p: BarOutcome<Sym>,
    more: Seq<Event<Sym>>,
    rest: Seq<Event<Sym>>,
    pre: (S, W),
    x: (S, W),
    y: (S, W),
) -> (mid: (S, W))
    requires
        is_functional::<Sym, S, W>(),
        leads(bar_events(snapshot, mode, force, ruined, o) + more, pre, x),
        leads(bar_events(snapshot, mode, force, ruined, p) + rest, pre, y),
    ensures
        agree(o, p, mode, ruined),
        leads(more, mid, x),
        leads(rest, mid, y),
{
    let feed_o = feed_events(snapshot, o.filled, o.refused, o.polled);
    let feed_p = feed_events(snapshot, p.filled, p.refused, p.polled);
    let trades = mode == DriveMode::Trade && !ruined;
    let more2 = (if ruins(o, mode, ruined) {
        flatten_events(o.flattened, o.flatten_refused)
    } else {
        seq![]
    }) + more;
    let rest2 = (if ruins(p, mode, ruined) {
        flatten_events(p.flattened, p.flatten_refused)
    } else {
        seq![]
    }) + rest;
    let more1 = seq![Event::Equity(o.equity)] + more2;
    let rest1 = seq![Event::Equity(p.equity)] + rest2;
    let more0 = (if trades {
        trade_events(o, force)
    } else {
        seq![]
    }) + more1;
    let rest0 = (if trades {
        trade_events(p, force)
    } else {
        seq![]
    }) + rest1;
    assert(bar_events(snapshot, mode, force, ruined, o) + more =~= feed_o + more0);
    assert(bar_events(snapshot, mode, force, ruined, p) + rest =~= feed_p + rest0);
    let s0 = feeding_is_decided(snapshot, o, p, more0, rest0, pre, x, y);
    let s1 = if trades {
        trading_is_decided(force, o, p, more1, rest1, s0, x, y)
    } else {
        assert(more0 =~= more1);
        assert(rest0 =~= rest1);
        s0
    };
    let s2 = step_is_decided(
        Event::Equity(o.equity),
        Event::Equity(p.equity),
        more2,
        rest2,
        s1,
        x,
        y,
    );
    if ruins(o, mode, ruined) {
        flattening_is_decided(o, p, more, rest, s2, x, y)
    } else {
        assert(more2 =~= more);
        assert(rest2 =~= rest);
        s2
    }
}

/// Whether two series of outcomes say the same to a report.
pub open spec fn say_the_same<Sym>(
    outs: Seq<BarOutcome<Sym>>,
    others: Seq<BarOutcome<Sym>>,
    mode: DriveMode,
) -> bool {
    &&& outs.len() == others.len()
    &&& all_fills(outs, mode) == all_fills(others, mode)
    &&& all_refusals(outs, mode) == all_refusals(others, mode)
    &&& ruin_of(outs, mode) == ruin_of(others, mode)
    &&& forall|i: int| 0 <= i < outs.len() ==> (#[trigger] outs[i]).equity == others[i].equity
}

proof fn bars_are_decided<Sym, S: Strategy<Sym>, W: Wallet<Sym>>(
    snapshots: Seq<Snapshot<Sym>>,
    mode: DriveMode,
    force: Option<(usize, Seq<Sym>)>,
    outs: Seq<BarOutcome<Sym>>,
    others: Seq<BarOutcome<Sym>>,
    more: Seq<Event<Sym>>,
    rest: Seq<Event<Sym>>,
    pre: (S, W),
    x: (S, W),
    y: (S, W),
) -> (mid: (S, W))
    requires
        is_functional::<Sym, S, W>(),
        outs.len() == others.len(),
        leads(all_events(snapshots, mode, force, outs) + more, pre, x),
        leads(all_events(snapshots, mode, force, others) + rest, pre, y),
    ensures
        say_the_same(outs, others, mode),
        leads(more, mid, x),
        leads(rest, mid, y),
    decreases outs.len(),
{
    if outs.len() == 0 {
        assert(all_events(snapshots, mode, force, outs) + more =~= more);
        assert(all_events(snapshots, mode, force, others) + rest =~= rest);
        pre
    } else {
        let n = outs.len() - 1;
        let (a, b) = (outs.drop_last(), others.drop_last());
        let bar_a = bar_events(
            snapshots[n],
            mode,
            force_at(force, n),
            ruin_of(a, mode) is Some,
            outs.last(),
        );
        let bar_b = bar_events(
            snapshots[n],
            mode,
            force_at(force, n),
            ruin_of(b, mode) is Some,
            others.last(),
        );
        assert(all_events(snapshots, mode, force, outs) + more =~= all_events(
            snapshots,
            mode,
            force,
            a,
        ) + (bar_a + more));
        assert(all_events(snapshots, mode, force, others) + rest =~= all_events(
            snapshots,
            mode,
            force,
            b,
        ) + (bar_b + rest));
        let s1 = bars_are_decided(
            snapshots,
            mode,
            force,
            a,
            b,
            bar_a + more,
            bar_b + rest,
            pre,
            x,
            y,
        );
        let mid = bar_is_decided(
            snapshots[n],
            mode,
            force_at(force, n),
            ruin_of(a, mode) is Some,
            outs.last(),
            others.last(),
            more,
            rest,
            s1,
            x,
            y,
        );
        assert forall|i: int| 0 <= i < outs.len() implies (#[trigger] outs[i]).equity
            == others[i].equity by {
            if i < n {
                assert(a[i] == outs[i] && b[i] == others[i]);
            }
        }
        mid
    }
}

/// Where a state and a call decide what comes of it, two runs from equal states over
/// equal bars end in equal states, and their reports say the same.
pub proof fn equal_runs_report_the_same<Sym, S: Strategy<Sym>, W: Wallet<Sym>>(
    pre: (S, W),
    snapshots: Seq<Snapshot<Sym>>,
    mode: DriveMode,
    force: Option<(usize, Seq<Sym>)>,
    post: (S, W),
    report: RunReport<Sym>,
    other_post: (S, W),
    other: RunReport<Sym>,
)
    requires
        is_functional::<Sym, S, W>(),
        drives(pre, snapshots, mode, force, post, report),
        drives(pre, snapshots, mode, force, other_post, other),
    ensures
        post == other_post,
        same_report(report, other),
{
    let a = choose|trace: RunTrace<Sym>|
        trace.outs.len() == snapshots.len() && #[trigger] reports(report, mode, trace) && leads(
            run_events(snapshots, mode, force, trace),
            pre,
            post,
        );
    let b = choose|trace: RunTrace<Sym>|
        trace.outs.len() == snapshots.len() && #[trigger] reports(other, mode, trace) && leads(
            run_events(snapshots, mode, force, trace),
            pre,
            other_post,
        );
    let none = Seq::<Event<Sym>>::empty();
    let more3 = seq![Event::Coverage(a.coverage)] + none;
    let rest3 = seq![Event::Coverage(b.coverage)] + none;
    let more2 = seq![Event::Parts(a.parts)] + more3;
    let rest2 = seq![Event::Parts(b.parts)] + rest3;
    let more1 = all_events(snapshots, mode, force, a.outs) + more2;
    let rest1 = all_events(snapshots, mode, force, b.outs) + rest2;
    assert(run_events(snapshots, mode, force, a) =~= seq![Event::Equity(a.initial)] + more1);
    assert(run_events(snapshots, mode, force, b) =~= seq![Event::Equity(b.initial)] + rest1);
    let s1 = step_is_decided(
        Event::Equity(a.initial),
        Event::Equity(b.initial),
        more1,
        rest1,
        pre,
        post,
        other_post,
    );
    let s2 = bars_are_decided(
        snapshots,
        mode,
        force,
        a.outs,
        b.outs,
        more2,
        rest2,
        s1,
        post,
        other_post,
    );
    let s3 = step_is_decided(
        Event::Parts(a.parts),
        Event::Parts(b.parts),
        more3,
        rest3,
        s2,
        post,
        other_post,
    );
    let s4 = step_is_decided(
        Event::Coverage(a.coverage),
        Event::Coverage(b.coverage),
        none,
        none,
        s3,
        post,
        other_post,
    );
    assert(post == s4 && other_post == s4) by {
        reveal(leads);
    }
    assert(curve_of(a.outs, mode) =~= curve_of(b.outs, mode));
}

/// Runs in parallel report what single runs on equal copies of their pairs report,
/// each in its pair's place, and leave the pairs as those leave the copies.
pub proof fn parallel_runs_match_single_runs<Sym, S: Strategy<Sym>, W: Wallet<Sym>>(
    runs: Seq<(S, W)>,
    snapshots: Seq<Snapshot<Sym>>,
    ends: Seq<(S, W)>,
    parallel: Seq<RunReport<Sym>>,
    i: int,
    post: (S, W),
    report: RunReport<Sym>,
)
    requires
        is_functional::<Sym, S, W>(),
        0 <= i < runs.len(),
        forall|k: int|
            0 <= k < runs.len() ==> drives(
                #[trigger] runs[k],
                snapshots,
                DriveMode::Trade,
                None,
                ends[k],
                parallel[k],
            ),
        drives(runs[i], snapshots, DriveMode::Trade, None, post, report),
    ensures
        ends[i] == post,
        same_report(parallel[i], report),
{
    equal_runs_report_the_same(
        runs[i],
        snapshots,
        DriveMode::Trade,
        None,
        ends[i],
        parallel[i],
        post,
        report,
    );
}

} // verus!
