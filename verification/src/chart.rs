//! What a chart of an equity curve shows: its range and its ticks.

use vstd::prelude::*;

use crate::number::Real;

verus! {

/// The lowest of a start and a curve, from the front on.
pub open spec fn lowest(start: Real, curve: Seq<Real>) -> Real
    decreases curve.len(),
{
    if curve.len() == 0 {
        start
    } else {
        lowest(start, curve.drop_last()).lesser(curve.last())
    }
}

/// The highest of a start and a curve, from the front on.
pub open spec fn highest(start: Real, curve: Seq<Real>) -> Real
    decreases curve.len(),
{
    if curve.len() == 0 {
        start
    } else {
        highest(start, curve.drop_last()).greater(curve.last())
    }
}

/// The lowest and the highest value that the chart shows: those of the curve and
/// of the cash that the run started with.
pub fn value_range(curve: &[Real], starting_cash: Real) -> (out: (Real, Real))
    ensures
        out.0 == lowest(starting_cash, curve@),
        out.1 == highest(starting_cash, curve@),
{
    let mut lo: Real = starting_cash;
    let mut hi: Real = starting_cash;
    let n: usize = curve.len();
    assert(curve@.take(0) =~= Seq::<Real>::empty());
    for i in 0..n
        invariant
            n == curve@.len(),
            lo == lowest(starting_cash, curve@.take(i as int)),
            hi == highest(starting_cash, curve@.take(i as int)),
    {
        assert(curve@.take(i + 1).drop_last() =~= curve@.take(i as int));
        lo = lo.min(curve[i]);
        hi = hi.max(curve[i]);
    }
    assert(curve@.take(n as int) =~= curve@);
    (lo, hi)
}

/// Whether a bar has a tick: the first, the last, and those at a quarter, a half
/// and three quarters.
pub open spec fn has_tick(n: int, bar: int) -> bool {
    bar == 0 || bar == n / 4 || bar == n / 2 || bar == (3 * n) / 4 || bar == n - 1
}

/// The bars that have a tick, ascending.
pub fn tick_positions(n: usize) -> (out: Vec<usize>)
    requires
        0 < n,
        3 * n <= usize::MAX,
    ensures
        forall|i: int, j: int| 0 <= i < j < out@.len() ==> out@[i] < out@[j],
        forall|i: int| 0 <= i < out@.len() ==> out@[i] < n && has_tick(n as int, out@[i] as int),
        forall|bar: usize| has_tick(n as int, bar as int) ==> out@.contains(bar),
{
    let mut out: Vec<usize> = Vec::new();
    out.push(0);
    let ghost zero = out@;
    assert(zero[0] == 0);
    push_later(&mut out, n / 4, n);
    push_later(&mut out, n / 2, n);
    push_later(&mut out, (3 * n) / 4, n);
    push_later(&mut out, n - 1, n);
    out
}

/// Append a bar to ascending ones, unless it is the last of them.
fn push_later(out: &mut Vec<usize>, bar: usize, n: usize)
    requires
        old(out)@.len() > 0,
        old(out)@.last() <= bar,
        bar < n,
        has_tick(n as int, bar as int),
        forall|i: int, j: int| 0 <= i < j < old(out)@.len() ==> old(out)@[i] < old(out)@[j],
        forall|i: int|
            0 <= i < old(out)@.len() ==> old(out)@[i] < n && has_tick(
                n as int,
                old(out)@[i] as int,
            ),
    ensures
        final(out)@.len() > 0,
        final(out)@.last() == bar,
        forall|i: int, j: int| 0 <= i < j < final(out)@.len() ==> final(out)@[i] < final(out)@[j],
        forall|i: int|
            0 <= i < final(out)@.len() ==> final(out)@[i] < n && has_tick(
                n as int,
                final(out)@[i] as int,
            ),
        forall|b: usize| old(out)@.contains(b) ==> final(out)@.contains(b),
        final(out)@.contains(bar),
{
    let ghost was = out@;
    let k: usize = out.len();
    if out[k - 1] != bar {
        out.push(bar);
        proof {
            assert(out@.last() == bar);
            assert(out@[k as int] == bar);
            assert forall|b: usize| was.contains(b) implies out@.contains(b) by {
                let i = choose|i: int| 0 <= i < was.len() && was[i] == b;
                assert(out@[i] == b);
            }
        }
    } else {
        assert(out@[k - 1] == bar);
    }
}

/// The bar whose time labels a place on the axis: the place itself, at most the
/// last bar.
pub fn label_index(place: usize, n: usize) -> (out: usize)
    ensures
        out == (if n == 0 {
            0
        } else if place < n {
            place as int
        } else {
            n - 1
        }),
{
    if n == 0 {
        0
    } else if place < n {
        place
    } else {
        n - 1
    }
}

/// The range covers the start and every point of the curve that is a number.
pub proof fn range_covers_the_curve(start: Real, curve: Seq<Real>, i: int)
    requires
        0 <= i < curve.len(),
        !start.nan(),
        !curve[i].nan(),
    ensures
        !curve[i].below(lowest(start, curve)),
        !highest(start, curve).below(curve[i]),
        !start.below(lowest(start, curve)),
        !highest(start, curve).below(start),
        !lowest(start, curve).nan(),
        !highest(start, curve).nan(),
    decreases curve.len(),
{
    bounds_of_start(start, curve);
    bounds_of_start(start, curve.drop_last());
    if i < curve.len() - 1 {
        range_covers_the_curve(start, curve.drop_last(), i);
    }
}

proof fn bounds_of_start(start: Real, curve: Seq<Real>)
    requires
        !start.nan(),
    ensures
        !lowest(start, curve).nan(),
        !highest(start, curve).nan(),
        !start.below(lowest(start, curve)),
        !highest(start, curve).below(start),
    decreases curve.len(),
{
    if curve.len() > 0 {
        bounds_of_start(start, curve.drop_last());
    }
}

/// The lowest and the highest point are points of the curve, or its start.
pub proof fn the_limits_are_points(start: Real, curve: Seq<Real>)
    ensures
        lowest(start, curve) == start || curve.contains(lowest(start, curve)),
        highest(start, curve) == start || curve.contains(highest(start, curve)),
    decreases curve.len(),
{
    if curve.len() > 0 {
        let less = curve.drop_last();
        the_limits_are_points(start, less);
        let n = less.len() as int;
        assert(curve[n] == curve.last());
        let low = lowest(start, curve);
        let high = highest(start, curve);
        if low != curve.last() && low != start {
            let k = choose|k: int| 0 <= k < less.len() && less[k] == low;
            assert(curve[k] == low);
        }
        if high != curve.last() && high != start {
            let k = choose|k: int| 0 <= k < less.len() && less[k] == high;
            assert(curve[k] == high);
        }
    }
}

/// The first and the last bar have ticks, those between them stand at the quarters, and
/// every tick is on a bar.
pub proof fn ticks_stand_at_the_quarters(n: int, bar: int)
    requires
        n > 0,
    ensures
        has_tick(n, 0),
        has_tick(n, n - 1),
        has_tick(n, bar) ==> 0 <= bar < n,
        has_tick(n, bar) && bar != 0 && bar != n - 1 ==> 4 * bar <= n < 4 * bar + 4 || 2 * bar <= n
            < 2 * bar + 2 || 4 * bar <= 3 * n < 4 * bar + 4,
        4 * bar <= n < 4 * bar + 4 || 2 * bar <= n < 2 * bar + 2 || 4 * bar <= 3 * n < 4 * bar + 4
            ==> has_tick(n, bar),
{
}

} // verus!
