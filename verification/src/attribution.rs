//! What each part of a composite strategy contributed to a run.

use vstd::prelude::*;

use crate::number::Real;
use crate::orders::Order;

verus! {

/// One part's share of a booked movement.
#[derive(Clone, Debug, PartialEq, Eq)]
pub struct ChildFill<Sym> {
    /// The part, by its position.
    pub child: usize,
    /// The bar of the movement.
    pub bar: usize,
    /// The part's own units at its own price.
    pub order: Order<Sym>,
    /// Whether the movement was booked against another part, so that the account
    /// has no fill for it.
    pub crossed: bool,
}

/// The parts of one run.
#[derive(Clone, Debug, PartialEq, Eq)]
pub struct Attribution<Sym> {
    pub names: Vec<String>,
    pub fills: Vec<ChildFill<Sym>>,
    /// The equity of each part at each bar.
    pub equity: Vec<Vec<Real>>,
}

/// The rows of an equity table, as values.
pub open spec fn rows(equity: Seq<Vec<Real>>) -> Seq<Seq<Real>> {
    Seq::new(equity.len(), |i: int| equity[i]@)
}

/// The table with every row from `bar` on at zero.
pub open spec fn pinned(table: Seq<Seq<Real>>, bar: int) -> Seq<Seq<Real>> {
    Seq::new(
        table.len(),
        |i: int|
            if i >= bar {
                Seq::new(table[i].len(), |j: int| Real { bits: 0 })
            } else {
                table[i]
            },
    )
}

impl<Sym> Attribution<Sym> {
    /// The parts with these names, movements and equity rows.
    pub fn new(names: Vec<String>, fills: Vec<ChildFill<Sym>>, equity: Vec<Vec<Real>>) -> (out:
        Attribution<Sym>)
        ensures
            out == (Attribution { names, fills, equity }),
    {
        Attribution { names, fills, equity }
    }

    /// Pin every row from `bar` on to zero.
    pub fn pin_from(&mut self, bar: usize)
        ensures
            final(self).names == old(self).names,
            final(self).fills == old(self).fills,
            rows(final(self).equity@) == pinned(rows(old(self).equity@), bar as int),
    {
        let ghost table = rows(self.equity@);
        let mut equity: Vec<Vec<Real>> = Vec::new();
        let n: usize = self.equity.len();
        for i in 0..n
            invariant
                n == self.equity@.len(),
                table == rows(self.equity@),
                equity@.len() == i,
                forall|k: int| 0 <= k < i ==> (#[trigger] equity@[k])@ == pinned(table, bar as int)[k],
        {
            let row: &Vec<Real> = &self.equity[i];
            let m: usize = row.len();
            let mut fresh: Vec<Real> = Vec::new();
            for j in 0..m
                invariant
                    m == row@.len(),
                    fresh@.len() == j,
                    forall|k: int|
                        0 <= k < j ==> #[trigger] fresh@[k] == (if i >= bar {
                            Real { bits: 0 }
                        } else {
                            row@[k]
                        }),
            {
                if i >= bar {
                    fresh.push(Real::zero());
                } else {
                    fresh.push(row[j]);
                }
            }
            assert(fresh@ =~= pinned(table, bar as int)[i as int]);
            equity.push(fresh);
        }
        self.equity = equity;
        assert(rows(self.equity@) =~= pinned(table, bar as int));
    }

    /// The names of the parts, by position.
    pub fn names(&self) -> (out: &[String])
        ensures
            out@ == self.names@,
    {
        self.names.as_slice()
    }

    /// How many parts there are.
    pub fn child_count(&self) -> (out: usize)
        ensures
            out == self.names@.len(),
    {
        self.names.len()
    }

    /// Every movement of a part, in the order they were booked.
    pub fn fills(&self) -> (out: &[ChildFill<Sym>])
        ensures
            out@ == self.fills@,
    {
        self.fills.as_slice()
    }

    /// The equity of each part at each bar.
    pub fn equity(&self) -> (out: &[Vec<Real>])
        ensures
            out@ == self.equity@,
    {
        self.equity.as_slice()
    }

    /// The equity of one part over the run.
    pub fn child_equity(&self, idx: usize) -> (out: Vec<Real>)
        requires
            idx < self.names@.len(),
            forall|i: int| 0 <= i < self.equity@.len() ==> idx < (#[trigger] self.equity@[i])@.len(),
        ensures
            out@ == Seq::new(self.equity@.len(), |i: int| self.equity@[i]@[idx as int]),
    {
        let mut out: Vec<Real> = Vec::new();
        let n: usize = self.equity.len();
        for i in 0..n
            invariant
                n == self.equity@.len(),
                forall|k: int| 0 <= k < n ==> idx < (#[trigger] self.equity@[k])@.len(),
                out@.len() == i,
                forall|k: int| 0 <= k < i ==> #[trigger] out@[k] == self.equity@[k]@[idx as int],
        {
            assert(idx < self.equity@[i as int]@.len());
            out.push(self.equity[i][idx]);
        }
        assert(out@ =~= Seq::new(self.equity@.len(), |i: int| self.equity@[i]@[idx as int]));
        out
    }
}

/// Pinning keeps the shape of the table, and pinning again changes nothing.
pub proof fn pinning_is_stable(table: Seq<Seq<Real>>, bar: int)
    ensures
        pinned(table, bar).len() == table.len(),
        forall|i: int|
            0 <= i < table.len() ==> (#[trigger] pinned(table, bar)[i]).len() == table[i].len(),
        pinned(pinned(table, bar), bar) == pinned(table, bar),
{
    let once = pinned(table, bar);
    let twice = pinned(once, bar);
    assert forall|i: int| 0 <= i < table.len() implies twice[i] == once[i] by {
        assert(twice[i] =~= once[i]);
    }
    assert(twice =~= once);
}

} // verus!
