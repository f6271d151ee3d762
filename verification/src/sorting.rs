//! Putting things in the order of their keys, and keeping things with one key in
//! the order they came in.

use vstd::prelude::*;

use crate::frequency::Frequency;
use crate::ordmap::Key;
use crate::text;

verus! {

/// Whether `places` says where each of the sorted items came from: each place of
/// the `n` items once.
pub open spec fn is_arrangement(places: Seq<int>, n: int) -> bool {
    &&& places.len() == n
    &&& forall|i: int| 0 <= i < n ==> 0 <= #[trigger] places[i] < n
    &&& forall|i: int, j: int| 0 <= i < j < n ==> #[trigger] places[i] != #[trigger] places[j]
}

/// Whether `sorted` holds the items in the order of their keys, those with one key
/// in the order they came in. `places` says where each of them came from.
pub open spec fn stably_sorted<K: Key, T>(
    items: Seq<(K, T)>,
    sorted: Seq<(K, T)>,
    places: Seq<int>,
) -> bool {
    &&& sorted.len() == items.len()
    &&& is_arrangement(places, items.len() as int)
    &&& forall|i: int| 0 <= i < items.len() ==> #[trigger] sorted[i] == items[places[i]]
    &&& forall|i: int, j: int|
        0 <= i < j < items.len() ==> K::before(
            (#[trigger] sorted[i]).0.model(),
            (#[trigger] sorted[j]).0.model(),
        ) || (sorted[i].0.model() == sorted[j].0.model() && places[i] < places[j])
}

/// Sort by keys; things with one key stay in the order they came in.
pub fn stable_sort<K: Key, T>(items: Vec<(K, T)>) -> (out: Vec<(K, T)>)
    ensures
        exists|places: Seq<int>| stably_sorted(items@, out@, places),
{
    let ghost all = items@;
    let mut items: Vec<(K, T)> = items;
    let mut out: Vec<(K, T)> = Vec::new();
    let ghost mut places: Seq<int> = Seq::empty();
    while items.len() > 0
        invariant
            items@.len() + out@.len() == all.len(),
            items@ == all.take(items@.len() as int),
            places.len() == out@.len(),
            forall|i: int| 0 <= i < places.len() ==> items@.len() <= #[trigger] places[i] < all.len(),
            forall|i: int, j: int|
                0 <= i < j < places.len() ==> #[trigger] places[i] != #[trigger] places[j],
            forall|i: int| 0 <= i < out@.len() ==> #[trigger] out@[i] == all[places[i]],
            forall|i: int, j: int|
                0 <= i < j < out@.len() ==> K::before(
                    (#[trigger] out@[i]).0.model(),
                    (#[trigger] out@[j]).0.model(),
                ) || (out@[i].0.model() == out@[j].0.model() && places[i] < places[j]),
        decreases items@.len(),
    {
        let ghost left = items@.len() - 1;
        if let Some(item) = items.pop() {
            assert(item == all[left]);
            let m: usize = out.len();
            let mut at: usize = 0;
            while at < m && out[at].0.precedes(&item.0)
                invariant
                    at <= m,
                    m == out@.len(),
                    forall|i: int|
                        0 <= i < at ==> K::before(
                            (#[trigger] out@[i]).0.model(),
                            item.0.model(),
                        ),
                decreases m - at,
            {
                at = at + 1;
            }
            let ghost was = out@;
            let ghost old_places = places;
            proof {
                assert forall|j: int| at <= j < was.len() implies item.0.model()
                    == (#[trigger] was[j]).0.model() || K::before(
                    item.0.model(),
                    was[j].0.model(),
                ) by {
                    let first = was[at as int].0.model();
                    K::before_decides(item.0.model(), first);
                    if j > at {
                        assert(was[at as int].0.model() == first);
                        if K::before(item.0.model(), first) && K::before(first, was[j].0.model()) {
                            K::before_chains(item.0.model(), first, was[j].0.model());
                        }
                    }
                }
            }
            out.insert(at, item);
            proof {
                places = old_places.insert(at as int, left as int);
                assert(items@ =~= all.take(items@.len() as int));
                assert forall|i: int| 0 <= i < out@.len() implies #[trigger] out@[i]
                    == all[places[i]] by {
                    if i < at {
                        assert(out@[i] == was[i]);
                    } else if i > at {
                        assert(out@[i] == was[i - 1]);
                    }
                }
                assert forall|i: int| 0 <= i < places.len() implies items@.len()
                    <= #[trigger] places[i] < all.len() by {
                    if i < at {
                        assert(places[i] == old_places[i]);
                    } else if i > at {
                        assert(places[i] == old_places[i - 1]);
                    }
                }
                assert forall|i: int, j: int| 0 <= i < j < places.len() implies #[trigger] places[i]
                    != #[trigger] places[j] by {
                    let a = if i < at { i } else { i - 1 };
                    let b = if j < at { j } else { j - 1 };
                    if i == at {
                        assert(places[j] == old_places[b]);
                    } else if j == at {
                        assert(places[i] == old_places[a]);
                    } else {
                        assert(places[i] == old_places[a] && places[j] == old_places[b]);
                    }
                }
                assert forall|i: int, j: int| 0 <= i < j < out@.len() implies K::before(
                    (#[trigger] out@[i]).0.model(),
                    (#[trigger] out@[j]).0.model(),
                ) || (out@[i].0.model() == out@[j].0.model() && places[i] < places[j]) by {
                    let a = if i < at { i } else { i - 1 };
                    let b = if j < at { j } else { j - 1 };
                    if i == at {
                        assert(out@[j] == was[b]);
                        assert(places[j] == old_places[b]);
                    } else if j == at {
                        assert(out@[i] == was[a]);
                    } else {
                        assert(out@[i] == was[a] && out@[j] == was[b]);
                        assert(places[i] == old_places[a] && places[j] == old_places[b]);
                    }
                }
            }
        }
    }
    proof {
        assert(stably_sorted(all, out@, places));
    }
    out
}

/// Things in the opposite order.
pub(crate) fn reversed<T>(items: Vec<T>) -> (out: Vec<T>)
    ensures
        out@.len() == items@.len(),
        forall|i: int| 0 <= i < out@.len() ==> #[trigger] out@[i] == items@[items@.len() - 1 - i],
{
    let ghost all = items@;
    let mut items: Vec<T> = items;
    let mut out: Vec<T> = Vec::new();
    while items.len() > 0
        invariant
            items@.len() + out@.len() == all.len(),
            items@ == all.take(items@.len() as int),
            forall|i: int| 0 <= i < out@.len() ==> #[trigger] out@[i] == all[all.len() - 1 - i],
        decreases items@.len(),
    {
        let ghost done = out@;
        if let Some(item) = items.pop() {
            out.push(item);
            assert(items@ =~= all.take(items@.len() as int));
            assert forall|i: int| 0 <= i < out@.len() implies #[trigger] out@[i] == all[all.len() - 1
                - i] by {
                if i < done.len() {
                    assert(out@[i] == done[i]);
                }
            }
        }
    }
    out
}

/// Whether one optional cadence comes before another: none first, then the shorter.
pub open spec fn freq_lt(a: Option<Frequency>, b: Option<Frequency>) -> bool {
    match (a, b) {
        (None, Some(_)) => true,
        (Some(x), Some(y)) => x.shorter(y),
        _ => false,
    }
}

/// A symbol at a cadence, where it has one.
#[derive(Debug)]
pub struct SeriesKey {
    pub symbol: String,
    pub freq: Option<Frequency>,
}

impl Key for SeriesKey {
    type Model = (Seq<char>, Option<Frequency>);

    open spec fn model(&self) -> (Seq<char>, Option<Frequency>) {
        (self.symbol@, self.freq)
    }

    open spec fn before(
        a: (Seq<char>, Option<Frequency>),
        b: (Seq<char>, Option<Frequency>),
    ) -> bool {
        text::text_lt(a.0, b.0) || (a.0 == b.0 && freq_lt(a.1, b.1))
    }

    proof fn before_is_strict(a: (Seq<char>, Option<Frequency>)) {
        text::text_lt_irreflexive(a.0);
    }

    proof fn before_chains(
        a: (Seq<char>, Option<Frequency>),
        b: (Seq<char>, Option<Frequency>),
        c: (Seq<char>, Option<Frequency>),
    ) {
        if text::text_lt(a.0, b.0) && text::text_lt(b.0, c.0) {
            text::text_lt_transitive(a.0, b.0, c.0);
        }
        if let (Some(x), Some(y), Some(z)) = (a.1, b.1, c.1) {
            if x.shorter(y) && y.shorter(z) {
                crate::frequency::shorter_is_transitive(x, y, z);
            }
        }
    }

    proof fn before_decides(
        a: (Seq<char>, Option<Frequency>),
        b: (Seq<char>, Option<Frequency>),
    ) {
        text::text_lt_total(a.0, b.0);
        if let (Some(x), Some(y)) = (a.1, b.1) {
            crate::frequency::shorter_is_total(x, y);
        }
    }

    fn precedes(&self, other: &SeriesKey) -> (out: bool) {
        if text::less(&self.symbol, &other.symbol) {
            return true;
        }
        if !text::same(&self.symbol, &other.symbol) {
            return false;
        }
        proof {
            text::text_lt_irreflexive(self.symbol@);
        }
        match (self.freq, other.freq) {
            (None, Some(_)) => true,
            (Some(x), Some(y)) => x.comes_before(y),
            _ => false,
        }
    }
}

/// What a row of a table is sorted by: its series, and then its time.
#[derive(Debug)]
pub struct TimedKey {
    pub series: SeriesKey,
    pub time: String,
}

impl Key for TimedKey {
    type Model = ((Seq<char>, Option<Frequency>), Seq<char>);

    open spec fn model(&self) -> ((Seq<char>, Option<Frequency>), Seq<char>) {
        (self.series.model(), self.time@)
    }

    open spec fn before(
        a: ((Seq<char>, Option<Frequency>), Seq<char>),
        b: ((Seq<char>, Option<Frequency>), Seq<char>),
    ) -> bool {
        SeriesKey::before(a.0, b.0) || (a.0 == b.0 && text::text_lt(a.1, b.1))
    }

    proof fn before_is_strict(a: ((Seq<char>, Option<Frequency>), Seq<char>)) {
        SeriesKey::before_is_strict(a.0);
        text::text_lt_irreflexive(a.1);
    }

    proof fn before_chains(
        a: ((Seq<char>, Option<Frequency>), Seq<char>),
        b: ((Seq<char>, Option<Frequency>), Seq<char>),
        c: ((Seq<char>, Option<Frequency>), Seq<char>),
    ) {
        if SeriesKey::before(a.0, b.0) && SeriesKey::before(b.0, c.0) {
            SeriesKey::before_chains(a.0, b.0, c.0);
        }
        if a.0 == b.0 && b.0 == c.0 {
            text::text_lt_transitive(a.1, b.1, c.1);
        }
    }

    proof fn before_decides(
        a: ((Seq<char>, Option<Frequency>), Seq<char>),
        b: ((Seq<char>, Option<Frequency>), Seq<char>),
    ) {
        SeriesKey::before_decides(a.0, b.0);
        text::text_lt_total(a.1, b.1);
    }

    fn precedes(&self, other: &TimedKey) -> (out: bool) {
        if self.series.precedes(&other.series) {
            return true;
        }
        if other.series.precedes(&self.series) {
            proof {
                SeriesKey::before_is_strict(self.series.model());
            }
            return false;
        }
        proof {
            SeriesKey::before_decides(self.series.model(), other.series.model());
        }
        text::less(&self.time, &other.time)
    }
}

// ---------------------------------------------------------------------------
// Laws
// ---------------------------------------------------------------------------

/// Arranged items are the same items, each as often as before.
pub proof fn arranged_is_same<T>(items: Seq<T>, arranged: Seq<T>, places: Seq<int>)
    requires
        is_arrangement(places, items.len() as int),
        arranged.len() == items.len(),
        forall|i: int| 0 <= i < items.len() ==> #[trigger] arranged[i] == items[places[i]],
    ensures
        arranged.to_multiset() == items.to_multiset(),
    decreases items.len(),
{
    broadcast use vstd::seq_lib::group_to_multiset_ensures;

    if items.len() == 0 {
        assert(arranged =~= items);
    } else {
        let p = places.last();
        let fewer = items.remove(p);
        let shifted = Seq::new(
            places.drop_last().len(),
            |i: int|
                if places[i] < p {
                    places[i]
                } else {
                    places[i] - 1
                },
        );
        arranged_is_same(fewer, arranged.drop_last(), shifted);
        assert(arranged =~= arranged.drop_last().push(items[p]));
        assert(items.contains(items[p]));
        assert(items.to_multiset().remove(items[p]).insert(items[p]) =~= items.to_multiset());
    }
}

/// Sorting keeps every item, each as often as before.
pub proof fn sorting_keeps_every_item<K: Key, T>(
    items: Seq<(K, T)>,
    sorted: Seq<(K, T)>,
    places: Seq<int>,
)
    requires
        stably_sorted(items, sorted, places),
    ensures
        sorted.to_multiset() == items.to_multiset(),
{
    arranged_is_same(items, sorted, places);
}

} // verus!
