//! A map that keeps its keys in ascending order.

use vstd::prelude::*;

use crate::text;

verus! {

/// A key with a strict total order, and its mathematical model.
pub trait Key: Sized {
    /// What the key stands for.
    type Model;

    /// What this key stands for.
    spec fn model(&self) -> Self::Model;

    /// The order of keys.
    spec fn before(a: Self::Model, b: Self::Model) -> bool;

    /// No key comes before itself.
    proof fn before_is_strict(a: Self::Model)
        ensures
            !Self::before(a, a),
    ;

    /// The order is transitive.
    proof fn before_chains(a: Self::Model, b: Self::Model, c: Self::Model)
        requires
            Self::before(a, b),
            Self::before(b, c),
        ensures
            Self::before(a, c),
    ;

    /// Of two different keys, one comes before the other.
    proof fn before_decides(a: Self::Model, b: Self::Model)
        ensures
            a == b || Self::before(a, b) || Self::before(b, a),
    ;

    /// Whether this key comes before `other`.
    fn precedes(&self, other: &Self) -> (out: bool)
        ensures
            out == Self::before(self.model(), other.model()),
    ;
}

impl Key for String {
    type Model = Seq<char>;

    open spec fn model(&self) -> Seq<char> {
        self@
    }

    open spec fn before(a: Seq<char>, b: Seq<char>) -> bool {
        text::text_lt(a, b)
    }

    proof fn before_is_strict(a: Seq<char>) {
        text::text_lt_irreflexive(a);
    }

    proof fn before_chains(a: Seq<char>, b: Seq<char>, c: Seq<char>) {
        text::text_lt_transitive(a, b, c);
    }

    proof fn before_decides(a: Seq<char>, b: Seq<char>) {
        text::text_lt_total(a, b);
    }

    fn precedes(&self, other: &String) -> (out: bool) {
        text::less(self, other)
    }
}

/// Entries in ascending order of their keys, each key at most once.
#[derive(Debug)]
pub struct OrdMap<K: Key, V> {
    pub entries: Vec<(K, V)>,
}

/// Whether each key comes before the later ones.
pub open spec fn ascending<K: Key, V>(entries: Seq<(K, V)>) -> bool {
    forall|i: int, j: int|
        0 <= i < j < entries.len() ==> #[trigger] K::before(
            entries[i].0.model(),
            entries[j].0.model(),
        )
}

/// Whether an entry stands at `i` for the key `m`.
pub open spec fn holds<K: Key, V>(entries: Seq<(K, V)>, m: K::Model, i: int) -> bool {
    0 <= i < entries.len() && entries[i].0.model() == m
}

/// The place of the key `m`, where it has one.
pub open spec fn place<K: Key, V>(entries: Seq<(K, V)>, m: K::Model) -> int {
    choose|i: int| holds(entries, m, i)
}

/// The map that a sequence of entries stands for.
pub open spec fn map_of<K: Key, V>(entries: Seq<(K, V)>) -> Map<K::Model, V> {
    Map::new(
        |m: K::Model| exists|i: int| holds(entries, m, i),
        |m: K::Model| entries[place(entries, m)].1,
    )
}

/// In ascending entries a key has one place.
pub proof fn place_is_unique<K: Key, V>(entries: Seq<(K, V)>, i: int)
    requires
        ascending(entries),
        0 <= i < entries.len(),
    ensures
        place(entries, entries[i].0.model()) == i,
        map_of(entries).dom().contains(entries[i].0.model()),
        map_of(entries)[entries[i].0.model()] == entries[i].1,
{
    let m = entries[i].0.model();
    assert(holds(entries, m, i));
    let k = place(entries, m);
    K::before_is_strict(m);
    if k < i {
        assert(K::before(entries[k].0.model(), entries[i].0.model()));
    } else if i < k {
        assert(K::before(entries[i].0.model(), entries[k].0.model()));
    }
}

impl<K: Key, V> View for OrdMap<K, V> {
    type V = Map<K::Model, V>;

    open spec fn view(&self) -> Map<K::Model, V> {
        map_of(self.entries@)
    }
}

impl<K: Key, V> OrdMap<K, V> {
    /// Whether the keys ascend.
    pub open spec fn wf(&self) -> bool {
        ascending(self.entries@)
    }

    /// The map without entries.
    pub fn new() -> (out: OrdMap<K, V>)
        ensures
            out.wf(),
            out.entries@.len() == 0,
            out@ == Map::<K::Model, V>::empty(),
    {
        let out: OrdMap<K, V> = OrdMap { entries: Vec::new() };
        assert forall|m: K::Model| !out@.dom().contains(m) by {
            if out@.dom().contains(m) {
                let i = choose|i: int| holds(out.entries@, m, i);
                assert(holds(out.entries@, m, i));
            }
        }
        assert(out@ =~= Map::<K::Model, V>::empty());
        out
    }

    /// How many entries there are.
    pub fn len(&self) -> (out: usize)
        ensures
            out == self.entries@.len(),
    {
        self.entries.len()
    }

    /// The place of `key`, or the place where it belongs.
    fn search(&self, key: &K) -> (out: Result<usize, usize>)
        requires
            self.wf(),
        ensures
            match out {
                Ok(i) => i < self.entries@.len() && self.entries@[i as int].0.model()
                    == key.model(),
                Err(i) => i <= self.entries@.len() && (forall|j: int|
                    0 <= j < i ==> K::before(#[trigger] self.entries@[j].0.model(), key.model()))
                    && (forall|j: int|
                    i <= j < self.entries@.len() ==> K::before(
                        key.model(),
                        #[trigger] self.entries@[j].0.model(),
                    )),
            },
    {
        let mut low: usize = 0;
        let mut high: usize = self.entries.len();
        while low < high
            invariant
                low <= high <= self.entries@.len(),
                self.wf(),
                forall|j: int|
                    0 <= j < low ==> K::before(#[trigger] self.entries@[j].0.model(), key.model()),
                forall|j: int|
                    high <= j < self.entries@.len() ==> K::before(
                        key.model(),
                        #[trigger] self.entries@[j].0.model(),
                    ),
            decreases high - low,
        {
            let mid: usize = low + (high - low) / 2;
            let ghost e = self.entries@;
            let ghost m = e[mid as int].0.model();
            if self.entries[mid].0.precedes(key) {
                proof {
                    assert forall|j: int| 0 <= j < mid + 1 implies K::before(
                        #[trigger] e[j].0.model(),
                        key.model(),
                    ) by {
                        if j < mid {
                            assert(K::before(e[j].0.model(), m));
                            K::before_chains(e[j].0.model(), m, key.model());
                        }
                    }
                }
                low = mid + 1;
            } else if key.precedes(&self.entries[mid].0) {
                proof {
                    assert forall|j: int| mid <= j < e.len() implies K::before(
                        key.model(),
                        #[trigger] e[j].0.model(),
                    ) by {
                        if mid < j {
                            assert(K::before(m, e[j].0.model()));
                            K::before_chains(key.model(), m, e[j].0.model());
                        }
                    }
                }
                high = mid;
            } else {
                proof {
                    K::before_decides(m, key.model());
                }
                return Ok(mid);
            }
        }
        Err(low)
    }

    /// The value of `key`, where it has one.
    pub fn get(&self, key: &K) -> (out: Option<&V>)
        requires
            self.wf(),
        ensures
            match out {
                Some(v) => self@.dom().contains(key.model()) && *v == self@[key.model()],
                None => !self@.dom().contains(key.model()),
            },
    {
        match self.search(key) {
            Ok(i) => {
                proof {
                    place_is_unique(self.entries@, i as int);
                }
                Some(&self.entries[i].1)
            },
            Err(i) => {
                proof {
                    absent(self.entries@, key.model(), i as int);
                }
                None
            },
        }
    }

    /// Whether `key` has a value.
    pub fn contains(&self, key: &K) -> (out: bool)
        requires
            self.wf(),
        ensures
            out == self@.dom().contains(key.model()),
    {
        self.get(key).is_some()
    }

    /// Give `key` the value `value`.
    pub fn insert(&mut self, key: K, value: V)
        requires
            old(self).wf(),
        ensures
            final(self).wf(),
            final(self)@ == old(self)@.insert(key.model(), value),
    {
        let ghost e = self.entries@;
        let ghost m = key.model();
        match self.search(&key) {
            Ok(i) => {
                let ghost k = e[i as int].0;
                self.entries[i].1 = value;
                proof {
                    assert(self.entries@ =~= e.update(i as int, (k, value)));
                    updated(e, i as int, k, value);
                }
            },
            Err(i) => {
                self.entries.insert(i, (key, value));
                proof {
                    assert(self.entries@ =~= e.insert(i as int, (key, value)));
                    inserted(e, i as int, key, value);
                }
            },
        }
    }

    /// Take the value of `key` out of the map.
    pub fn remove(&mut self, key: &K) -> (out: Option<V>)
        requires
            old(self).wf(),
        ensures
            final(self).wf(),
            final(self)@ == old(self)@.remove(key.model()),
            match out {
                Some(v) => old(self)@.dom().contains(key.model()) && v == old(self)@[key.model()],
                None => !old(self)@.dom().contains(key.model()),
            },
    {
        let ghost e = self.entries@;
        match self.search(key) {
            Ok(i) => {
                proof {
                    place_is_unique(e, i as int);
                    removed(e, i as int);
                }
                let (_, v) = self.entries.remove(i);
                assert(self.entries@ =~= e.remove(i as int));
                Some(v)
            },
            Err(i) => {
                proof {
                    absent(e, key.model(), i as int);
                    assert(map_of(e).remove(key.model()) =~= map_of(e));
                }
                None
            },
        }
    }
}

proof fn absent<K: Key, V>(e: Seq<(K, V)>, m: K::Model, i: int)
    requires
        0 <= i <= e.len(),
        forall|j: int| 0 <= j < i ==> K::before(#[trigger] e[j].0.model(), m),
        forall|j: int| i <= j < e.len() ==> K::before(m, #[trigger] e[j].0.model()),
    ensures
        !map_of(e).dom().contains(m),
{
    if map_of(e).dom().contains(m) {
        let k = choose|k: int| holds(e, m, k);
        assert(holds(e, m, k));
        K::before_is_strict(m);
    }
}

proof fn updated<K: Key, V>(e: Seq<(K, V)>, i: int, key: K, value: V)
    requires
        ascending(e),
        0 <= i < e.len(),
        e[i].0.model() == key.model(),
    ensures
        ascending(e.update(i, (key, value))),
        map_of(e.update(i, (key, value))) == map_of(e).insert(key.model(), value),
{
    let f = e.update(i, (key, value));
    let m = key.model();
    assert forall|a: int, b: int| 0 <= a < b < f.len() implies #[trigger] K::before(
        f[a].0.model(),
        f[b].0.model(),
    ) by {
        assert(K::before(e[a].0.model(), e[b].0.model()));
    }
    assert forall|n: K::Model| #[trigger]
        map_of(f).dom().contains(n) <==> map_of(e).insert(m, value).dom().contains(n) by {
        if map_of(f).dom().contains(n) {
            let k = choose|k: int| holds(f, n, k);
            assert(holds(f, n, k));
            assert(holds(e, n, k));
        }
        if map_of(e).dom().contains(n) {
            let k = choose|k: int| holds(e, n, k);
            assert(holds(f, n, k));
        }
        assert(holds(f, m, i));
    }
    assert forall|n: K::Model| #[trigger] map_of(f).dom().contains(n) implies map_of(f)[n] == map_of(
        e,
    ).insert(m, value)[n] by {
        let k = choose|k: int| holds(f, n, k);
        assert(holds(f, n, k));
        place_is_unique(f, k);
        place_is_unique(e, k);
        if k != i {
            place_is_unique(e, i);
            if n == m {
                place_is_unique(f, i);
            }
        }
    }
    assert(map_of(f) =~= map_of(e).insert(m, value));
}

proof fn inserted<K: Key, V>(e: Seq<(K, V)>, i: int, key: K, value: V)
    requires
        ascending(e),
        0 <= i <= e.len(),
        forall|j: int| 0 <= j < i ==> K::before(#[trigger] e[j].0.model(), key.model()),
        forall|j: int| i <= j < e.len() ==> K::before(key.model(), #[trigger] e[j].0.model()),
    ensures
        ascending(e.insert(i, (key, value))),
        map_of(e.insert(i, (key, value))) == map_of(e).insert(key.model(), value),
{
    let f = e.insert(i, (key, value));
    let m = key.model();
    absent(e, m, i);
    assert forall|a: int, b: int| 0 <= a < b < f.len() implies #[trigger] K::before(
        f[a].0.model(),
        f[b].0.model(),
    ) by {
        let a0 = if a < i { a } else { a - 1 };
        let b0 = if b < i { b } else { b - 1 };
        if a == i {
            assert(f[b] == e[b0]);
            assert(K::before(m, e[b0].0.model()));
        } else if b == i {
            assert(f[a] == e[a0]);
            assert(K::before(e[a0].0.model(), m));
        } else {
            assert(f[a] == e[a0]);
            assert(f[b] == e[b0]);
            assert(K::before(e[a0].0.model(), e[b0].0.model()));
        }
    }
    assert forall|n: K::Model| #[trigger]
        map_of(f).dom().contains(n) <==> map_of(e).insert(m, value).dom().contains(n) by {
        if map_of(f).dom().contains(n) {
            let k = choose|k: int| holds(f, n, k);
            assert(holds(f, n, k));
            if k != i {
                let k0 = if k < i { k } else { k - 1 };
                assert(f[k] == e[k0]);
                assert(holds(e, n, k0));
            }
        }
        if map_of(e).dom().contains(n) {
            let k = choose|k: int| holds(e, n, k);
            assert(holds(e, n, k));
            let k1 = if k < i { k } else { k + 1 };
            assert(f[k1] == e[k]);
            assert(holds(f, n, k1));
        }
        assert(holds(f, m, i));
    }
    assert forall|n: K::Model| #[trigger] map_of(f).dom().contains(n) implies map_of(f)[n] == map_of(
        e,
    ).insert(m, value)[n] by {
        let k = choose|k: int| holds(f, n, k);
        assert(holds(f, n, k));
        place_is_unique(f, k);
        if k != i {
            let k0 = if k < i { k } else { k - 1 };
            assert(f[k] == e[k0]);
            place_is_unique(e, k0);
        }
    }
    assert(map_of(f) =~= map_of(e).insert(m, value));
}

proof fn removed<K: Key, V>(e: Seq<(K, V)>, i: int)
    requires
        ascending(e),
        0 <= i < e.len(),
    ensures
        ascending(e.remove(i)),
        map_of(e.remove(i)) == map_of(e).remove(e[i].0.model()),
{
    let f = e.remove(i);
    let m = e[i].0.model();
    assert forall|a: int, b: int| 0 <= a < b < f.len() implies #[trigger] K::before(
        f[a].0.model(),
        f[b].0.model(),
    ) by {
        let a1 = if a < i { a } else { a + 1 };
        let b1 = if b < i { b } else { b + 1 };
        assert(f[a] == e[a1]);
        assert(f[b] == e[b1]);
        assert(K::before(e[a1].0.model(), e[b1].0.model()));
    }
    assert forall|n: K::Model| #[trigger]
        map_of(f).dom().contains(n) <==> map_of(e).remove(m).dom().contains(n) by {
        if map_of(f).dom().contains(n) {
            let k = choose|k: int| holds(f, n, k);
            assert(holds(f, n, k));
            let k1 = if k < i { k } else { k + 1 };
            assert(f[k] == e[k1]);
            place_is_unique(e, k1);
            place_is_unique(e, i);
        }
        if map_of(e).remove(m).dom().contains(n) {
            let k = choose|k: int| holds(e, n, k);
            assert(holds(e, n, k));
            let k0 = if k < i { k } else { k - 1 };
            assert(f[k0] == e[k]);
            assert(holds(f, n, k0));
        }
    }
    assert forall|n: K::Model| #[trigger] map_of(f).dom().contains(n) implies map_of(f)[n] == map_of(
        e,
    ).remove(m)[n] by {
        let k = choose|k: int| holds(f, n, k);
        assert(holds(f, n, k));
        place_is_unique(f, k);
        let k1 = if k < i { k } else { k + 1 };
        assert(f[k] == e[k1]);
        place_is_unique(e, k1);
    }
    assert(map_of(f) =~= map_of(e).remove(m));
}

} // verus!
