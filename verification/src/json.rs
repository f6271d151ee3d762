//! Trees of values: what a settings document holds.

use vstd::prelude::*;

use crate::number::Real;
use crate::ordmap;
use crate::ordmap::{Key, OrdMap};

verus! {

/// A number as it was written, and the double that it stands for.
#[derive(Debug)]
pub struct Numeral {
    pub text: String,
    pub value: Real,
}

/// A tree of values.
#[derive(Debug)]
pub enum Json {
    Null,
    Bool(bool),
    Number(Numeral),
    Text(String),
    Array(Vec<Json>),
    Object(OrdMap<String, Json>),
}

/// A tree of values, as mathematics.
pub enum Tree {
    Null,
    Bool(bool),
    Number(Seq<char>, Real),
    Text(Seq<char>),
    Array(Seq<Tree>),
    Object(Map<Seq<char>, Tree>),
}

impl Json {
    /// The tree that this value is.
    pub open spec fn tree(self) -> Tree
        decreases self,
    {
        match self {
            Json::Null => Tree::Null,
            Json::Bool(b) => Tree::Bool(b),
            Json::Number(n) => Tree::Number(n.text@, n.value),
            Json::Text(s) => Tree::Text(s@),
            Json::Array(items) => Tree::Array(forest(items@)),
            Json::Object(o) => Tree::Object(branches(o.entries@)),
        }
    }

    /// Whether every object in the tree has its keys in order.
    pub open spec fn wf(self) -> bool
        decreases self,
    {
        match self {
            Json::Array(items) => forall|i: int|
                0 <= i < items@.len() ==> (#[trigger] items@[i]).wf(),
            Json::Object(o) => o.wf() && forall|i: int|
                0 <= i < o.entries@.len() ==> (#[trigger] o.entries@[i]).1.wf(),
            _ => true,
        }
    }
}

/// The trees of a sequence of values.
pub open spec fn forest(items: Seq<Json>) -> Seq<Tree>
    decreases items,
{
    if items.len() == 0 {
        seq![]
    } else {
        forest(items.drop_last()).push(items.last().tree())
    }
}

/// The trees of an object's values, by their keys.
pub open spec fn branches(entries: Seq<(String, Json)>) -> Map<Seq<char>, Tree>
    decreases entries,
{
    if entries.len() == 0 {
        Map::empty()
    } else {
        branches(entries.drop_last()).insert(entries.last().0@, entries.last().1.tree())
    }
}

/// The keys and trees of an object.
pub open spec fn members(o: OrdMap<String, Json>) -> Map<Seq<char>, Tree> {
    branches(o.entries@)
}

/// Whether an object has its keys in order, all the way down.
pub open spec fn sound(o: OrdMap<String, Json>) -> bool {
    o.wf() && forall|i: int| 0 <= i < o.entries@.len() ==> (#[trigger] o.entries@[i]).1.wf()
}

/// The trees of a sequence stand in its order.
pub proof fn forest_at(items: Seq<Json>)
    ensures
        forest(items).len() == items.len(),
        forall|i: int| 0 <= i < items.len() ==> #[trigger] forest(items)[i] == items[i].tree(),
    decreases items.len(),
{
    if items.len() > 0 {
        forest_at(items.drop_last());
        assert forall|i: int| 0 <= i < items.len() implies #[trigger] forest(items)[i]
            == items[i].tree() by {
            if i < items.len() - 1 {
                assert(items.drop_last()[i] == items[i]);
                assert(forest(items)[i] == forest(items.drop_last())[i]);
            }
        }
    }
}

/// An object has a tree for each of its keys and for no other, and as many as it
/// has entries.
pub proof fn branches_at(entries: Seq<(String, Json)>)
    requires
        ordmap::ascending(entries),
    ensures
        branches(entries).dom().finite(),
        branches(entries).dom().len() == entries.len(),
        forall|k: Seq<char>| #[trigger]
            branches(entries).dom().contains(k) <==> ordmap::map_of(entries).dom().contains(k),
        forall|k: Seq<char>| #[trigger]
            branches(entries).dom().contains(k) ==> branches(entries)[k] == ordmap::map_of(
                entries,
            )[k].tree(),
        forall|i: int|
            0 <= i < entries.len() ==> branches(entries).dom().contains(
                (#[trigger] entries[i]).0@,
            ) && branches(entries)[entries[i].0@] == entries[i].1.tree(),
    decreases entries.len(),
{
    let b = branches(entries);
    if entries.len() > 0 {
        let n = entries.len() - 1;
        let rest = entries.drop_last();
        let key = entries[n].0@;
        assert(entries.last() == entries[n]);
        assert forall|i: int, j: int| 0 <= i < j < rest.len() implies #[trigger] String::before(
            rest[i].0.model(),
            rest[j].0.model(),
        ) by {
            assert(String::before(entries[i].0.model(), entries[j].0.model()));
        }
        branches_at(rest);
        assert forall|i: int| 0 <= i < n implies (#[trigger] rest[i]).0@ != key by {
            assert(String::before(entries[i].0.model(), entries[n].0.model()));
            String::before_is_strict(key);
        }
        assert(!branches(rest).dom().contains(key)) by {
            if branches(rest).dom().contains(key) {
                let i = choose|i: int| ordmap::holds(rest, key, i);
                assert(ordmap::holds(rest, key, i));
                assert(rest[i].0@ != key);
            }
        }
        assert forall|i: int| 0 <= i < entries.len() implies b.dom().contains(
            (#[trigger] entries[i]).0@,
        ) && b[entries[i].0@] == entries[i].1.tree() by {
            if i < n {
                assert(rest[i] == entries[i]);
                assert(rest[i].0@ != key);
            }
        }
        assert(b.dom() =~= branches(rest).dom().insert(key));
    }
    assert forall|k: Seq<char>| #[trigger]
        b.dom().contains(k) <==> ordmap::map_of(entries).dom().contains(k) by {
        if ordmap::map_of(entries).dom().contains(k) {
            let i = choose|i: int| ordmap::holds(entries, k, i);
            assert(ordmap::holds(entries, k, i));
            assert(entries[i].0@ == k);
        }
        if b.dom().contains(k) {
            let i = branch_place(entries, k);
            assert(ordmap::holds(entries, k, i));
        }
    }
    assert forall|k: Seq<char>| #[trigger] b.dom().contains(k) implies b[k] == ordmap::map_of(
        entries,
    )[k].tree() by {
        let i = branch_place(entries, k);
        assert(entries[i].0@ == k);
        ordmap::place_is_unique(entries, i);
    }
}

proof fn branch_place(entries: Seq<(String, Json)>, k: Seq<char>) -> (i: int)
    requires
        branches(entries).dom().contains(k),
    ensures
        0 <= i < entries.len(),
        entries[i].0@ == k,
    decreases entries.len(),
{
    if entries.last().0@ == k {
        entries.len() - 1
    } else {
        branch_place(entries.drop_last(), k)
    }
}

/// Where two objects have the same keys in the same order, and each value of the
/// second follows from the key and the value of the first, so does its tree.
pub proof fn branches_follow(
    entries: Seq<(String, Json)>,
    others: Seq<(String, Json)>,
    rule: spec_fn(Seq<char>, Tree) -> Tree,
)
    requires
        others.len() == entries.len(),
        forall|i: int|
            0 <= i < entries.len() ==> (#[trigger] others[i]).0@ == entries[i].0@
                && others[i].1.tree() == rule(entries[i].0@, entries[i].1.tree()),
    ensures
        branches(others).dom() == branches(entries).dom(),
        forall|k: Seq<char>| #[trigger]
            branches(others).dom().contains(k) ==> branches(others)[k] == rule(
                k,
                branches(entries)[k],
            ),
    decreases entries.len(),
{
    if entries.len() > 0 {
        let a = entries.drop_last();
        let b = others.drop_last();
        assert forall|i: int| 0 <= i < a.len() implies (#[trigger] b[i]).0@ == a[i].0@
            && b[i].1.tree() == rule(a[i].0@, a[i].1.tree()) by {
            assert(others[i].0@ == entries[i].0@);
        }
        branches_follow(a, b, rule);
        assert(others[others.len() - 1].0@ == entries[entries.len() - 1].0@);
    }
    assert(branches(others).dom() =~= branches(entries).dom());
}

/// The value of a key, where it has one.
pub fn member<'a>(o: &'a OrdMap<String, Json>, key: &str) -> (out: Option<&'a Json>)
    requires
        sound(*o),
    ensures
        match out {
            Some(v) => members(*o).dom().contains(key@) && v.tree() == members(*o)[key@] && v.wf(),
            None => !members(*o).dom().contains(key@),
        },
{
    let k: String = key.to_owned();
    proof {
        branches_at(o.entries@);
    }
    match o.get(&k) {
        Some(v) => {
            proof {
                let i = choose|i: int| ordmap::holds(o.entries@, key@, i);
                assert(ordmap::holds(o.entries@, key@, i));
                ordmap::place_is_unique(o.entries@, i);
                assert(o.entries@[i].1.wf());
            }
            Some(v)
        },
        None => None,
    }
}

/// Whether a key has a value.
pub fn has(o: &OrdMap<String, Json>, key: &str) -> (out: bool)
    requires
        sound(*o),
    ensures
        out == members(*o).dom().contains(key@),
{
    member(o, key).is_some()
}

/// Give a key a value.
pub fn put(o: &mut OrdMap<String, Json>, key: &str, value: Json)
    requires
        sound(*old(o)),
        value.wf(),
    ensures
        sound(*final(o)),
        members(*final(o)) == members(*old(o)).insert(key@, value.tree()),
{
    let ghost e = o.entries@;
    let ghost v = value;
    o.insert(key.to_owned(), value);
    proof {
        branches_at(e);
        branches_at(o.entries@);
        let f = o.entries@;
        assert forall|i: int| 0 <= i < f.len() implies (#[trigger] f[i]).1.wf() by {
            ordmap::place_is_unique(f, i);
            if f[i].0@ != key@ {
                assert(ordmap::map_of(e).dom().contains(f[i].0@));
                let j = choose|j: int| ordmap::holds(e, f[i].0@, j);
                assert(ordmap::holds(e, f[i].0@, j));
                ordmap::place_is_unique(e, j);
                assert(e[j].1.wf());
            }
        }
        assert forall|k: Seq<char>|
            branches(f).dom().contains(k) == #[trigger] branches(e).insert(
                key@,
                v.tree(),
            ).dom().contains(k) by {
            assert(branches(f).dom().contains(k) <==> ordmap::map_of(f).dom().contains(k));
            assert(branches(e).dom().contains(k) <==> ordmap::map_of(e).dom().contains(k));
        }
        assert(branches(f) =~= branches(e).insert(key@, v.tree()));
    }
}

/// The object without entries.
pub fn nothing() -> (out: OrdMap<String, Json>)
    ensures
        sound(out),
        members(out) == Map::<Seq<char>, Tree>::empty(),
{
    OrdMap::new()
}

/// The object with one entry.
pub fn single(key: &str, value: Json) -> (out: OrdMap<String, Json>)
    requires
        value.wf(),
    ensures
        sound(out),
        members(out) == Map::<Seq<char>, Tree>::empty().insert(key@, value.tree()),
{
    let mut out: OrdMap<String, Json> = nothing();
    put(&mut out, key, value);
    out
}

/// A second value with the same tree.
pub fn copy(value: &Json) -> (out: Json)
    requires
        value.wf(),
    ensures
        out.wf(),
        out.tree() == value.tree(),
    decreases *value,
{
    match value {
        Json::Null => Json::Null,
        Json::Bool(b) => Json::Bool(*b),
        Json::Number(n) => Json::Number(Numeral { text: n.text.clone(), value: n.value }),
        Json::Text(s) => Json::Text(s.clone()),
        Json::Array(items) => {
            let mut out: Vec<Json> = Vec::new();
            let n: usize = items.len();
            for i in 0..n
                invariant
                    n == items@.len(),
                    *value is Array,
                    value->Array_0 == *items,
                    value.wf(),
                    out@.len() == i,
                    forall|j: int|
                        0 <= j < i ==> (#[trigger] out@[j]).wf() && out@[j].tree()
                            == items@[j].tree(),
            {
                assert(items@[i as int].wf());
                out.push(copy(&items[i]));
            }
            proof {
                forest_at(items@);
                forest_at(out@);
                assert(forest(out@) =~= forest(items@));
            }
            Json::Array(out)
        },
        Json::Object(o) => {
            let mut out: Vec<(String, Json)> = Vec::new();
            let n: usize = o.entries.len();
            for i in 0..n
                invariant
                    n == o.entries@.len(),
                    *value == Json::Object(*o),
                    value.wf(),
                    out@.len() == i,
                    forall|j: int|
                        0 <= j < i ==> (#[trigger] out@[j]).0@ == o.entries@[j].0@
                            && out@[j].1.wf() && out@[j].1.tree() == o.entries@[j].1.tree(),
            {
                assert(o.entries@[i as int].1.wf());
                out.push((o.entries[i].0.clone(), copy(&o.entries[i].1)));
            }
            let out: OrdMap<String, Json> = OrdMap { entries: out };
            proof {
                same_keys_ascend(o.entries@, out.entries@);
                branches_follow(o.entries@, out.entries@, |k: Seq<char>, t: Tree| t);
                assert(branches(out.entries@) =~= branches(o.entries@));
            }
            Json::Object(out)
        },
    }
}

/// Entries with the keys of ascending ones ascend.
pub proof fn same_keys_ascend(entries: Seq<(String, Json)>, others: Seq<(String, Json)>)
    requires
        ordmap::ascending(entries),
        others.len() == entries.len(),
        forall|i: int| 0 <= i < entries.len() ==> (#[trigger] others[i]).0@ == entries[i].0@,
    ensures
        ordmap::ascending(others),
{
    assert forall|i: int, j: int| 0 <= i < j < others.len() implies #[trigger] String::before(
        others[i].0.model(),
        others[j].0.model(),
    ) by {
        assert(String::before(entries[i].0.model(), entries[j].0.model()));
        assert(others[i].0@ == entries[i].0@);
        assert(others[j].0@ == entries[j].0@);
    }
}

/// A second object with the same members.
pub fn copy_object(o: &OrdMap<String, Json>) -> (out: OrdMap<String, Json>)
    requires
        sound(*o),
    ensures
        sound(out),
        members(out) == members(*o),
{
    let mut out: Vec<(String, Json)> = Vec::new();
    let n: usize = o.entries.len();
    for i in 0..n
        invariant
            n == o.entries@.len(),
            sound(*o),
            out@.len() == i,
            forall|j: int|
                0 <= j < i ==> (#[trigger] out@[j]).0@ == o.entries@[j].0@ && out@[j].1.wf()
                    && out@[j].1.tree() == o.entries@[j].1.tree(),
    {
        assert(o.entries@[i as int].1.wf());
        out.push((o.entries[i].0.clone(), copy(&o.entries[i].1)));
    }
    let out: OrdMap<String, Json> = OrdMap { entries: out };
    proof {
        same_keys_ascend(o.entries@, out.entries@);
        branches_follow(o.entries@, out.entries@, |k: Seq<char>, t: Tree| t);
        assert(branches(out.entries@) =~= branches(o.entries@));
    }
    out
}

/// What a tree is, in a word.
pub open spec fn sort_of(t: Tree) -> Seq<char> {
    match t {
        Tree::Null => "null"@,
        Tree::Bool(_) => "bool"@,
        Tree::Number(_, _) => "number"@,
        Tree::Text(_) => "string"@,
        Tree::Array(_) => "array"@,
        Tree::Object(_) => "object"@,
    }
}

/// What a value is, in a word.
pub fn value_kind(v: &Json) -> (out: &'static str)
    ensures
        out@ == sort_of(v.tree()),
{
    match v {
        Json::Null => "null",
        Json::Bool(_) => "bool",
        Json::Number(_) => "number",
        Json::Text(_) => "string",
        Json::Array(_) => "array",
        Json::Object(_) => "object",
    }
}

} // verus!
