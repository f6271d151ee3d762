//! Cost models and the settings that pick them, read from a tree of values.

use vstd::prelude::*;

use crate::costs;
use crate::costs::{CostSpec, CostTerm, TermModel};
use crate::frequency::Frequency;
use crate::json;
use crate::json::{Json, Tree};
use crate::number::Real;
use crate::ordmap;
use crate::ordmap::{Key, OrdMap};
use crate::text;

verus! {

// ---------------------------------------------------------------------------
// Records
// ---------------------------------------------------------------------------

/// Whether an object has no other keys than these names, and its tag where it has
/// one.
pub open spec fn only_names(
    m: Map<Seq<char>, Tree>,
    tagged: bool,
    names: Seq<Seq<char>>,
) -> bool {
    forall|k: Seq<char>|
        #![trigger m.dom().contains(k)]
        m.dom().contains(k) ==> (names.contains(k) || (tagged && k == "kind"@))
}

/// Whether a tree is a record of fields with these names: an object without other
/// keys, or a list of at most that many values. A tagged record has its tag in
/// front of the list, or under the key `kind`.
pub open spec fn is_record(t: Tree, tagged: bool, names: Seq<Seq<char>>) -> bool {
    let extra: int = if tagged {
        1
    } else {
        0
    };
    match t {
        Tree::Object(m) => only_names(m, tagged, names),
        Tree::Array(items) => items.len() <= names.len() + extra,
        _ => false,
    }
}

/// One field of a record, by its name and its position.
pub open spec fn field(t: Tree, tagged: bool, name: Seq<char>, at: int) -> Option<Tree> {
    match t {
        Tree::Object(m) => if m.dom().contains(name) {
            Some(m[name])
        } else {
            None
        },
        Tree::Array(items) => {
            let i = if tagged {
                at + 1
            } else {
                at
            };
            if 0 <= i < items.len() {
                Some(items[i])
            } else {
                None
            }
        },
        _ => None,
    }
}

/// The tag of a record, where it has one.
pub open spec fn tag(t: Tree) -> Option<Seq<char>> {
    match field(t, false, "kind"@, 0) {
        Some(Tree::Text(kind)) => Some(kind),
        _ => None,
    }
}

/// Whether a record has nothing besides its tag, but for the keys of an object,
/// which do not matter.
pub open spec fn is_bare(t: Tree) -> bool {
    t matches Tree::Array(items) ==> items.len() == 1
}

/// The names of a list.
pub open spec fn names_of(names: Seq<&'static str>) -> Seq<Seq<char>> {
    Seq::new(names.len(), |i: int| names[i]@)
}

/// Whether a value is a record of fields with these names.
fn record(v: &Json, tagged: bool, names: &[&'static str]) -> (out: bool)
    requires
        v.wf(),
        names@.len() < usize::MAX,
    ensures
        out == is_record(v.tree(), tagged, names_of(names@)),
{
    match v {
        Json::Object(o) => {
            let n: usize = o.entries.len();
            let ghost m = json::members(*o);
            proof {
                json::branches_at(o.entries@);
            }
            for i in 0..n
                invariant
                    n == o.entries@.len(),
                    m == json::members(*o),
                    v.tree() == Tree::Object(m),
                    names@.len() < usize::MAX,
                    forall|j: int|
                        0 <= j < n ==> m.dom().contains((#[trigger] o.entries@[j]).0@),
                    forall|j: int|
                        0 <= j < i ==> names_of(names@).contains((#[trigger] o.entries@[j]).0@) || (
                        tagged && o.entries@[j].0@ == "kind"@),
            {
                let key: &String = &o.entries[i].0;
                let is_tag: bool = tagged && text::same(key, "kind");
                if !is_tag && !listed(names, key) {
                    proof {
                        let k = o.entries@[i as int].0@;
                        assert(m.dom().contains(k));
                        assert(!names_of(names@).contains(k));
                        assert(!(tagged && k == "kind"@));
                    }
                    return false;
                }
            }
            proof {
                assert forall|k: Seq<char>| #[trigger] m.dom().contains(k) implies names_of(
                    names@,
                ).contains(k) || (tagged && k == "kind"@) by {
                    assert(ordmap::map_of(o.entries@).dom().contains(k));
                    let p = choose|p: int| ordmap::holds(o.entries@, k, p);
                    assert(ordmap::holds(o.entries@, k, p));
                    assert(o.entries@[p].0@ == k);
                }
            }
            true
        },
        Json::Array(items) => {
            proof {
                json::forest_at(items@);
            }
            items.len() <= names.len() || (tagged && items.len() == names.len() + 1)
        },
        _ => false,
    }
}

/// Whether a word is in a list.
fn listed(names: &[&'static str], word: &str) -> (out: bool)
    ensures
        out == names_of(names@).contains(word@),
{
    let n: usize = names.len();
    for i in 0..n
        invariant
            n == names@.len(),
            forall|j: int| 0 <= j < i ==> (#[trigger] names@[j])@ != word@,
    {
        if text::same(names[i], word) {
            assert(names_of(names@)[i as int] == word@);
            return true;
        }
    }
    assert(!names_of(names@).contains(word@)) by {
        if names_of(names@).contains(word@) {
            let j = choose|j: int| 0 <= j < names@.len() && names_of(names@)[j] == word@;
            assert(names@[j]@ == word@);
        }
    }
    false
}

/// One field of a record, by its name and its position.
fn field_at<'a>(v: &'a Json, tagged: bool, name: &str, at: usize) -> (out: Option<&'a Json>)
    requires
        v.wf(),
        at < usize::MAX,
    ensures
        match out {
            Some(c) => field(v.tree(), tagged, name@, at as int) == Some(c.tree()) && c.wf()
                && decreases_to!(*v => *c),
            None => field(v.tree(), tagged, name@, at as int) is None,
        },
{
    match v {
        Json::Object(o) => {
            let n: usize = o.entries.len();
            proof {
                json::branches_at(o.entries@);
            }
            for i in 0..n
                invariant
                    n == o.entries@.len(),
                    v.wf(),
                    *v is Object,
                    v->Object_0 == *o,
                    v.tree() == Tree::Object(json::members(*o)),
                    forall|j: int|
                        0 <= j < n ==> json::members(*o).dom().contains((#[trigger] o.entries@[j]).0@)
                            && json::members(*o)[o.entries@[j].0@] == o.entries@[j].1.tree(),
                    forall|j: int| 0 <= j < i ==> (#[trigger] o.entries@[j]).0@ != name@,
            {
                assert(o.entries@[i as int].1.wf());
                if text::same(&o.entries[i].0, name) {
                    assert(decreases_to!(*v => o.entries@[i as int].1));
                    return Some(&o.entries[i].1);
                }
            }
            assert(!json::members(*o).dom().contains(name@)) by {
                if json::members(*o).dom().contains(name@) {
                    assert(ordmap::map_of(o.entries@).dom().contains(name@));
                    let p = choose|p: int| ordmap::holds(o.entries@, name@, p);
                    assert(ordmap::holds(o.entries@, name@, p));
                    assert(o.entries@[p].0@ != name@);
                }
            }
            None
        },
        Json::Array(items) => {
            let i: usize = if tagged {
                at + 1
            } else {
                at
            };
            proof {
                json::forest_at(items@);
            }
            if i < items.len() {
                assert(items@[i as int].wf());
                assert(decreases_to!(*v => items@[i as int]));
                Some(&items[i])
            } else {
                None
            }
        },
        _ => None,
    }
}

/// The tag of a record, where it has one.
fn tag_of<'a>(v: &'a Json) -> (out: Option<&'a String>)
    requires
        v.wf(),
    ensures
        match out {
            Some(s) => tag(v.tree()) == Some(s@),
            None => tag(v.tree()) is None,
        },
{
    match field_at(v, false, "kind", 0) {
        Some(Json::Text(s)) => Some(s),
        _ => None,
    }
}

/// Whether a record has nothing besides its tag.
fn bare(v: &Json) -> (out: bool)
    requires
        v.wf(),
    ensures
        out == is_bare(v.tree()),
{
    match v {
        Json::Array(items) => {
            proof {
                json::forest_at(items@);
            }
            items.len() == 1
        },
        _ => true,
    }
}

// ---------------------------------------------------------------------------
// Models
// ---------------------------------------------------------------------------

/// A model that can be read from a tree.
pub trait Model: Sized {
    /// Whether a tree is such a model.
    spec fn readable(t: Tree) -> bool;

    /// Whether this is the model that a tree is.
    spec fn reads(self, t: Tree) -> bool;

    /// Read a model.
    fn read(v: &Json) -> (out: Option<Self>)
        requires
            v.wf(),
        ensures
            match out {
                Some(m) => Self::readable(v.tree()) && m.reads(v.tree()),
                None => !Self::readable(v.tree()),
            },
    ;
}

/// A number that a record must have.
pub open spec fn number_field(t: Tree, name: Seq<char>, at: int) -> Option<Real> {
    match field(t, true, name, at) {
        Some(Tree::Number(_, x)) => Some(x),
        _ => None,
    }
}

/// A number that a record may leave out: `Some(None)` where it does.
pub open spec fn optional_field(t: Tree, name: Seq<char>, at: int) -> Option<Option<Real>> {
    match field(t, true, name, at) {
        None => Some(None),
        Some(Tree::Null) => Some(None),
        Some(Tree::Number(_, x)) => Some(Some(x)),
        _ => None,
    }
}

fn read_number(v: &Json, name: &str, at: usize) -> (out: Option<Real>)
    requires
        v.wf(),
        at < usize::MAX,
    ensures
        out == number_field(v.tree(), name@, at as int),
{
    match field_at(v, true, name, at) {
        Some(Json::Number(n)) => Some(n.value),
        _ => None,
    }
}

fn read_optional(v: &Json, name: &str, at: usize) -> (out: Option<Option<Real>>)
    requires
        v.wf(),
        at < usize::MAX,
    ensures
        out == optional_field(v.tree(), name@, at as int),
{
    match field_at(v, true, name, at) {
        None => Some(None),
        Some(Json::Null) => Some(None),
        Some(Json::Number(n)) => Some(Some(n.value)),
        _ => None,
    }
}

/// What a commission costs.
#[derive(Debug)]
pub enum CommissionSpec {
    /// Nothing.
    Free,
    /// An amount for each fill.
    Fixed { amount: Real },
    /// A rate of each fill's value.
    Percentage { rate: Real },
    /// A rate for each unit.
    PerUnit { rate: Real },
    /// The sum of its parts.
    Composite { parts: Vec<CommissionSpec> },
    /// The larger of two.
    Max { lhs: Box<CommissionSpec>, rhs: Box<CommissionSpec> },
}

/// Whether a tree is a record with one number.
pub open spec fn is_number_record(t: Tree, name: Seq<char>) -> bool {
    is_record(t, true, seq![name]) && number_field(t, name, 0) is Some
}

/// Whether all trees are commission models.
pub open spec fn all_readable(items: Seq<Tree>) -> bool
    decreases items,
{
    forall|i: int| 0 <= i < items.len() ==> commission_readable(#[trigger] items[i])
}

/// Whether a tree is a commission model.
pub open spec fn commission_readable(t: Tree) -> bool
    decreases t,
{
    match tag(t) {
        None => false,
        Some(kind) => if kind == "none"@ {
            is_bare(t)
        } else if kind == "fixed"@ {
            is_number_record(t, "amount"@)
        } else if kind == "percentage"@ || kind == "per_unit"@ {
            is_number_record(t, "rate"@)
        } else if kind == "composite"@ {
            is_record(t, true, seq!["parts"@]) && match t {
                Tree::Object(m) => m.dom().contains("parts"@) && match m["parts"@] {
                    Tree::Array(parts) => all_readable(parts),
                    _ => false,
                },
                Tree::Array(items) => items.len() > 1 && match items[1] {
                    Tree::Array(parts) => all_readable(parts),
                    _ => false,
                },
                _ => false,
            }
        } else if kind == "max"@ {
            is_record(t, true, seq!["lhs"@, "rhs"@]) && match t {
                Tree::Object(m) => m.dom().contains("lhs"@) && m.dom().contains("rhs"@)
                    && commission_readable(m["lhs"@]) && commission_readable(m["rhs"@]),
                Tree::Array(items) => items.len() > 2 && commission_readable(items[1])
                    && commission_readable(items[2]),
                _ => false,
            }
        } else {
            false
        },
    }
}

/// Whether a model is the commission that a tree is.
pub open spec fn commission_reads(c: CommissionSpec, t: Tree) -> bool
    decreases c,
{
    match c {
        CommissionSpec::Free => tag(t) == Some("none"@),
        CommissionSpec::Fixed { amount } => tag(t) == Some("fixed"@) && number_field(
            t,
            "amount"@,
            0,
        ) == Some(amount),
        CommissionSpec::Percentage { rate } => tag(t) == Some("percentage"@) && number_field(
            t,
            "rate"@,
            0,
        ) == Some(rate),
        CommissionSpec::PerUnit { rate } => tag(t) == Some("per_unit"@) && number_field(
            t,
            "rate"@,
            0,
        ) == Some(rate),
        CommissionSpec::Composite { parts } => tag(t) == Some("composite"@) && match field(
            t,
            true,
            "parts"@,
            0,
        ) {
            Some(Tree::Array(items)) => parts@.len() == items.len() && forall|i: int|
                0 <= i < parts@.len() ==> commission_reads(#[trigger] parts@[i], items[i]),
            _ => false,
        },
        CommissionSpec::Max { lhs, rhs } => tag(t) == Some("max"@) && match (
            field(t, true, "lhs"@, 0),
            field(t, true, "rhs"@, 1),
        ) {
            (Some(l), Some(r)) => commission_reads(*lhs, l) && commission_reads(*rhs, r),
            _ => false,
        },
    }
}

proof fn kinds_differ()
    ensures
        "none"@ != "fixed"@,
        "none"@ != "bps"@,
        "bps"@ != "absolute"@,
        "none"@ != "absolute"@,
        "bps"@ != "volume_participation"@,
        "none"@ != "volume_participation"@,
        "percentage"@ != "per_unit"@,
        "none"@ != "percentage"@,
        "none"@ != "per_unit"@,
        "fixed"@ != "percentage"@,
        "fixed"@ != "per_unit"@,
        "composite"@ != "none"@,
        "composite"@ != "fixed"@,
        "composite"@ != "percentage"@,
        "composite"@ != "per_unit"@,
        "max"@ != "none"@,
        "max"@ != "fixed"@,
        "max"@ != "percentage"@,
        "max"@ != "per_unit"@,
        "max"@ != "composite"@,
{
    reveal_strlit("none");
    reveal_strlit("fixed");
    reveal_strlit("bps");
    reveal_strlit("absolute");
    reveal_strlit("volume_participation");
    reveal_strlit("percentage");
    reveal_strlit("per_unit");
    reveal_strlit("composite");
    reveal_strlit("max");
    assert("none"@[0] == 'n');
    assert("fixed"@[0] == 'f');
    assert("bps"@[0] == 'b');
    assert("absolute"@[0] == 'a');
    assert("volume_participation"@[0] == 'v');
    assert("percentage"@[3] == 'c');
    assert("per_unit"@[3] == '_');
    assert("percentage"@[0] == 'p');
    assert("per_unit"@[0] == 'p');
    assert("composite"@[0] == 'c');
    assert("max"@[0] == 'm');
}

fn one_name(name: &'static str) -> (out: Vec<&'static str>)
    ensures
        names_of(out@) == seq![name@],
{
    let mut out: Vec<&'static str> = Vec::new();
    out.push(name);
    assert(names_of(out@) =~= seq![name@]);
    out
}

fn two_names(a: &'static str, b: &'static str) -> (out: Vec<&'static str>)
    ensures
        names_of(out@) == seq![a@, b@],
{
    let mut out: Vec<&'static str> = Vec::new();
    out.push(a);
    out.push(b);
    assert(names_of(out@) =~= seq![a@, b@]);
    out
}

fn three_names(a: &'static str, b: &'static str, c: &'static str) -> (out: Vec<&'static str>)
    ensures
        names_of(out@) == seq![a@, b@, c@],
{
    let mut out: Vec<&'static str> = Vec::new();
    out.push(a);
    out.push(b);
    out.push(c);
    assert(names_of(out@) =~= seq![a@, b@, c@]);
    out
}

fn read_number_record(v: &Json, name: &'static str) -> (out: Option<Real>)
    requires
        v.wf(),
    ensures
        match out {
            Some(x) => is_number_record(v.tree(), name@) && number_field(v.tree(), name@, 0) == Some(
                x,
            ),
            None => !is_number_record(v.tree(), name@),
        },
{
    let names: Vec<&'static str> = one_name(name);
    assert(names@.len() == names_of(names@).len());
    if record(v, true, &names) {
        read_number(v, name, 0)
    } else {
        None
    }
}

/// Read a commission model.
fn read_commission(v: &Json) -> (out: Option<CommissionSpec>)
    requires
        v.wf(),
    ensures
        match out {
            Some(c) => commission_readable(v.tree()) && commission_reads(c, v.tree()),
            None => !commission_readable(v.tree()),
        },
    decreases *v, 1int,
{
    proof {
        kinds_differ();
    }
    match tag_of(v) {
        None => None,
        Some(kind) => {
            if text::same(kind, "none") {
                if bare(v) {
                    Some(CommissionSpec::Free)
                } else {
                    None
                }
            } else if text::same(kind, "fixed") {
                match read_number_record(v, "amount") {
                    Some(amount) => Some(CommissionSpec::Fixed { amount }),
                    None => None,
                }
            } else if text::same(kind, "percentage") {
                match read_number_record(v, "rate") {
                    Some(rate) => Some(CommissionSpec::Percentage { rate }),
                    None => None,
                }
            } else if text::same(kind, "per_unit") {
                match read_number_record(v, "rate") {
                    Some(rate) => Some(CommissionSpec::PerUnit { rate }),
                    None => None,
                }
            } else if text::same(kind, "composite") {
                read_composite(v)
            } else if text::same(kind, "max") {
                read_max(v)
            } else {
                None
            }
        },
    }
}

/// Read the sum of some models.
fn read_composite(v: &Json) -> (out: Option<CommissionSpec>)
    requires
        v.wf(),
        tag(v.tree()) == Some("composite"@),
    ensures
        match out {
            Some(c) => commission_readable(v.tree()) && commission_reads(c, v.tree()),
            None => !commission_readable(v.tree()),
        },
    decreases *v, 0int,
{
    proof {
        kinds_differ();
    }
    let names: Vec<&'static str> = one_name("parts");
    assert(names@.len() == names_of(names@).len());
    if !record(v, true, &names) {
        return None;
    }
    match field_at(v, true, "parts", 0) {
        Some(Json::Array(items)) => {
            proof {
                json::forest_at(items@);
            }
            let ghost trees = json::forest(items@);
            match read_commissions(items) {
                Some(parts) => {
                    proof {
                        assert forall|i: int| 0 <= i < trees.len() implies
                            commission_readable(#[trigger] trees[i]) by {
                            assert(trees[i] == items@[i].tree());
                        }
                        assert(all_readable(trees));
                        assert forall|i: int| 0 <= i < parts@.len() implies
                            commission_reads(#[trigger] parts@[i], trees[i]) by {
                            assert(trees[i] == items@[i].tree());
                        }
                    }
                    let out: CommissionSpec = CommissionSpec::Composite { parts };
                    assert(commission_readable(v.tree()));
                    assert(commission_reads(out, v.tree()));
                    Some(out)
                },
                None => {
                    proof {
                        let i = choose|i: int|
                            0 <= i < items@.len() && !commission_readable(
                                (#[trigger] items@[i]).tree(),
                            );
                        assert(trees[i] == items@[i].tree());
                        assert(!commission_readable(trees[i]));
                        assert(!all_readable(trees));
                        assert(!commission_readable(v.tree()));
                    }
                    None
                },
            }
        },
        _ => {
            assert(!commission_readable(v.tree()));
            None
        },
    }
}

/// Read the larger of two models.
fn read_max(v: &Json) -> (out: Option<CommissionSpec>)
    requires
        v.wf(),
        tag(v.tree()) == Some("max"@),
    ensures
        match out {
            Some(c) => commission_readable(v.tree()) && commission_reads(c, v.tree()),
            None => !commission_readable(v.tree()),
        },
    decreases *v, 0int,
{
    proof {
        kinds_differ();
    }
    let names: Vec<&'static str> = two_names("lhs", "rhs");
    assert(names@.len() == names_of(names@).len());
    if !record(v, true, &names) {
        return None;
    }
    match (field_at(v, true, "lhs", 0), field_at(v, true, "rhs", 1)) {
        (Some(l), Some(r)) => match (read_commission(l), read_commission(r)) {
            (Some(a), Some(b)) => {
                let out: CommissionSpec = CommissionSpec::Max {
                    lhs: Box::new(a),
                    rhs: Box::new(b),
                };
                assert(commission_readable(v.tree()));
                assert(commission_reads(a, l.tree()));
                assert(commission_reads(b, r.tree()));
                assert(commission_reads(out, v.tree()));
                Some(out)
            },
            _ => None,
        },
        _ => None,
    }
}

/// Read a list of commission models.
fn read_commissions(items: &Vec<Json>) -> (out: Option<Vec<CommissionSpec>>)
    requires
        forall|i: int| 0 <= i < items@.len() ==> (#[trigger] items@[i]).wf(),
    ensures
        match out {
            Some(parts) => parts@.len() == items@.len() && forall|i: int|
                0 <= i < items@.len() ==> commission_readable((#[trigger] items@[i]).tree())
                    && commission_reads(parts@[i], items@[i].tree()),
            None => exists|i: int|
                0 <= i < items@.len() && !commission_readable((#[trigger] items@[i]).tree()),
        },
    decreases items@, 0int,
{
    let mut parts: Vec<CommissionSpec> = Vec::new();
    let n: usize = items.len();
    for i in 0..n
        invariant
            n == items@.len(),
            forall|j: int| 0 <= j < items@.len() ==> (#[trigger] items@[j]).wf(),
            parts@.len() == i,
            forall|j: int|
                0 <= j < i ==> commission_readable((#[trigger] items@[j]).tree())
                    && commission_reads(parts@[j], items@[j].tree()),
    {
        match read_commission(&items[i]) {
            Some(c) => parts.push(c),
            None => return None,
        }
    }
    Some(parts)
}

impl Model for CommissionSpec {
    open spec fn readable(t: Tree) -> bool {
        commission_readable(t)
    }

    open spec fn reads(self, t: Tree) -> bool {
        commission_reads(self, t)
    }

    fn read(v: &Json) -> (out: Option<CommissionSpec>) {
        read_commission(v)
    }
}

/// What the spread costs.
#[derive(Debug, Clone, Copy, PartialEq, Eq, Structural)]
pub enum SpreadSpec {
    /// Nothing.
    Free,
    /// Hundredths of a percent of the price.
    Bps { bps: Real },
    /// An amount.
    Absolute { amount: Real },
}

/// The spread that a tree is, where it is one.
pub open spec fn spread_of(t: Tree) -> Option<SpreadSpec> {
    match tag(t) {
        None => None,
        Some(kind) => if kind == "none"@ {
            if is_bare(t) {
                Some(SpreadSpec::Free)
            } else {
                None
            }
        } else if kind == "bps"@ {
            if is_number_record(t, "bps"@) {
                Some(SpreadSpec::Bps { bps: number_field(t, "bps"@, 0)->0 })
            } else {
                None
            }
        } else if kind == "absolute"@ {
            if is_number_record(t, "amount"@) {
                Some(SpreadSpec::Absolute { amount: number_field(t, "amount"@, 0)->0 })
            } else {
                None
            }
        } else {
            None
        },
    }
}

impl Model for SpreadSpec {
    open spec fn readable(t: Tree) -> bool {
        spread_of(t) is Some
    }

    open spec fn reads(self, t: Tree) -> bool {
        spread_of(t) == Some(self)
    }

    fn read(v: &Json) -> (out: Option<SpreadSpec>) {
        match tag_of(v) {
            None => None,
            Some(kind) => {
                if text::same(kind, "none") {
                    if bare(v) {
                        Some(SpreadSpec::Free)
                    } else {
                        None
                    }
                } else if text::same(kind, "bps") {
                    match read_number_record(v, "bps") {
                        Some(bps) => Some(SpreadSpec::Bps { bps }),
                        None => None,
                    }
                } else if text::same(kind, "absolute") {
                    match read_number_record(v, "amount") {
                        Some(amount) => Some(SpreadSpec::Absolute { amount }),
                        None => None,
                    }
                } else {
                    None
                }
            },
        }
    }
}

/// What slippage costs.
#[derive(Debug, Clone, Copy, PartialEq, Eq, Structural)]
pub enum SlippageSpec {
    /// Nothing.
    Free,
    /// Hundredths of a percent of the price.
    Bps { bps: Real, stop_multiplier: Option<Real> },
    /// A share of the bar's volume that the order takes.
    VolumeParticipation {
        coefficient: Real,
        exponent: Option<Real>,
        stop_multiplier: Option<Real>,
    },
}

/// The slippage that a tree is, where it is one.
pub open spec fn slippage_of(t: Tree) -> Option<SlippageSpec> {
    match tag(t) {
        None => None,
        Some(kind) => if kind == "none"@ {
            if is_bare(t) {
                Some(SlippageSpec::Free)
            } else {
                None
            }
        } else if kind == "bps"@ {
            match (
                is_record(t, true, seq!["bps"@, "stop_multiplier"@]),
                number_field(t, "bps"@, 0),
                optional_field(t, "stop_multiplier"@, 1),
            ) {
                (true, Some(bps), Some(stop_multiplier)) => Some(
                    SlippageSpec::Bps { bps, stop_multiplier },
                ),
                _ => None,
            }
        } else if kind == "volume_participation"@ {
            match (
                is_record(t, true, seq!["coefficient"@, "exponent"@, "stop_multiplier"@]),
                number_field(t, "coefficient"@, 0),
                optional_field(t, "exponent"@, 1),
                optional_field(t, "stop_multiplier"@, 2),
            ) {
                (true, Some(coefficient), Some(exponent), Some(stop_multiplier)) => Some(
                    SlippageSpec::VolumeParticipation { coefficient, exponent, stop_multiplier },
                ),
                _ => None,
            }
        } else {
            None
        },
    }
}

impl Model for SlippageSpec {
    open spec fn readable(t: Tree) -> bool {
        slippage_of(t) is Some
    }

    open spec fn reads(self, t: Tree) -> bool {
        slippage_of(t) == Some(self)
    }

    fn read(v: &Json) -> (out: Option<SlippageSpec>) {
        match tag_of(v) {
            None => None,
            Some(kind) => {
                if text::same(kind, "none") {
                    if bare(v) {
                        Some(SlippageSpec::Free)
                    } else {
                        None
                    }
                } else if text::same(kind, "bps") {
                    let names: Vec<&'static str> = two_names("bps", "stop_multiplier");
                    assert(names@.len() == names_of(names@).len());
                    match (
                        record(v, true, &names),
                        read_number(v, "bps", 0),
                        read_optional(v, "stop_multiplier", 1),
                    ) {
                        (true, Some(bps), Some(stop_multiplier)) => Some(
                            SlippageSpec::Bps { bps, stop_multiplier },
                        ),
                        _ => None,
                    }
                } else if text::same(kind, "volume_participation") {
                    let names: Vec<&'static str> = three_names(
                        "coefficient",
                        "exponent",
                        "stop_multiplier",
                    );
                    assert(names@.len() == names_of(names@).len());
                    match (
                        record(v, true, &names),
                        read_number(v, "coefficient", 0),
                        read_optional(v, "exponent", 1),
                        read_optional(v, "stop_multiplier", 2),
                    ) {
                        (true, Some(coefficient), Some(exponent), Some(stop_multiplier)) => Some(
                            SlippageSpec::VolumeParticipation {
                                coefficient,
                                exponent,
                                stop_multiplier,
                            },
                        ),
                        _ => None,
                    }
                } else {
                    None
                }
            },
        }
    }
}

// ---------------------------------------------------------------------------
// Settings
// ---------------------------------------------------------------------------

/// The model of one symbol at one cadence.
#[derive(Debug)]
pub struct ScopedEntry<T> {
    pub symbol: String,
    pub freq: String,
    pub model: T,
}

/// The models of one leg: a default, and those that override it.
#[derive(Debug)]
pub struct LegConfig<T> {
    pub default: Option<T>,
    pub by_symbol: OrdMap<String, T>,
    pub by_interval: OrdMap<String, T>,
    pub scoped: Vec<ScopedEntry<T>>,
}

/// The names of a leg's members.
pub open spec fn leg_names() -> Seq<Seq<char>> {
    seq!["default"@, "by_symbol"@, "by_interval"@, "scoped"@]
}

/// Whether a tree may stand for a leg's default: a model, or nothing.
pub open spec fn default_readable<T: Model>(t: Option<Tree>) -> bool {
    match t {
        None => true,
        Some(Tree::Null) => true,
        Some(t) => T::readable(t),
    }
}

/// Whether every value of an object is a model.
pub open spec fn values_readable<T: Model>(m: Map<Seq<char>, Tree>) -> bool {
    forall|k: Seq<char>| #[trigger] m.dom().contains(k) ==> T::readable(m[k])
}

/// Whether a tree may stand for a leg's models by name: an object of models, or
/// nothing.
pub open spec fn map_readable<T: Model>(t: Option<Tree>) -> bool {
    match t {
        None => true,
        Some(Tree::Object(m)) => values_readable::<T>(m),
        _ => false,
    }
}

/// Whether a tree is the entry of one symbol at one cadence.
pub open spec fn entry_readable<T: Model>(t: Tree) -> bool {
    is_record(t, false, seq!["symbol"@, "freq"@, "model"@]) && (field(t, false, "symbol"@, 0)
        matches Some(Tree::Text(_))) && (field(t, false, "freq"@, 1) matches Some(Tree::Text(_)))
        && (field(t, false, "model"@, 2) matches Some(m) && T::readable(m))
}

/// Whether all trees are such entries.
pub open spec fn entries_readable<T: Model>(items: Seq<Tree>) -> bool {
    forall|i: int| 0 <= i < items.len() ==> entry_readable::<T>(#[trigger] items[i])
}

/// Whether a tree may stand for a leg's scoped models: a list of entries, or
/// nothing.
pub open spec fn scoped_readable<T: Model>(t: Option<Tree>) -> bool {
    match t {
        None => true,
        Some(Tree::Array(items)) => entries_readable::<T>(items),
        _ => false,
    }
}

/// Whether a tree is a leg.
pub open spec fn leg_readable<T: Model>(t: Tree) -> bool {
    &&& is_record(t, false, leg_names())
    &&& default_readable::<T>(field(t, false, "default"@, 0))
    &&& map_readable::<T>(field(t, false, "by_symbol"@, 1))
    &&& map_readable::<T>(field(t, false, "by_interval"@, 2))
    &&& scoped_readable::<T>(field(t, false, "scoped"@, 3))
}

/// Whether a default is the one that a tree is.
pub open spec fn default_reads<T: Model>(d: Option<T>, t: Option<Tree>) -> bool {
    match t {
        None => d is None,
        Some(Tree::Null) => d is None,
        Some(t) => d matches Some(m) && m.reads(t),
    }
}

/// Whether models by name are those that an object is.
pub open spec fn values_read<T: Model>(o: OrdMap<String, T>, m: Map<Seq<char>, Tree>) -> bool {
    &&& o.wf()
    &&& forall|k: Seq<char>| #[trigger] o@.dom().contains(k) <==> m.dom().contains(k)
    &&& forall|k: Seq<char>| #[trigger] o@.dom().contains(k) ==> o@[k].reads(m[k])
}

/// The members of a tree; none where there is no object.
pub open spec fn object_of(t: Option<Tree>) -> Map<Seq<char>, Tree> {
    match t {
        Some(Tree::Object(m)) => m,
        _ => Map::empty(),
    }
}

/// The items of a tree; none where there is no list.
pub open spec fn items_of(t: Option<Tree>) -> Seq<Tree> {
    match t {
        Some(Tree::Array(items)) => items,
        _ => Seq::empty(),
    }
}

/// Whether an entry is the one that a tree is.
pub open spec fn entry_reads<T: Model>(e: ScopedEntry<T>, t: Tree) -> bool {
    &&& field(t, false, "symbol"@, 0) == Some(Tree::Text(e.symbol@))
    &&& field(t, false, "freq"@, 1) == Some(Tree::Text(e.freq@))
    &&& field(t, false, "model"@, 2) is Some
    &&& e.model.reads(field(t, false, "model"@, 2)->0)
}

/// Whether entries are those that a list is.
pub open spec fn entries_read<T: Model>(e: Seq<ScopedEntry<T>>, items: Seq<Tree>) -> bool {
    e.len() == items.len() && forall|i: int|
        0 <= i < items.len() ==> entry_reads(#[trigger] e[i], items[i])
}

impl<T: Model> LegConfig<T> {
    /// Whether this is the leg that a tree is.
    pub open spec fn reads(self, t: Tree) -> bool {
        &&& default_reads(self.default, field(t, false, "default"@, 0))
        &&& values_read(self.by_symbol, object_of(field(t, false, "by_symbol"@, 1)))
        &&& values_read(self.by_interval, object_of(field(t, false, "by_interval"@, 2)))
        &&& entries_read(self.scoped@, items_of(field(t, false, "scoped"@, 3)))
    }
}

fn read_default<T: Model>(v: Option<&Json>) -> (out: Option<Option<T>>)
    requires
        v matches Some(j) ==> j.wf(),
    ensures
        match out {
            Some(d) => default_readable::<T>(costs::tree_at(v)) && default_reads(
                d,
                costs::tree_at(v),
            ),
            None => !default_readable::<T>(costs::tree_at(v)),
        },
{
    match v {
        None => Some(None),
        Some(Json::Null) => Some(None),
        Some(j) => match T::read(j) {
            Some(m) => Some(Some(m)),
            None => None,
        },
    }
}

/// Whether a model by name is the one that an entry is.
spec fn pair_reads<T: Model>(p: (String, T), e: (String, Json)) -> bool {
    p.0@ == e.0@ && T::readable(e.1.tree()) && p.1.reads(e.1.tree())
}

fn read_values<T: Model>(v: Option<&Json>) -> (out: Option<OrdMap<String, T>>)
    requires
        v matches Some(j) ==> j.wf(),
    ensures
        match out {
            Some(o) => map_readable::<T>(costs::tree_at(v)) && values_read(
                o,
                object_of(costs::tree_at(v)),
            ),
            None => !map_readable::<T>(costs::tree_at(v)),
        },
{
    match v {
        None => {
            let out: OrdMap<String, T> = OrdMap::new();
            Some(out)
        },
        Some(Json::Object(o)) => {
            let ghost m = json::members(*o);
            let mut entries: Vec<(String, T)> = Vec::new();
            let n: usize = o.entries.len();
            proof {
                json::branches_at(o.entries@);
            }
            let mut i: usize = 0;
            while i < n
                invariant
                    i <= n,
                    n == o.entries@.len(),
                    json::sound(*o),
                    m == json::members(*o),
                    costs::tree_at(v) == Some(Tree::Object(m)),
                    forall|j: int|
                        0 <= j < n ==> m.dom().contains((#[trigger] o.entries@[j]).0@)
                            && m[o.entries@[j].0@] == o.entries@[j].1.tree(),
                    entries@.len() == i,
                    forall|j: int| 0 <= j < i ==> pair_reads(#[trigger] entries@[j], o.entries@[j]),
                decreases n - i,
            {
                assert(o.entries@[i as int].1.wf());
                match T::read(&o.entries[i].1) {
                    Some(model) => {
                        let ghost was = entries@;
                        entries.push((o.entries[i].0.clone(), model));
                        proof {
                            assert(pair_reads(entries@[i as int], o.entries@[i as int]));
                            assert forall|j: int| 0 <= j < i + 1 implies pair_reads(
                                #[trigger] entries@[j],
                                o.entries@[j],
                            ) by {
                                if j < i {
                                    assert(entries@[j] == was[j]);
                                }
                            }
                        }
                    },
                    None => {
                        proof {
                            let k = o.entries@[i as int].0@;
                            assert(m.dom().contains(k));
                            assert(!T::readable(m[k]));
                            assert(!values_readable::<T>(m));
                        }
                        return None;
                    },
                }
                i = i + 1;
            }
            let out: OrdMap<String, T> = OrdMap { entries };
            proof {
                values_are_read(*o, out);
            }
            Some(out)
        },
        Some(_) => None,
    }
}

proof fn values_are_read<T: Model>(o: OrdMap<String, Json>, out: OrdMap<String, T>)
    requires
        json::sound(o),
        out.entries@.len() == o.entries@.len(),
        forall|j: int|
            0 <= j < o.entries@.len() ==> pair_reads(#[trigger] out.entries@[j], o.entries@[j]),
    ensures
        values_readable::<T>(json::members(o)),
        values_read(out, json::members(o)),
{
    let e = o.entries@;
    let f = out.entries@;
    let m = json::members(o);
    json::branches_at(e);
    assert forall|i: int, j: int| 0 <= i < j < f.len() implies #[trigger] String::before(
        f[i].0.model(),
        f[j].0.model(),
    ) by {
        assert(String::before(e[i].0.model(), e[j].0.model()));
        assert(pair_reads(f[i], e[i]));
        assert(pair_reads(f[j], e[j]));
    }
    assert forall|k: Seq<char>| #[trigger] m.dom().contains(k) implies T::readable(m[k])
        && out@.dom().contains(k) by {
        assert(ordmap::map_of(e).dom().contains(k));
        let p = choose|p: int| ordmap::holds(e, k, p);
        assert(ordmap::holds(e, k, p));
        assert(pair_reads(f[p], e[p]));
        assert(m[e[p].0@] == e[p].1.tree());
        assert(ordmap::holds(f, k, p));
    }
    assert forall|k: Seq<char>| #[trigger] out@.dom().contains(k) implies m.dom().contains(k)
        && out@[k].reads(m[k]) by {
        let p = choose|p: int| ordmap::holds(f, k, p);
        assert(ordmap::holds(f, k, p));
        ordmap::place_is_unique(f, p);
        assert(pair_reads(f[p], e[p]));
        assert(m[e[p].0@] == e[p].1.tree());
    }
}

fn read_entry<T: Model>(v: &Json) -> (out: Option<ScopedEntry<T>>)
    requires
        v.wf(),
    ensures
        match out {
            Some(e) => entry_readable::<T>(v.tree()) && entry_reads(e, v.tree()),
            None => !entry_readable::<T>(v.tree()),
        },
{
    let names: Vec<&'static str> = three_names("symbol", "freq", "model");
    assert(names@.len() == names_of(names@).len());
    if !record(v, false, &names) {
        return None;
    }
    match (
        field_at(v, false, "symbol", 0),
        field_at(v, false, "freq", 1),
        field_at(v, false, "model", 2),
    ) {
        (Some(Json::Text(symbol)), Some(Json::Text(freq)), Some(model)) => match T::read(model) {
            Some(model) => Some(
                ScopedEntry { symbol: symbol.clone(), freq: freq.clone(), model },
            ),
            None => None,
        },
        _ => None,
    }
}

/// Whether an entry is readable and the one that a tree is.
spec fn item_reads<T: Model>(e: ScopedEntry<T>, t: Tree) -> bool {
    entry_readable::<T>(t) && entry_reads(e, t)
}

fn read_entries<T: Model>(v: Option<&Json>) -> (out: Option<Vec<ScopedEntry<T>>>)
    requires
        v matches Some(j) ==> j.wf(),
    ensures
        match out {
            Some(e) => scoped_readable::<T>(costs::tree_at(v)) && entries_read(
                e@,
                items_of(costs::tree_at(v)),
            ),
            None => !scoped_readable::<T>(costs::tree_at(v)),
        },
{
    let mut out: Vec<ScopedEntry<T>> = Vec::new();
    match v {
        None => Some(out),
        Some(Json::Array(items)) => {
            let ghost trees = json::forest(items@);
            let n: usize = items.len();
            proof {
                json::forest_at(items@);
            }
            let mut i: usize = 0;
            while i < n
                invariant
                    i <= n,
                    n == items@.len(),
                    v is Some,
                    v->0.wf(),
                    *(v->0) is Array,
                    v->0->Array_0 == *items,
                    trees == json::forest(items@),
                    costs::tree_at(v) == Some(Tree::Array(trees)),
                    trees.len() == n,
                    forall|j: int| 0 <= j < n ==> #[trigger] trees[j] == items@[j].tree(),
                    out@.len() == i,
                    forall|j: int| 0 <= j < i ==> item_reads(#[trigger] out@[j], trees[j]),
                decreases n - i,
            {
                assert(items@[i as int].wf());
                assert(trees[i as int] == items@[i as int].tree());
                match read_entry::<T>(&items[i]) {
                    Some(e) => {
                        let ghost was = out@;
                        out.push(e);
                        proof {
                            assert(item_reads(out@[i as int], trees[i as int]));
                            assert forall|j: int| 0 <= j < i + 1 implies item_reads(
                                #[trigger] out@[j],
                                trees[j],
                            ) by {
                                if j < i {
                                    assert(out@[j] == was[j]);
                                }
                            }
                        }
                    },
                    None => {
                        assert(!entry_readable::<T>(trees[i as int]));
                        assert(!entries_readable::<T>(trees));
                        return None;
                    },
                }
                i = i + 1;
            }
            proof {
                assert forall|j: int| 0 <= j < n implies entry_readable::<T>(
                    #[trigger] trees[j],
                ) by {
                    assert(item_reads(out@[j], trees[j]));
                }
                assert forall|j: int| 0 <= j < n implies entry_reads(
                    #[trigger] out@[j],
                    trees[j],
                ) by {
                    assert(item_reads(out@[j], trees[j]));
                }
            }
            Some(out)
        },
        Some(_) => None,
    }
}

impl<T: Model> LegConfig<T> {
    /// The leg without models.
    pub fn empty() -> (out: LegConfig<T>)
        ensures
            out.default is None,
            out.by_symbol.wf(),
            out.by_interval.wf(),
            out.by_symbol.entries@.len() == 0,
            out.by_interval.entries@.len() == 0,
            out.scoped@.len() == 0,
    {
        LegConfig {
            default: None,
            by_symbol: OrdMap::new(),
            by_interval: OrdMap::new(),
            scoped: Vec::new(),
        }
    }

    /// Read a leg.
    pub fn read(v: &Json) -> (out: Option<LegConfig<T>>)
        requires
            v.wf(),
        ensures
            match out {
                Some(c) => leg_readable::<T>(v.tree()) && c.reads(v.tree()),
                None => !leg_readable::<T>(v.tree()),
            },
    {
        let mut names: Vec<&'static str> = three_names("default", "by_symbol", "by_interval");
        assert(names@.len() == names_of(names@).len());
        names.push("scoped");
        assert(names_of(names@) =~= leg_names());
        if !record(v, false, &names) {
            return None;
        }
        match (
            read_default::<T>(field_at(v, false, "default", 0)),
            read_values::<T>(field_at(v, false, "by_symbol", 1)),
            read_values::<T>(field_at(v, false, "by_interval", 2)),
            read_entries::<T>(field_at(v, false, "scoped", 3)),
        ) {
            (Some(default), Some(by_symbol), Some(by_interval), Some(scoped)) => Some(
                LegConfig { default, by_symbol, by_interval, scoped },
            ),
            _ => None,
        }
    }

    /// Whether the models by name have their keys in order.
    pub open spec fn wf(self) -> bool {
        self.by_symbol.wf() && self.by_interval.wf()
    }

    /// Whether an entry is for a symbol at a cadence.
    pub open spec fn scoped_to(self, i: int, symbol: Seq<char>, freq: Seq<char>) -> bool {
        0 <= i < self.scoped@.len() && self.scoped@[i].symbol@ == symbol && self.scoped@[i].freq@
            == freq
    }

    /// Whether an entry is the last for a symbol at a cadence.
    pub open spec fn last_scoped_to(self, i: int, symbol: Seq<char>, freq: Seq<char>) -> bool {
        self.scoped_to(i, symbol, freq) && forall|j: int|
            i < j < self.scoped@.len() ==> !#[trigger] self.scoped_to(j, symbol, freq)
    }

    /// The model of a symbol at a cadence: that of the last entry for the two; else
    /// the symbol's; else the cadence's; else the default.
    pub open spec fn winner(self, symbol: Seq<char>, freq: Option<Frequency>) -> Option<T> {
        if freq matches Some(f) && exists|i: int| self.last_scoped_to(i, symbol, f.code()) {
            let i = choose|i: int| self.last_scoped_to(i, symbol, freq->0.code());
            Some(self.scoped@[i].model)
        } else if self.by_symbol@.dom().contains(symbol) {
            Some(self.by_symbol@[symbol])
        } else if freq matches Some(f) && self.by_interval@.dom().contains(f.code()) {
            Some(self.by_interval@[freq->0.code()])
        } else {
            self.default
        }
    }

    /// Pick the model of a symbol at a cadence.
    pub fn resolve(&self, symbol: &str, freq: Option<Frequency>) -> (out: Option<&T>)
        requires
            self.wf(),
        ensures
            match out {
                Some(m) => self.winner(symbol@, freq) == Some(*m),
                None => self.winner(symbol@, freq) is None,
            },
    {
        if let Some(f) = freq {
            let code: String = f.format();
            let mut i: usize = self.scoped.len();
            while i > 0
                invariant
                    i <= self.scoped@.len(),
                    code@ == f.code(),
                    freq == Some(f),
                    forall|j: int|
                        i <= j < self.scoped@.len() ==> !#[trigger] self.scoped_to(
                            j,
                            symbol@,
                            f.code(),
                        ),
                decreases i,
            {
                i = i - 1;
                if text::same(&self.scoped[i].symbol, symbol) && text::same(
                    &self.scoped[i].freq,
                    &code,
                ) {
                    proof {
                        assert(self.scoped_to(i as int, symbol@, f.code()));
                        assert(self.last_scoped_to(i as int, symbol@, f.code()));
                        let k = choose|k: int| self.last_scoped_to(k, symbol@, f.code());
                        assert(self.last_scoped_to(k, symbol@, f.code()));
                        if k < i {
                            assert(!self.scoped_to(i as int, symbol@, f.code()));
                        } else if k > i {
                            assert(!self.scoped_to(k, symbol@, f.code()));
                        }
                    }
                    return Some(&self.scoped[i].model);
                }
            }
            assert forall|k: int| !self.last_scoped_to(k, symbol@, f.code()) by {
                if self.last_scoped_to(k, symbol@, f.code()) {
                    assert(self.scoped_to(k, symbol@, f.code()));
                }
            }
        }
        if let Some(m) = self.by_symbol.get(&symbol.to_owned()) {
            return Some(m);
        }
        if let Some(f) = freq {
            if let Some(m) = self.by_interval.get(&f.format()) {
                return Some(m);
            }
        }
        self.default.as_ref()
    }

    /// Whether the leg has no model.
    pub open spec fn is_vacant(self) -> bool {
        self.default is None && self.by_symbol.entries@.len() == 0
            && self.by_interval.entries@.len() == 0 && self.scoped@.len() == 0
    }

    /// Whether the leg has no model.
    pub fn is_empty(&self) -> (out: bool)
        ensures
            out == self.is_vacant(),
    {
        self.default.is_none() && self.by_symbol.len() == 0 && self.by_interval.len() == 0
            && self.scoped.len() == 0
    }

    /// How many overrides the leg has.
    pub open spec fn overrides(self) -> nat {
        self.by_symbol.entries@.len() + self.by_interval.entries@.len() + self.scoped@.len()
    }
}

/// The cost models of a run: three legs.
#[derive(Debug)]
pub struct CostConfig {
    pub commission: LegConfig<CommissionSpec>,
    pub spread: LegConfig<SpreadSpec>,
    pub slippage: LegConfig<SlippageSpec>,
}

/// The models of one symbol at one cadence; a leg without one costs nothing.
#[derive(Debug)]
pub struct TradingCosts<'a> {
    pub commission: Option<&'a CommissionSpec>,
    pub spread: Option<&'a SpreadSpec>,
    pub slippage: Option<&'a SlippageSpec>,
}

/// Whether a tree of settings can be read.
pub open spec fn config_readable(m: Map<Seq<char>, Tree>) -> bool {
    leg_readable::<CommissionSpec>(m["commission"@]) && leg_readable::<SlippageSpec>(
        m["slippage"@],
    ) && leg_readable::<SpreadSpec>(m["spread"@])
}

/// The refusal of a tree of settings that cannot be read.
pub open spec fn unreadable(m: Map<Seq<char>, Tree>) -> Seq<char> {
    let name = if !leg_readable::<CommissionSpec>(m["commission"@]) {
        "commission"@
    } else if !leg_readable::<SlippageSpec>(m["slippage"@]) {
        "slippage"@
    } else {
        "spread"@
    };
    "interpreting the resolved --costs tree: the `"@ + name + "` leg cannot be read"@
}

impl CostConfig {
    /// Whether these are the models of a tree of settings.
    pub open spec fn reads(self, m: Map<Seq<char>, Tree>) -> bool {
        self.commission.reads(m["commission"@]) && self.spread.reads(m["spread"@])
            && self.slippage.reads(m["slippage"@])
    }

    /// Whether the models by name have their keys in order.
    pub open spec fn wf(self) -> bool {
        self.commission.wf() && self.spread.wf() && self.slippage.wf()
    }

    /// Whether there is no model at all.
    pub fn is_none(&self) -> (out: bool)
        ensures
            out == (self.commission.is_vacant() && self.spread.is_vacant()
                && self.slippage.is_vacant()),
    {
        self.commission.is_empty() && self.spread.is_empty() && self.slippage.is_empty()
    }

    /// Whether a leg has a default.
    pub fn has_any_default(&self) -> (out: bool)
        ensures
            out == (self.commission.default is Some || self.spread.default is Some
                || self.slippage.default is Some),
    {
        self.commission.default.is_some() || self.spread.default.is_some()
            || self.slippage.default.is_some()
    }

    /// How many overrides there are.
    pub fn scoped_count(&self) -> (out: usize)
        requires
            self.commission.overrides() + self.spread.overrides() + self.slippage.overrides()
                <= usize::MAX,
        ensures
            out == self.commission.overrides() + self.spread.overrides()
                + self.slippage.overrides(),
    {
        self.commission.by_symbol.len() + self.commission.by_interval.len()
            + self.commission.scoped.len() + self.spread.by_symbol.len()
            + self.spread.by_interval.len() + self.spread.scoped.len()
            + self.slippage.by_symbol.len() + self.slippage.by_interval.len()
            + self.slippage.scoped.len()
    }

    /// Pick the models of a symbol at a cadence.
    pub fn resolve<'a>(&'a self, symbol: &str, freq: Option<Frequency>) -> (out: TradingCosts<'a>)
        requires
            self.wf(),
        ensures
            match out.commission {
                Some(m) => self.commission.winner(symbol@, freq) == Some(*m),
                None => self.commission.winner(symbol@, freq) is None,
            },
            match out.spread {
                Some(m) => self.spread.winner(symbol@, freq) == Some(*m),
                None => self.spread.winner(symbol@, freq) is None,
            },
            match out.slippage {
                Some(m) => self.slippage.winner(symbol@, freq) == Some(*m),
                None => self.slippage.winner(symbol@, freq) is None,
            },
    {
        TradingCosts {
            commission: self.commission.resolve(symbol, freq),
            spread: self.spread.resolve(symbol, freq),
            slippage: self.slippage.resolve(symbol, freq),
        }
    }
}

/// Read a tree of settings.
pub fn interpret(tree: &OrdMap<String, Json>) -> (out: Result<CostConfig, String>)
    requires
        json::sound(*tree),
        costs::has_legs(json::members(*tree)),
    ensures
        match out {
            Ok(c) => config_readable(json::members(*tree)) && c.reads(json::members(*tree))
                && c.wf(),
            Err(e) => !config_readable(json::members(*tree)) && e@ == unreadable(
                json::members(*tree),
            ),
        },
{
    let ghost m = json::members(*tree);
    proof {
        assert(costs::is_leg("commission"@) && costs::is_leg("spread"@) && costs::is_leg(
            "slippage"@,
        ));
        assert(m.dom().contains("commission"@));
        assert(m.dom().contains("spread"@));
        assert(m.dom().contains("slippage"@));
    }
    let null: Json = Json::Null;
    let commission: &Json = match json::member(tree, "commission") {
        Some(v) => v,
        None => &null,
    };
    let spread: &Json = match json::member(tree, "spread") {
        Some(v) => v,
        None => &null,
    };
    let slippage: &Json = match json::member(tree, "slippage") {
        Some(v) => v,
        None => &null,
    };
    let name: &str = match LegConfig::<CommissionSpec>::read(commission) {
        None => "commission",
        Some(commission) => match LegConfig::<SlippageSpec>::read(slippage) {
            None => "slippage",
            Some(slippage) => match LegConfig::<SpreadSpec>::read(spread) {
                None => "spread",
                Some(spread) => {
                    return Ok(CostConfig { commission, spread, slippage });
                },
            },
        },
    };
    let mut message: String = "interpreting the resolved --costs tree: the `".to_owned();
    message.append(name);
    message.append("` leg cannot be read");
    Err(message)
}

/// The terms of all lists, in order.
pub open spec fn all_terms(specs: Seq<CostSpec>) -> Seq<CostTerm>
    decreases specs.len(),
{
    if specs.len() == 0 {
        seq![]
    } else {
        all_terms(specs.drop_last()) + specs.last().terms@
    }
}

/// Fold all terms of all lists, and read the tree that comes out.
pub fn config(specs: &[CostSpec]) -> (out: Result<CostConfig, String>)
    requires
        forall|i: int, j: int|
            0 <= i < specs@.len() && 0 <= j < specs@[i].terms@.len() ==> (
            #[trigger] specs@[i].terms@[j]).wf(),
    ensures
        match (out, costs::folded(costs::models(all_terms(specs@)))) {
            (Ok(c), Ok(m)) => config_readable(m) && c.reads(m) && c.wf(),
            (Err(e), Ok(m)) => !config_readable(m) && e@ == unreadable(m),
            (Err(e), Err(m)) => e@ == m,
            _ => false,
        },
{
    let ghost all = costs::models(all_terms(specs@));
    let mut tree: OrdMap<String, Json> = costs::empty_tree();
    let n: usize = specs.len();
    proof {
        assert(specs@.take(0) =~= Seq::<CostSpec>::empty());
        assert(costs::models(all_terms(specs@.take(0))) =~= Seq::<TermModel>::empty());
    }
    for i in 0..n
        invariant
            n == specs@.len(),
            all == costs::models(all_terms(specs@)),
            forall|a: int, b: int|
                0 <= a < specs@.len() && 0 <= b < specs@[a].terms@.len() ==> (
                #[trigger] specs@[a].terms@[b]).wf(),
            json::sound(tree),
            costs::has_legs(json::members(tree)),
            costs::folded(costs::models(all_terms(specs@.take(i as int)))) == Ok::<
                Map<Seq<char>, Tree>,
                Seq<char>,
            >(json::members(tree)),
    {
        let terms: &Vec<CostTerm> = &specs[i].terms;
        let ghost before = all_terms(specs@.take(i as int));
        let k: usize = terms.len();
        assert(before + terms@.take(0) =~= before);
        for j in 0..k
            invariant
                k == terms@.len(),
                n == specs@.len(),
                i < n,
                *terms == specs@[i as int].terms,
                all == costs::models(all_terms(specs@)),
                before == all_terms(specs@.take(i as int)),
                forall|a: int, b: int|
                    0 <= a < specs@.len() && 0 <= b < specs@[a].terms@.len() ==> (
                    #[trigger] specs@[a].terms@[b]).wf(),
                json::sound(tree),
                costs::has_legs(json::members(tree)),
                costs::folded(costs::models(before + terms@.take(j as int))) == Ok::<
                    Map<Seq<char>, Tree>,
                    Seq<char>,
                >(json::members(tree)),
        {
            let ghost now = costs::models(before + terms@.take(j + 1));
            proof {
                assert(specs@[i as int].terms@[j as int].wf());
                assert(now.drop_last() =~= costs::models(before + terms@.take(j as int)));
                assert(now.last() == terms@[j as int].model());
            }
            match costs::apply_term(&tree, &terms[j]) {
                Ok(t) => {
                    tree = t;
                },
                Err(e) => {
                    proof {
                        prefix_of_all(specs@, i as int, j + 1);
                        assert(costs::models(before + terms@.take(j + 1)) =~= all.take(
                            before.len() + j + 1,
                        ));
                        costs::fold_stays_wrong(all, before.len() + j + 1);
                    }
                    return Err(e);
                },
            }
        }
        proof {
            assert(terms@.take(k as int) =~= terms@);
            assert(specs@.take(i + 1).drop_last() =~= specs@.take(i as int));
        }
    }
    assert(specs@.take(n as int) =~= specs@);
    interpret(&tree)
}

proof fn prefix_of_all(specs: Seq<CostSpec>, i: int, j: int)
    requires
        0 <= i < specs.len(),
        0 <= j <= specs[i].terms@.len(),
    ensures
        all_terms(specs.take(i)).len() + j <= all_terms(specs).len(),
        all_terms(specs.take(i)) + specs[i].terms@.take(j) == all_terms(specs).take(
            all_terms(specs.take(i)).len() + j,
        ),
    decreases specs.len(),
{
    let rest = specs.drop_last();
    if i == specs.len() - 1 {
        assert(specs.take(i) =~= rest);
    } else {
        prefix_of_all(rest, i, j);
        assert(rest.take(i) =~= specs.take(i));
        assert(rest[i] == specs[i]);
    }
    assert(all_terms(specs.take(i)) + specs[i].terms@.take(j) =~= all_terms(specs).take(
        all_terms(specs.take(i)).len() + j,
    ));
}

// ---------------------------------------------------------------------------
// Laws
// ---------------------------------------------------------------------------

/// The last entry for a symbol at a cadence wins over everything.
pub proof fn last_scoped_entry_wins<T: Model>(
    leg: LegConfig<T>,
    i: int,
    symbol: Seq<char>,
    freq: Frequency,
)
    requires
        leg.last_scoped_to(i, symbol, freq.code()),
    ensures
        leg.winner(symbol, Some(freq)) == Some(leg.scoped@[i].model),
{
    let k = choose|k: int| leg.last_scoped_to(k, symbol, freq.code());
    assert(leg.last_scoped_to(k, symbol, freq.code()));
    if k < i {
        assert(!leg.scoped_to(i, symbol, freq.code()));
    } else if k > i {
        assert(!leg.scoped_to(k, symbol, freq.code()));
    }
}

/// Where no entry is for both, a symbol's model wins over a cadence's, and a
/// cadence's over the default.
pub proof fn specific_models_win<T: Model>(
    leg: LegConfig<T>,
    symbol: Seq<char>,
    freq: Option<Frequency>,
)
    requires
        freq matches Some(f) ==> forall|i: int| !#[trigger] leg.scoped_to(i, symbol, f.code()),
    ensures
        leg.by_symbol@.dom().contains(symbol) ==> leg.winner(symbol, freq) == Some(
            leg.by_symbol@[symbol],
        ),
        !leg.by_symbol@.dom().contains(symbol) && (freq matches Some(f)
            && leg.by_interval@.dom().contains(f.code())) ==> leg.winner(symbol, freq) == Some(
            leg.by_interval@[freq->0.code()],
        ),
        !leg.by_symbol@.dom().contains(symbol) && !(freq matches Some(f)
            && leg.by_interval@.dom().contains(f.code())) ==> leg.winner(symbol, freq)
            == leg.default,
{
    if let Some(f) = freq {
        assert forall|i: int| !leg.last_scoped_to(i, symbol, f.code()) by {
            assert(!leg.scoped_to(i, symbol, f.code()));
        }
    }
}

/// Without terms there is no model at all, on any leg.
pub proof fn no_terms_no_models(c: CostConfig)
    requires
        c.reads(costs::no_settings()),
        c.wf(),
    ensures
        c.commission.is_vacant() && c.spread.is_vacant() && c.slippage.is_vacant(),
{
    let m = costs::no_settings();
    let nothing = Tree::Object(Map::<Seq<char>, Tree>::empty());
    reveal_strlit("commission");
    reveal_strlit("spread");
    reveal_strlit("slippage");
    assert("commission"@[0] == 'c' && "spread"@[1] == 'p' && "slippage"@[1] == 'l');
    assert(m["commission"@] == nothing && m["spread"@] == nothing && m["slippage"@] == nothing);
    vacant(c.commission);
    vacant(c.spread);
    vacant(c.slippage);
}

proof fn vacant<T: Model>(leg: LegConfig<T>)
    requires
        leg.reads(Tree::Object(Map::<Seq<char>, Tree>::empty())),
        leg.wf(),
    ensures
        leg.is_vacant(),
{
    no_entries(leg.by_symbol);
    no_entries(leg.by_interval);
}

proof fn no_entries<T: Model>(o: OrdMap<String, T>)
    requires
        values_read(o, Map::<Seq<char>, Tree>::empty()),
    ensures
        o.entries@.len() == 0,
{
    if o.entries@.len() > 0 {
        ordmap::place_is_unique(o.entries@, 0);
        assert(o@.dom().contains(o.entries@[0].0@));
    }
}

/// A commission that is read is of the kind that its tag names, one to one, and has
/// the numbers and the models of the fields with its own names.
pub proof fn a_commission_is_what_its_tag_names(
    c: CommissionSpec,
    m: Map<Seq<char>, Tree>,
    kind: Seq<char>,
)
    requires
        commission_reads(c, Tree::Object(m)),
        m.dom().contains("kind"@),
        m["kind"@] == Tree::Text(kind),
    ensures
        c is Free <==> kind == "none"@,
        c is Fixed <==> kind == "fixed"@,
        c is Percentage <==> kind == "percentage"@,
        c is PerUnit <==> kind == "per_unit"@,
        c is Composite <==> kind == "composite"@,
        c is Max <==> kind == "max"@,
        c matches CommissionSpec::Fixed { amount } ==> m.dom().contains("amount"@)
            && m["amount"@] is Number && m["amount"@]->Number_1 == amount,
        c matches CommissionSpec::Percentage { rate } ==> m.dom().contains("rate"@)
            && m["rate"@] is Number && m["rate"@]->Number_1 == rate,
        c matches CommissionSpec::PerUnit { rate } ==> m.dom().contains("rate"@)
            && m["rate"@] is Number && m["rate"@]->Number_1 == rate,
        c matches CommissionSpec::Composite { parts } ==> m.dom().contains("parts"@) && (
        m["parts"@] matches Tree::Array(items) && items.len() == parts@.len() && forall|i: int|
            0 <= i < items.len() ==> commission_reads(#[trigger] parts@[i], items[i])),
        c matches CommissionSpec::Max { lhs, rhs } ==> m.dom().contains("lhs"@)
            && m.dom().contains("rhs"@) && commission_reads(*lhs, m["lhs"@]) && commission_reads(
            *rhs,
            m["rhs"@],
        ),
{
    kinds_differ();
}

/// A commission read from a list has its kind in front and its fields behind it, in
/// their order.
pub proof fn a_listed_commission_is_what_its_tag_names(
    c: CommissionSpec,
    items: Seq<Tree>,
    kind: Seq<char>,
)
    requires
        commission_reads(c, Tree::Array(items)),
        items.len() > 0,
        items[0] == Tree::Text(kind),
    ensures
        c is Free <==> kind == "none"@,
        c is Fixed <==> kind == "fixed"@,
        c is Percentage <==> kind == "percentage"@,
        c is PerUnit <==> kind == "per_unit"@,
        c is Composite <==> kind == "composite"@,
        c is Max <==> kind == "max"@,
        c matches CommissionSpec::Fixed { amount } ==> items.len() > 1 && items[1] is Number
            && items[1]->Number_1 == amount,
        c matches CommissionSpec::Percentage { rate } ==> items.len() > 1 && items[1] is Number
            && items[1]->Number_1 == rate,
        c matches CommissionSpec::PerUnit { rate } ==> items.len() > 1 && items[1] is Number
            && items[1]->Number_1 == rate,
        c matches CommissionSpec::Max { lhs, rhs } ==> items.len() > 2 && commission_reads(
            *lhs,
            items[1],
        ) && commission_reads(*rhs, items[2]),
{
    kinds_differ();
}

/// A commission as a tagged tree. Numbers are written with an empty text.
pub open spec fn commission_written(c: CommissionSpec) -> Tree
    decreases c,
{
    match c {
        CommissionSpec::Free => Tree::Object(map!["kind"@ => Tree::Text("none"@)]),
        CommissionSpec::Fixed { amount } => Tree::Object(
            map!["kind"@ => Tree::Text("fixed"@), "amount"@ => Tree::Number(seq![], amount)],
        ),
        CommissionSpec::Percentage { rate } => Tree::Object(
            map!["kind"@ => Tree::Text("percentage"@), "rate"@ => Tree::Number(seq![], rate)],
        ),
        CommissionSpec::PerUnit { rate } => Tree::Object(
            map!["kind"@ => Tree::Text("per_unit"@), "rate"@ => Tree::Number(seq![], rate)],
        ),
        CommissionSpec::Composite { parts } => Tree::Object(
            map!["kind"@ => Tree::Text("composite"@), "parts"@ => Tree::Array(
                Seq::new(
                    parts@.len(),
                    |i: int|
                        if 0 <= i < parts@.len() {
                            commission_written(parts@[i])
                        } else {
                            Tree::Null
                        },
                ),
            )],
        ),
        CommissionSpec::Max { lhs, rhs } => Tree::Object(
            map![
                "kind"@ => Tree::Text("max"@),
                "lhs"@ => commission_written(*lhs),
                "rhs"@ => commission_written(*rhs),
            ],
        ),
    }
}

/// Whether two commissions are the same, all the way down.
pub open spec fn same_commission(a: CommissionSpec, b: CommissionSpec) -> bool
    decreases a,
{
    match (a, b) {
        (CommissionSpec::Free, CommissionSpec::Free) => true,
        (CommissionSpec::Fixed { amount: x }, CommissionSpec::Fixed { amount: y }) => x == y,
        (CommissionSpec::Percentage { rate: x }, CommissionSpec::Percentage { rate: y }) => x == y,
        (CommissionSpec::PerUnit { rate: x }, CommissionSpec::PerUnit { rate: y }) => x == y,
        (CommissionSpec::Composite { parts: x }, CommissionSpec::Composite { parts: y }) => x@.len()
            == y@.len() && forall|i: int|
            0 <= i < x@.len() ==> same_commission(#[trigger] x@[i], y@[i]),
        (CommissionSpec::Max { lhs: a, rhs: b }, CommissionSpec::Max { lhs: c, rhs: d }) =>
            same_commission(*a, *c) && same_commission(*b, *d),
        _ => false,
    }
}

proof fn fields_differ()
    ensures
        "kind"@ != "amount"@,
        "kind"@ != "rate"@,
        "kind"@ != "parts"@,
        "kind"@ != "lhs"@,
        "kind"@ != "rhs"@,
        "lhs"@ != "rhs"@,
        "kind"@ != "bps"@,
        "kind"@ != "stop_multiplier"@,
        "kind"@ != "coefficient"@,
        "kind"@ != "exponent"@,
        "bps"@ != "stop_multiplier"@,
        "coefficient"@ != "exponent"@,
        "coefficient"@ != "stop_multiplier"@,
        "exponent"@ != "stop_multiplier"@,
{
    reveal_strlit("kind");
    reveal_strlit("amount");
    reveal_strlit("rate");
    reveal_strlit("parts");
    reveal_strlit("lhs");
    reveal_strlit("rhs");
    reveal_strlit("bps");
    reveal_strlit("stop_multiplier");
    reveal_strlit("coefficient");
    reveal_strlit("exponent");
    assert("kind"@[0] == 'k');
    assert("amount"@[0] == 'a');
    assert("rate"@[0] == 'r');
    assert("parts"@[0] == 'p');
    assert("lhs"@[0] == 'l');
    assert("rhs"@[0] == 'r');
    assert("bps"@[0] == 'b');
    assert("stop_multiplier"@[0] == 's');
    assert("coefficient"@[0] == 'c');
    assert("exponent"@[0] == 'e');
}

proof fn only_itself_is_read(c: CommissionSpec, d: CommissionSpec)
    requires
        commission_reads(d, commission_written(c)),
    ensures
        same_commission(c, d),
    decreases c,
{
    kinds_differ();
    fields_differ();
    match c {
        CommissionSpec::Composite { parts } => {
            let items = commission_written(c)->Object_0["parts"@]->Array_0;
            let others = d->parts;
            assert forall|i: int| 0 <= i < parts@.len() implies same_commission(
                #[trigger] parts@[i],
                others@[i],
            ) by {
                assert(items[i] == commission_written(parts@[i]));
                assert(commission_reads(others@[i], items[i]));
                only_itself_is_read(parts@[i], others@[i]);
            }
        },
        CommissionSpec::Max { lhs, rhs } => {
            only_itself_is_read(*lhs, *(d->lhs));
            only_itself_is_read(*rhs, *(d->rhs));
        },
        _ => {
            assert(tag(commission_written(c)) is Some);
        },
    }
}

/// Writing a commission as a tagged tree and reading that gives the commission back.
pub proof fn a_written_commission_reads_back(c: CommissionSpec)
    ensures
        commission_readable(commission_written(c)),
        commission_reads(c, commission_written(c)),
        forall|d: CommissionSpec|
            commission_reads(d, commission_written(c)) ==> #[trigger] same_commission(c, d),
    decreases c,
{
    kinds_differ();
    fields_differ();
    let t = commission_written(c);
    let m = t->Object_0;
    match c {
        CommissionSpec::Free => {
            assert(tag(t) == Some("none"@));
        },
        CommissionSpec::Fixed { amount } => {
            assert(seq!["amount"@].contains("amount"@)) by {
                assert(seq!["amount"@][0] == "amount"@);
            }
        },
        CommissionSpec::Composite { parts } => {
            assert(seq!["parts"@].contains("parts"@)) by {
                assert(seq!["parts"@][0] == "parts"@);
            }
            let items = m["parts"@]->Array_0;
            assert forall|i: int| 0 <= i < parts@.len() implies commission_readable(
                #[trigger] items[i],
            ) && commission_reads(parts@[i], items[i]) by {
                assert(items[i] == commission_written(parts@[i]));
                a_written_commission_reads_back(parts@[i]);
            }
            assert(all_readable(items));
        },
        CommissionSpec::Max { lhs, rhs } => {
            assert(seq!["lhs"@, "rhs"@].contains("lhs"@)) by {
                assert(seq!["lhs"@, "rhs"@][0] == "lhs"@);
            }
            assert(seq!["lhs"@, "rhs"@].contains("rhs"@)) by {
                assert(seq!["lhs"@, "rhs"@][1] == "rhs"@);
            }
            a_written_commission_reads_back(*lhs);
            a_written_commission_reads_back(*rhs);
        },
        _ => {
            assert(seq!["rate"@].contains("rate"@)) by {
                assert(seq!["rate"@][0] == "rate"@);
            }
        },
    }
    assert forall|d: CommissionSpec|
        commission_reads(d, commission_written(c)) implies #[trigger] same_commission(c, d) by {
        only_itself_is_read(c, d);
    }
}

/// A spread as a tagged tree.
pub open spec fn spread_written(s: SpreadSpec) -> Tree {
    match s {
        SpreadSpec::Free => Tree::Object(map!["kind"@ => Tree::Text("none"@)]),
        SpreadSpec::Bps { bps } => Tree::Object(
            map!["kind"@ => Tree::Text("bps"@), "bps"@ => Tree::Number(seq![], bps)],
        ),
        SpreadSpec::Absolute { amount } => Tree::Object(
            map!["kind"@ => Tree::Text("absolute"@), "amount"@ => Tree::Number(seq![], amount)],
        ),
    }
}

/// Writing a spread as a tagged tree and reading that gives the spread back.
pub proof fn a_written_spread_reads_back(s: SpreadSpec)
    ensures
        spread_of(spread_written(s)) == Some(s),
{
    kinds_differ();
    fields_differ();
    assert(seq!["bps"@].contains("bps"@)) by {
        assert(seq!["bps"@][0] == "bps"@);
    }
    assert(seq!["amount"@].contains("amount"@)) by {
        assert(seq!["amount"@][0] == "amount"@);
    }
}

/// A spread that is read is of the kind that its tag names.
pub proof fn a_spread_is_what_its_tag_names(
    s: SpreadSpec,
    m: Map<Seq<char>, Tree>,
    kind: Seq<char>,
)
    requires
        spread_of(Tree::Object(m)) == Some(s),
        m.dom().contains("kind"@),
        m["kind"@] == Tree::Text(kind),
    ensures
        s is Free <==> kind == "none"@,
        s is Bps <==> kind == "bps"@,
        s is Absolute <==> kind == "absolute"@,
        s matches SpreadSpec::Bps { bps } ==> m.dom().contains("bps"@) && m["bps"@] is Number
            && m["bps"@]->Number_1 == bps,
        s matches SpreadSpec::Absolute { amount } ==> m.dom().contains("amount"@)
            && m["amount"@] is Number && m["amount"@]->Number_1 == amount,
{
    kinds_differ();
}

/// A number that is there, or null.
pub open spec fn number_or_null(x: Option<Real>) -> Tree {
    match x {
        Some(x) => Tree::Number(seq![], x),
        None => Tree::Null,
    }
}

/// Slippage as a tagged tree.
pub open spec fn slippage_written(s: SlippageSpec) -> Tree {
    match s {
        SlippageSpec::Free => Tree::Object(map!["kind"@ => Tree::Text("none"@)]),
        SlippageSpec::Bps { bps, stop_multiplier } => Tree::Object(
            map![
                "kind"@ => Tree::Text("bps"@),
                "bps"@ => Tree::Number(seq![], bps),
                "stop_multiplier"@ => number_or_null(stop_multiplier),
            ],
        ),
        SlippageSpec::VolumeParticipation { coefficient, exponent, stop_multiplier } =>
            Tree::Object(
            map![
                "kind"@ => Tree::Text("volume_participation"@),
                "coefficient"@ => Tree::Number(seq![], coefficient),
                "exponent"@ => number_or_null(exponent),
                "stop_multiplier"@ => number_or_null(stop_multiplier),
            ],
        ),
    }
}

/// Writing slippage as a tagged tree and reading that gives the slippage back, and a
/// null says no more than a key that is left out.
pub proof fn written_slippage_reads_back(s: SlippageSpec)
    ensures
        slippage_of(slippage_written(s)) == Some(s),
        s matches SlippageSpec::Bps { bps, stop_multiplier: None } ==> slippage_of(
            Tree::Object(slippage_written(s)->Object_0.remove("stop_multiplier"@)),
        ) == Some(s),
        s matches SlippageSpec::VolumeParticipation { coefficient, exponent: None, stop_multiplier }
            ==> slippage_of(Tree::Object(slippage_written(s)->Object_0.remove("exponent"@)))
            == Some(s),
        s matches SlippageSpec::VolumeParticipation { coefficient, exponent, stop_multiplier: None }
            ==> slippage_of(
            Tree::Object(slippage_written(s)->Object_0.remove("stop_multiplier"@)),
        ) == Some(s),
{
    kinds_differ();
    fields_differ();
    let two = seq!["bps"@, "stop_multiplier"@];
    assert(two.contains("bps"@)) by {
        assert(two[0] == "bps"@);
    }
    assert(two.contains("stop_multiplier"@)) by {
        assert(two[1] == "stop_multiplier"@);
    }
    let three = seq!["coefficient"@, "exponent"@, "stop_multiplier"@];
    assert(three.contains("coefficient"@)) by {
        assert(three[0] == "coefficient"@);
    }
    assert(three.contains("exponent"@)) by {
        assert(three[1] == "exponent"@);
    }
    assert(three.contains("stop_multiplier"@)) by {
        assert(three[2] == "stop_multiplier"@);
    }
}

/// What a leg's settings say of a symbol at a cadence is what the leg that is read
/// from them gives: the last entry for the two, else what stands under the symbol,
/// else what stands under the cadence, else the default, else nothing.
pub proof fn settings_are_resolved<T: Model>(
    leg: LegConfig<T>,
    m: Map<Seq<char>, Tree>,
    symbol: Seq<char>,
    freq: Frequency,
)
    requires
        leg.reads(Tree::Object(m)),
        leg.wf(),
        !m.dom().contains("scoped"@),
    ensures
        m.dom().contains("by_symbol"@) && (m["by_symbol"@] matches Tree::Object(o)
            && o.dom().contains(symbol)) ==> (leg.winner(symbol, Some(freq)) matches Some(x)
            && x.reads(m["by_symbol"@]->Object_0[symbol])) && leg.winner(symbol, None)
            == leg.winner(symbol, Some(freq)),
        !(m.dom().contains("by_symbol"@)) && m.dom().contains("by_interval"@) && (
        m["by_interval"@] matches Tree::Object(o) && o.dom().contains(freq.code())) ==> (leg.winner(
            symbol,
            Some(freq),
        ) matches Some(x) && x.reads(m["by_interval"@]->Object_0[freq.code()])),
        !m.dom().contains("by_symbol"@) && !m.dom().contains("by_interval"@) && m.dom().contains(
            "default"@,
        ) && !(m["default"@] is Null) ==> (leg.winner(symbol, Some(freq)) matches Some(x)
            && x.reads(m["default"@])) && (leg.winner(symbol, None) matches Some(x) && x.reads(
            m["default"@],
        )),
        !m.dom().contains("by_symbol"@) && !m.dom().contains("by_interval"@) && (
        !m.dom().contains("default"@) || m["default"@] is Null) ==> leg.winner(
            symbol,
            Some(freq),
        ) is None && leg.winner(symbol, None) is None,
{
    assert forall|i: int| !#[trigger] leg.scoped_to(i, symbol, freq.code()) by {}
    specific_models_win(leg, symbol, Some(freq));
    specific_models_win(leg, symbol, None);
}

/// An entry for a symbol at a cadence is resolved before all else, and the last one
/// for the two before the others. It says nothing of other symbols or cadences.
pub proof fn scoped_settings_are_resolved<T: Model>(
    leg: LegConfig<T>,
    m: Map<Seq<char>, Tree>,
    items: Seq<Tree>,
    i: int,
    entry: Map<Seq<char>, Tree>,
    symbol: Seq<char>,
    freq: Frequency,
)
    requires
        leg.reads(Tree::Object(m)),
        leg.wf(),
        m.dom().contains("scoped"@),
        m["scoped"@] == Tree::Array(items),
        0 <= i < items.len(),
        items[i] == Tree::Object(entry),
        entry.dom().contains("symbol"@) && entry.dom().contains("freq"@) && entry.dom().contains(
            "model"@,
        ),
        entry["symbol"@] == Tree::Text(symbol),
        entry["freq"@] == Tree::Text(freq.code()),
        i == items.len() - 1,
    ensures
        leg.winner(symbol, Some(freq)) matches Some(x) && x.reads(entry["model"@]),
{
    assert(entry_reads(leg.scoped@[i], items[i]));
    assert(leg.last_scoped_to(i, symbol, freq.code()));
    last_scoped_entry_wins(leg, i, symbol, freq);
}

} // verus!
