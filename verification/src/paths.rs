//! Directories by their parts, so that texts which spell one directory are one key.
//!
//! Parts are separated by `/`. Doubled and trailing separators say nothing, and
//! neither does a `.`, but for one at the very beginning.

use vstd::prelude::*;

use crate::ordmap::Key;
use crate::text;

verus! {

/// One part of a path. The variants stand in ascending order.
#[derive(Debug)]
pub enum Part {
    /// The separator at the beginning.
    Root,
    /// A `.` at the beginning.
    Here,
    /// A `..`.
    Up,
    /// A name.
    Named(String),
}

/// What a part stands for.
pub enum PartModel {
    Root,
    Here,
    Up,
    Named(Seq<char>),
}

impl View for Part {
    type V = PartModel;

    open spec fn view(&self) -> PartModel {
        match self {
            Part::Root => PartModel::Root,
            Part::Here => PartModel::Here,
            Part::Up => PartModel::Up,
            Part::Named(name) => PartModel::Named(name@),
        }
    }
}

// ---------------------------------------------------------------------------
// The parts of a text
// ---------------------------------------------------------------------------

/// The part that a piece between separators is, where it is one.
pub open spec fn part_of(piece: Seq<char>) -> Option<PartModel> {
    if piece.len() == 0 || piece == "."@ {
        None
    } else if piece == ".."@ {
        Some(PartModel::Up)
    } else {
        Some(PartModel::Named(piece))
    }
}

/// The parts that pieces between separators are, in order.
pub open spec fn parts_among(pieces: Seq<Seq<char>>) -> Seq<PartModel>
    decreases pieces.len(),
{
    if pieces.len() == 0 {
        seq![]
    } else {
        match part_of(pieces.last()) {
            Some(part) => parts_among(pieces.drop_last()).push(part),
            None => parts_among(pieces.drop_last()),
        }
    }
}

/// The part that only the beginning of a path can be.
pub open spec fn lead(path: Seq<char>) -> Seq<PartModel> {
    if path.len() > 0 && path[0] == '/' {
        seq![PartModel::Root]
    } else if text::pieces(path, '/')[0] == "."@ {
        seq![PartModel::Here]
    } else {
        seq![]
    }
}

/// The parts of a path.
pub open spec fn parts_of(path: Seq<char>) -> Seq<PartModel> {
    lead(path) + parts_among(text::pieces(path, '/'))
}

// ---------------------------------------------------------------------------
// The order of paths
// ---------------------------------------------------------------------------

/// The place of a part's kind among the kinds.
pub open spec fn rank(part: PartModel) -> int {
    match part {
        PartModel::Root => 0,
        PartModel::Here => 1,
        PartModel::Up => 2,
        PartModel::Named(_) => 3,
    }
}

/// Whether a part comes before another: by kind, and names as texts.
pub open spec fn part_lt(a: PartModel, b: PartModel) -> bool {
    match (a, b) {
        (PartModel::Named(x), PartModel::Named(y)) => text::text_lt(x, y),
        _ => rank(a) < rank(b),
    }
}

/// `a` and `b` agree before place `k`, and at `k` either `a` has ended while `b`
/// goes on, or the part of `a` is the smaller one.
pub open spec fn splits_below(a: Seq<PartModel>, b: Seq<PartModel>, k: int) -> bool {
    &&& 0 <= k <= a.len()
    &&& k < b.len()
    &&& forall|i: int| 0 <= i < k ==> a[i] == b[i]
    &&& k == a.len() || part_lt(a[k], b[k])
}

/// Whether a path comes before another: part by part.
pub open spec fn path_lt(a: Seq<PartModel>, b: Seq<PartModel>) -> bool {
    exists|k: int| splits_below(a, b, k)
}

proof fn part_lt_is_strict(a: PartModel)
    ensures
        !part_lt(a, a),
{
    if let PartModel::Named(x) = a {
        text::text_lt_irreflexive(x);
    }
}

proof fn part_lt_chains(a: PartModel, b: PartModel, c: PartModel)
    requires
        part_lt(a, b),
        part_lt(b, c),
    ensures
        part_lt(a, c),
{
    if let (PartModel::Named(x), PartModel::Named(y), PartModel::Named(z)) = (a, b, c) {
        text::text_lt_transitive(x, y, z);
    }
}

proof fn part_lt_decides(a: PartModel, b: PartModel)
    ensures
        a == b || part_lt(a, b) || part_lt(b, a),
{
    if let (PartModel::Named(x), PartModel::Named(y)) = (a, b) {
        text::text_lt_total(x, y);
    }
}

proof fn path_lt_decides_from(a: Seq<PartModel>, b: Seq<PartModel>, k: int)
    requires
        0 <= k <= a.len(),
        k <= b.len(),
        forall|i: int| 0 <= i < k ==> a[i] == b[i],
    ensures
        a == b || path_lt(a, b) || path_lt(b, a),
    decreases a.len() - k,
{
    if k < a.len() && k < b.len() {
        part_lt_decides(a[k], b[k]);
        if a[k] == b[k] {
            path_lt_decides_from(a, b, k + 1);
        } else if part_lt(a[k], b[k]) {
            assert(splits_below(a, b, k));
        } else {
            assert(splits_below(b, a, k));
        }
    } else if k < b.len() {
        assert(splits_below(a, b, k));
    } else if k < a.len() {
        assert(splits_below(b, a, k));
    } else {
        assert(a =~= b);
    }
}

/// Whether two parts are the same.
fn same_part(a: &Part, b: &Part) -> (out: bool)
    ensures
        out == (a@ == b@),
{
    match (a, b) {
        (Part::Root, Part::Root) => true,
        (Part::Here, Part::Here) => true,
        (Part::Up, Part::Up) => true,
        (Part::Named(x), Part::Named(y)) => text::same(x, y),
        _ => false,
    }
}

/// Whether a part comes before another.
fn less_part(a: &Part, b: &Part) -> (out: bool)
    ensures
        out == part_lt(a@, b@),
{
    match (a, b) {
        (Part::Named(x), Part::Named(y)) => text::less(x, y),
        (Part::Named(_), _) => false,
        (_, Part::Named(_)) => true,
        (Part::Up, _) => false,
        (_, Part::Up) => true,
        (Part::Root, Part::Here) => true,
        _ => false,
    }
}

// ---------------------------------------------------------------------------
// Directories
// ---------------------------------------------------------------------------

/// A directory, by its parts.
#[derive(Debug)]
pub struct Directory {
    pub parts: Vec<Part>,
}

/// What the parts of a list stand for.
pub open spec fn part_models(parts: Seq<Part>) -> Seq<PartModel> {
    Seq::new(parts.len(), |i: int| parts[i]@)
}

impl Key for Directory {
    type Model = Seq<PartModel>;

    open spec fn model(&self) -> Seq<PartModel> {
        part_models(self.parts@)
    }

    open spec fn before(a: Seq<PartModel>, b: Seq<PartModel>) -> bool {
        path_lt(a, b)
    }

    proof fn before_is_strict(a: Seq<PartModel>) {
        assert forall|k: int| !splits_below(a, a, k) by {
            if 0 <= k < a.len() {
                part_lt_is_strict(a[k]);
            }
        }
    }

    proof fn before_chains(a: Seq<PartModel>, b: Seq<PartModel>, c: Seq<PartModel>) {
        let k = choose|k: int| splits_below(a, b, k);
        let m = choose|m: int| splits_below(b, c, m);
        let n = if k <= m {
            k
        } else {
            m
        };
        if k == m && k < a.len() {
            part_lt_chains(a[k], b[k], c[k]);
        }
        assert(splits_below(a, c, n));
    }

    proof fn before_decides(a: Seq<PartModel>, b: Seq<PartModel>) {
        path_lt_decides_from(a, b, 0);
    }

    fn precedes(&self, other: &Directory) -> (out: bool) {
        let a: &Vec<Part> = &self.parts;
        let b: &Vec<Part> = &other.parts;
        let ghost x = self.model();
        let ghost y = other.model();
        let mut i: usize = 0;
        while i < a.len() && i < b.len() && same_part(&a[i], &b[i])
            invariant
                x == part_models(a@),
                y == part_models(b@),
                i <= a@.len(),
                i <= b@.len(),
                forall|j: int| 0 <= j < i ==> x[j] == y[j],
            decreases a@.len() - i,
        {
            i = i + 1;
        }
        if i < b.len() && (i == a.len() || less_part(&a[i], &b[i])) {
            assert(splits_below(x, y, i as int));
            true
        } else {
            assert forall|k: int| !splits_below(x, y, k) by {
                if splits_below(x, y, k) {
                    if k < i {
                        part_lt_is_strict(x[k]);
                    } else if k > i {
                        assert(x[i as int] == y[i as int]);
                    }
                }
            }
            false
        }
    }
}

impl Directory {
    /// The directory that a text spells.
    pub fn parse(path: &str) -> (out: Directory)
        ensures
            out.model() == parts_of(path@),
    {
        let chars: Vec<char> = text::chars_of(path);
        let split: Vec<String> = text::split(path, '/');
        let ghost pieces = text::pieces(path@, '/');
        let mut parts: Vec<Part> = Vec::new();
        if chars.len() > 0 && chars[0] == '/' {
            parts.push(Part::Root);
        } else if split.len() > 0 && text::same(&split[0], ".") {
            assert(pieces[0] == split@[0]@);
            parts.push(Part::Here);
        } else {
            assert(pieces.len() > 0);
            assert(pieces[0] == split@[0]@);
        }
        assert(part_models(parts@) =~= lead(path@));
        let n: usize = split.len();
        assert(pieces.take(0) =~= Seq::<Seq<char>>::empty());
        assert(part_models(parts@) =~= lead(path@) + parts_among(pieces.take(0)));
        for i in 0..n
            invariant
                n == split@.len(),
                pieces == text::texts(split@),
                part_models(parts@) == lead(path@) + parts_among(pieces.take(i as int)),
        {
            let piece: &String = &split[i];
            let ghost was = parts@;
            assert(pieces.take(i + 1).drop_last() =~= pieces.take(i as int));
            assert(pieces.take(i + 1).last() == piece@);
            if text::chars_of(piece).len() == 0 || text::same(piece, ".") {
            } else if text::same(piece, "..") {
                parts.push(Part::Up);
                assert(part_models(parts@) =~= part_models(was).push(PartModel::Up));
            } else {
                parts.push(Part::Named(piece.clone()));
                assert(part_models(parts@) =~= part_models(was).push(PartModel::Named(piece@)));
            }
            assert(part_models(parts@) =~= lead(path@) + parts_among(pieces.take(i + 1)));
        }
        assert(pieces.take(n as int) =~= pieces);
        Directory { parts }
    }
}

// ---------------------------------------------------------------------------
// Laws
// ---------------------------------------------------------------------------

/// The pieces of two texts with a separator between them are those of the one and
/// then those of the other.
proof fn pieces_go_on(a: Seq<char>, b: Seq<char>)
    ensures
        text::pieces(a.push('/') + b, '/') == text::pieces(a, '/') + text::pieces(b, '/'),
    decreases a.len(),
{
    let whole = a.push('/') + b;
    let p = text::position(a, '/');
    let q = text::position(whole, '/');
    text::position_is_first(a, '/');
    text::position_is_first(whole, '/');
    assert(whole[a.len() as int] == '/');
    if p < a.len() {
        assert(whole[p] == a[p]);
        if q < p {
            assert(whole[q] == a[q]);
        }
        assert(q == p);
        let rest = a.skip(p + 1);
        pieces_go_on(rest, b);
        assert(whole.skip(p + 1) =~= rest.push('/') + b);
        assert(whole.take(p) =~= a.take(p));
    } else {
        if q < a.len() {
            assert(whole[q] == a[q]);
        }
        assert(q == a.len());
        assert(whole.take(q) =~= a);
        assert(whole.skip(q + 1) =~= b);
    }
    assert(text::pieces(whole, '/') =~= text::pieces(a, '/') + text::pieces(b, '/'));
}

proof fn parts_among_join(a: Seq<Seq<char>>, b: Seq<Seq<char>>)
    ensures
        parts_among(a + b) == parts_among(a) + parts_among(b),
    decreases b.len(),
{
    if b.len() == 0 {
        assert(a + b =~= a);
    } else {
        assert((a + b).drop_last() =~= a + b.drop_last());
        parts_among_join(a, b.drop_last());
    }
    assert(parts_among(a + b) =~= parts_among(a) + parts_among(b));
}

/// Behind a separator a path goes on with the parts of what stands there, and a
/// second separator, or a `.`, adds none.
pub proof fn a_path_goes_on(a: Seq<char>, b: Seq<char>)
    requires
        a.len() > 0,
    ensures
        parts_of(a.push('/') + b) == parts_of(a) + parts_among(text::pieces(b, '/')),
        parts_of(a.push('/')) == parts_of(a),
        parts_of(a.push('/').push('.')) == parts_of(a),
        parts_of(a.push('/').push('/') + b) == parts_of(a.push('/') + b),
        parts_of(a.push('/').push('.').push('/') + b) == parts_of(a.push('/') + b),
{
    joins(a, b);
    reveal_strlit(".");
    let none = Seq::<char>::empty();
    let dot = seq!['.'];
    joins(a, none);
    assert(a.push('/') + none =~= a.push('/'));
    assert(text::pieces(none, '/') =~= seq![none]);
    only(none);
    joins(a, dot);
    assert(a.push('/') + dot =~= a.push('/').push('.'));
    text::position_is_first(dot, '/');
    assert(text::pieces(dot, '/') =~= seq![dot]);
    assert(dot =~= "."@);
    only(dot);
    joins(a.push('/'), b);
    joins(a.push('/').push('.'), b);
}

proof fn joins(a: Seq<char>, b: Seq<char>)
    requires
        a.len() > 0,
    ensures
        parts_of(a.push('/') + b) == parts_of(a) + parts_among(text::pieces(b, '/')),
{
    let whole = a.push('/') + b;
    pieces_go_on(a, b);
    parts_among_join(text::pieces(a, '/'), text::pieces(b, '/'));
    assert(whole[0] == a[0]);
    assert(text::pieces(whole, '/')[0] == text::pieces(a, '/')[0]);
    assert(parts_of(whole) =~= parts_of(a) + parts_among(text::pieces(b, '/')));
}

proof fn only(piece: Seq<char>)
    requires
        part_of(piece) is None,
    ensures
        parts_among(seq![piece]) == Seq::<PartModel>::empty(),
{
    assert(seq![piece].drop_last() =~= Seq::<Seq<char>>::empty());
    assert(seq![piece].last() == piece);
    assert(parts_among(Seq::<Seq<char>>::empty()) =~= Seq::<PartModel>::empty());
}

} // verus!
