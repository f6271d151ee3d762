//! Settings of trading costs: a list of terms, each of them a preset, a setter of
//! one key or the word that resets everything, folded from the first to the last
//! into one tree, and the tree read as the cost models of each symbol and
//! cadence.

use vstd::prelude::*;

use crate::calendar;
use crate::calendar::{Scope, ScopeModel};
use crate::frequency;
use crate::frequency::Frequency;
use crate::convert;
use crate::json;
use crate::json::{Json, Tree};
use crate::number::Real;
use crate::ordmap::OrdMap;
use crate::text;

verus! {

// ---------------------------------------------------------------------------
// Splitting a list of terms
// ---------------------------------------------------------------------------

/// How far a list of terms has been split.
pub struct SplitState {
    /// The terms that a comma has closed.
    pub closed: Seq<Seq<char>>,
    /// What stands after the last such comma.
    pub open: Seq<char>,
    /// How many brackets are open.
    pub depth: int,
    /// Whether a quoted text is open.
    pub quoted: bool,
}

/// How a list of terms is split up to its end, or the bracket that closes more
/// than was opened. A comma splits outside brackets and quotes; a quote after a
/// backslash closes nothing.
pub open spec fn split_state(s: Seq<char>) -> Result<SplitState, char>
    decreases s.len(),
{
    if s.len() == 0 {
        Ok(SplitState { closed: seq![], open: seq![], depth: 0, quoted: false })
    } else {
        match split_state(s.drop_last()) {
            Err(c) => Err(c),
            Ok(st) => {
                let c = s.last();
                let more = st.open.push(c);
                if st.quoted {
                    let escaped = s.len() >= 2 && s[s.len() - 2] == '\\';
                    Ok(SplitState { open: more, quoted: c != '"' || escaped, ..st })
                } else if c == '"' {
                    Ok(SplitState { open: more, quoted: true, ..st })
                } else if c == '{' || c == '[' {
                    Ok(SplitState { open: more, depth: st.depth + 1, ..st })
                } else if c == '}' || c == ']' {
                    if st.depth <= 0 {
                        Err(c)
                    } else {
                        Ok(SplitState { open: more, depth: st.depth - 1, ..st })
                    }
                } else if c == ',' && st.depth == 0 {
                    Ok(SplitState { closed: st.closed.push(st.open), open: seq![], ..st })
                } else {
                    Ok(SplitState { open: more, ..st })
                }
            },
        }
    }
}

/// The terms of a list, as they stand between the commas, or what is wrong with
/// the list. Nothing after the last comma is no term.
pub open spec fn chunks(s: Seq<char>) -> Result<Seq<Seq<char>>, Seq<char>> {
    match split_state(s) {
        Err(c) => Err("unexpected `"@ + seq![c] + "` in cost spec"@),
        Ok(st) => if st.depth != 0 {
            Err("unclosed bracket in cost spec"@)
        } else if st.open.len() > 0 {
            Ok(st.closed.push(st.open))
        } else {
            Ok(st.closed)
        },
    }
}

proof fn split_stays_wrong(s: Seq<char>, k: int)
    requires
        0 <= k <= s.len(),
        split_state(s.take(k)) is Err,
    ensures
        split_state(s) == split_state(s.take(k)),
    decreases s.len() - k,
{
    if k < s.len() {
        assert(s.take(k + 1).drop_last() =~= s.take(k));
        split_stays_wrong(s, k + 1);
    } else {
        assert(s.take(k) =~= s);
    }
}

/// Split a list of terms at its commas.
pub fn split_top_commas(s: &str) -> (out: Result<Vec<String>, String>)
    ensures
        match (out, chunks(s@)) {
            (Ok(v), Ok(m)) => text::texts(v@) == m,
            (Err(e), Err(m)) => e@ == m,
            _ => false,
        },
{
    let chars: Vec<char> = text::chars_of(s);
    let n: usize = chars.len();
    let mut out: Vec<String> = Vec::new();
    let mut buf: String = String::new();
    let mut depth: usize = 0;
    let mut quoted: bool = false;
    let mut i: usize = 0;
    assert(chars@.take(0) =~= Seq::<char>::empty());
    assert(text::texts(out@) =~= Seq::<Seq<char>>::empty());
    while i < n
        invariant
            n == chars@.len(),
            chars@ == s@,
            i <= n,
            depth <= i,
            match split_state(chars@.take(i as int)) {
                Ok(st) => text::texts(out@) == st.closed && buf@ == st.open && depth == st.depth
                    && quoted == st.quoted,
                Err(_) => false,
            },
        decreases n - i,
    {
        let c: char = chars[i];
        let ghost before = chars@.take(i as int);
        let ghost now = chars@.take(i + 1);
        assert(now.drop_last() =~= before);
        assert(i > 0 ==> now[now.len() - 2] == chars@[i - 1]);
        if quoted {
            buf.push(c);
            if c == '"' && !(i > 0 && chars[i - 1] == '\\') {
                quoted = false;
            }
        } else if c == '"' {
            quoted = true;
            buf.push(c);
        } else if c == '{' || c == '[' {
            depth = depth + 1;
            buf.push(c);
        } else if c == '}' || c == ']' {
            if depth == 0 {
                proof {
                    split_stays_wrong(chars@, i + 1);
                }
                let mut message: String = "unexpected `".to_owned();
                message.push(c);
                message.append("` in cost spec");
                return Err(message);
            }
            depth = depth - 1;
            buf.push(c);
        } else if c == ',' && depth == 0 {
            let ghost was = out@;
            out.push(buf);
            assert(text::texts(out@) =~= text::texts(was).push(out@.last()@));
            buf = String::new();
        } else {
            buf.push(c);
        }
        i = i + 1;
    }
    assert(chars@.take(n as int) =~= chars@);
    if depth != 0 {
        return Err("unclosed bracket in cost spec".to_owned());
    }
    if text::chars_of(&buf).len() > 0 {
        let ghost was = out@;
        out.push(buf);
        assert(text::texts(out@) =~= text::texts(was).push(out@.last()@));
    }
    Ok(out)
}

// ---------------------------------------------------------------------------
// Reading one term
// ---------------------------------------------------------------------------

/// A term as it was written: its value is still text.
#[derive(Debug)]
pub enum RawTerm {
    /// `none`: reset everything.
    Reset,
    /// `@path`: a whole preset.
    Load(String),
    /// `[SCOPE:]key=value`: set one key.
    Assign { scope: Scope, key: Vec<String>, key_text: String, value: String },
}

/// A term as values.
pub enum TermText {
    Reset,
    Load(Seq<char>),
    Assign { scope: ScopeModel, key: Seq<Seq<char>>, key_text: Seq<char>, value: Seq<char> },
}

impl View for RawTerm {
    type V = TermText;

    open spec fn view(&self) -> TermText {
        match self {
            RawTerm::Reset => TermText::Reset,
            RawTerm::Load(path) => TermText::Load(path@),
            RawTerm::Assign { scope, key, key_text, value } => TermText::Assign {
                scope: scope@,
                key: text::texts(key@),
                key_text: key_text@,
                value: value@,
            },
        }
    }
}

/// Whether a word names one of the three cost legs.
pub open spec fn is_leg(name: Seq<char>) -> bool {
    name == "commission"@ || name == "spread"@ || name == "slippage"@
}

/// Whether a word names one of the three cost legs.
fn leg(name: &str) -> (out: bool)
    ensures
        out == is_leg(name@),
{
    text::same(name, "commission") || text::same(name, "spread") || text::same(name, "slippage")
}

/// The first `:` or `=` outside brackets, from `from` on.
pub open spec fn scope_end(s: Seq<char>, from: int) -> Option<int>
    decreases s.len() - from,
{
    if from >= s.len() {
        None
    } else if (s[from] == ':' || s[from] == '=') && calendar::bracket_depth(s.take(from)) == 0 {
        Some(from)
    } else {
        scope_end(s, from + 1)
    }
}

/// The scope before the first `:` outside brackets and what follows it; the
/// unscoped one and the whole text where an `=` comes first, or neither.
pub open spec fn scoped_body(s: Seq<char>) -> Result<(ScopeModel, Seq<char>), Seq<char>> {
    match scope_end(s, 0) {
        Some(i) => if s[i] == ':' {
            match calendar::parsed_scope(text::trimmed(s.take(i))) {
                Ok(scope) => Ok((scope, s.skip(i + 1))),
                Err(e) => Err("cost scope: "@ + e),
            }
        } else {
            Ok((ScopeModel { symbol: None, freq: None }, s))
        },
        None => Ok((ScopeModel { symbol: None, freq: None }, s)),
    }
}

/// Split off a leading `SYMBOL[FREQ]:` prefix.
fn split_scope(s: &str) -> (out: Result<(Scope, String), String>)
    ensures
        match (out, scoped_body(s@)) {
            (Ok((a, b)), Ok((x, y))) => a@ == x && b@ == y,
            (Err(e), Err(m)) => e@ == m,
            _ => false,
        },
{
    let chars: Vec<char> = text::chars_of(s);
    let n: usize = chars.len();
    let mut depth: i128 = 0;
    let mut i: usize = 0;
    assert(chars@.take(0) =~= Seq::<char>::empty());
    while i < n
        invariant
            n == chars@.len(),
            chars@ == s@,
            i <= n,
            depth == calendar::bracket_depth(chars@.take(i as int)),
            scope_end(chars@, 0) == scope_end(chars@, i as int),
        decreases n - i,
    {
        let c: char = chars[i];
        proof {
            assert(chars@.take(i + 1).drop_last() =~= chars@.take(i as int));
            calendar::bracket_depth_bounds(chars@.take(i as int));
            calendar::bracket_depth_bounds(chars@.take(i + 1));
        }
        if depth == 0 && c == ':' {
            let before: String = text::string_between(&chars, 0, i);
            let after: String = text::string_between(&chars, i + 1, n);
            assert(before@ =~= s@.take(i as int));
            assert(after@ =~= s@.skip(i + 1));
            return match calendar::parse_scope(text::trim(&before)) {
                Ok(scope) => Ok((scope, after)),
                Err(e) => {
                    let mut message: String = "cost scope: ".to_owned();
                    message.append(&e);
                    Err(message)
                },
            };
        }
        if depth == 0 && c == '=' {
            return Ok((Scope { symbol: None, freq: None }, s.to_owned()));
        }
        if c == '{' || c == '[' {
            depth = depth + 1;
        } else if c == '}' || c == ']' {
            depth = depth - 1;
        }
        i = i + 1;
    }
    Ok((Scope { symbol: None, freq: None }, s.to_owned()))
}

/// What a term says, or what is wrong with it.
pub open spec fn parsed_term(t: Seq<char>) -> Result<TermText, Seq<char>> {
    if t == "none"@ {
        Ok(TermText::Reset)
    } else if t.len() > 0 && t[0] == '@' {
        let path = text::trimmed(t.skip(1));
        if path.len() == 0 {
            Err("`@` prefix is missing a file path"@)
        } else {
            Ok(TermText::Load(path))
        }
    } else {
        match scoped_body(t) {
            Err(e) => Err(e),
            Ok((scope, rest)) => {
                let body = text::trimmed(rest);
                if body.len() == 0 {
                    Err("cost term has an empty body"@)
                } else {
                    match text::split_at_first(body, '=') {
                        None => Err("cost term "@ + text::debug_text(body) + " is missing `=`"@),
                        Some((key_text, value)) => {
                            let key = text::pieces(text::trimmed(key_text), '.');
                            if exists|i: int| 0 <= i < key.len() && (#[trigger] key[i]).len() == 0 {
                                Err(
                                    "cost term key "@ + text::debug_text(key_text)
                                        + ": empty segment"@,
                                )
                            } else if !is_leg(key[0]) {
                                Err(
                                    "cost term key "@ + text::debug_text(key_text)
                                        + ": first segment must be one of `commission`, `spread`, `slippage` (got `"@
                                        + key[0] + "`)"@,
                                )
                            } else {
                                Ok(
                                    TermText::Assign {
                                        scope,
                                        key,
                                        key_text,
                                        value: text::trimmed(value),
                                    },
                                )
                            }
                        },
                    }
                }
            },
        }
    }
}

proof fn pieces_are_some(s: Seq<char>, c: char)
    ensures
        text::pieces(s, c).len() > 0,
{
    text::position_is_first(s, c);
}

/// Read one term: `@path`, `none` or `[SCOPE:]key=value`.
pub fn parse_term(t: &str) -> (out: Result<RawTerm, String>)
    ensures
        match (out, parsed_term(t@)) {
            (Ok(r), Ok(m)) => r@ == m,
            (Err(e), Err(m)) => e@ == m,
            _ => false,
        },
{
    if text::same(t, "none") {
        return Ok(RawTerm::Reset);
    }
    let chars: Vec<char> = text::chars_of(t);
    if chars.len() > 0 && chars[0] == '@' {
        let rest: String = text::string_between(&chars, 1, chars.len());
        assert(rest@ =~= t@.skip(1));
        let path: &str = text::trim(&rest);
        if text::chars_of(path).len() == 0 {
            return Err("`@` prefix is missing a file path".to_owned());
        }
        return Ok(RawTerm::Load(path.to_owned()));
    }
    match split_scope(t) {
        Err(e) => Err(e),
        Ok((scope, rest)) => {
            let body: &str = text::trim(&rest);
            if text::chars_of(body).len() == 0 {
                return Err("cost term has an empty body".to_owned());
            }
            match text::split_once(body, '=') {
                None => {
                    let mut message: String = "cost term ".to_owned();
                    message.append(&text::debug_quoted(body));
                    message.append(" is missing `=`");
                    Err(message)
                },
                Some((key_text, value)) => {
                    let key: Vec<String> = text::split(text::trim(key_text), '.');
                    let ghost pieces = text::pieces(text::trimmed(key_text@), '.');
                    proof {
                        pieces_are_some(text::trimmed(key_text@), '.');
                    }
                    let n: usize = key.len();
                    assert(pieces == text::texts(key@));
                    for i in 0..n
                        invariant
                            n == key@.len(),
                            pieces == text::texts(key@),
                            forall|j: int| 0 <= j < i ==> (#[trigger] pieces[j]).len() > 0,
                            parsed_term(t@) == (if exists|j: int|
                                0 <= j < pieces.len() && (#[trigger] pieces[j]).len() == 0 {
                                Err::<TermText, Seq<char>>(
                                    "cost term key "@ + text::debug_text(key_text@)
                                        + ": empty segment"@,
                                )
                            } else {
                                parsed_term(t@)
                            }),
                    {
                        assert(pieces[i as int] == key@[i as int]@);
                        if text::chars_of(&key[i]).len() == 0 {
                            let mut message: String = "cost term key ".to_owned();
                            message.append(&text::debug_quoted(key_text));
                            message.append(": empty segment");
                            return Err(message);
                        }
                    }
                    assert(pieces[0] == key@[0]@);
                    if !leg(&key[0]) {
                        let mut message: String = "cost term key ".to_owned();
                        message.append(&text::debug_quoted(key_text));
                        message.append(
                            ": first segment must be one of `commission`, `spread`, `slippage` (got `",
                        );
                        message.append(&key[0]);
                        message.append("`)");
                        return Err(message);
                    }
                    Ok(
                        RawTerm::Assign {
                            scope,
                            key,
                            key_text: key_text.to_owned(),
                            value: text::trim(value).to_owned(),
                        },
                    )
                },
            }
        },
    }
}

proof fn parsed_terms_are_sound(t: Seq<char>, term: RawTerm)
    requires
        parsed_term(t) == Ok::<TermText, Seq<char>>(term@),
    ensures
        term.wf(),
{
    if let RawTerm::Assign { scope, key, key_text, value } = term {
        if let Ok((x, rest)) = scoped_body(t) {
            let body = text::trimmed(rest);
            if let Some((k, v)) = text::split_at_first(body, '=') {
                pieces_are_some(text::trimmed(k), '.');
                assert(text::texts(key@) == text::pieces(text::trimmed(k), '.'));
                assert(text::texts(key@)[0] == key@[0]@);
            }
        }
    }
}

// ---------------------------------------------------------------------------
// Reading a list of terms
// ---------------------------------------------------------------------------

/// The terms of a list up to the first that is wrong, and what is wrong with it.
#[derive(Debug)]
pub struct RawSpec {
    pub terms: Vec<RawTerm>,
    pub fault: Option<String>,
}

/// The terms that the first `n` chunks say, up to the first that is wrong, and
/// what is wrong with it. An empty chunk says nothing.
pub open spec fn terms_upto(chunks: Seq<Seq<char>>, n: int) -> (Seq<TermText>, Option<Seq<char>>)
    decreases n,
{
    if n <= 0 {
        (seq![], None)
    } else {
        let (terms, fault) = terms_upto(chunks, n - 1);
        let chunk = text::trimmed(chunks[n - 1]);
        if fault is Some || chunk.len() == 0 {
            (terms, fault)
        } else {
            match parsed_term(chunk) {
                Ok(t) => (terms.push(t), None),
                Err(e) => (terms, Some(e)),
            }
        }
    }
}

proof fn terms_stay_wrong(chunks: Seq<Seq<char>>, k: int, n: int)
    requires
        0 <= k <= n,
        terms_upto(chunks, k).1 is Some,
    ensures
        terms_upto(chunks, n) == terms_upto(chunks, k),
    decreases n,
{
    if k < n {
        terms_stay_wrong(chunks, k, n - 1);
    }
}

/// What a list of terms says.
pub open spec fn terms_of(s: Seq<char>) -> (Seq<TermText>, Option<Seq<char>>) {
    match chunks(s) {
        Err(e) => (seq![], Some(e)),
        Ok(c) => terms_upto(c, c.len() as int),
    }
}

/// The terms as values.
pub open spec fn term_texts(terms: Seq<RawTerm>) -> Seq<TermText> {
    Seq::new(terms.len(), |i: int| terms[i]@)
}

impl RawSpec {
    /// Read a list of terms.
    pub fn parse(s: &str) -> (out: RawSpec)
        ensures
            term_texts(out.terms@) == terms_of(s@).0,
            calendar::text_of(out.fault) == terms_of(s@).1,
            forall|i: int| 0 <= i < out.terms@.len() ==> (#[trigger] out.terms@[i]).wf(),
    {
        let mut terms: Vec<RawTerm> = Vec::new();
        match split_top_commas(s) {
            Err(e) => {
                assert(term_texts(terms@) =~= Seq::<TermText>::empty());
                RawSpec { terms, fault: Some(e) }
            },
            Ok(parts) => {
                let n: usize = parts.len();
                let ghost all = text::texts(parts@);
                assert(term_texts(terms@) =~= Seq::<TermText>::empty());
                for i in 0..n
                    invariant
                        n == parts@.len(),
                        all == text::texts(parts@),
                        chunks(s@) == Ok::<Seq<Seq<char>>, Seq<char>>(all),
                        terms_upto(all, i as int) == (term_texts(terms@), None::<Seq<char>>),
                        forall|j: int| 0 <= j < terms@.len() ==> (#[trigger] terms@[j]).wf(),
                {
                    let chunk: &str = text::trim(&parts[i]);
                    assert(all[i as int] == parts@[i as int]@);
                    if text::chars_of(chunk).len() > 0 {
                        match parse_term(chunk) {
                            Ok(term) => {
                                proof {
                                    parsed_terms_are_sound(chunk@, term);
                                }
                                let ghost was = terms@;
                                terms.push(term);
                                assert(term_texts(terms@) =~= term_texts(was).push(term@));
                            },
                            Err(e) => {
                                proof {
                                    terms_stay_wrong(all, i + 1, n as int);
                                }
                                return RawSpec { terms, fault: Some(e) };
                            },
                        }
                    }
                }
                RawSpec { terms, fault: None }
            },
        }
    }
}

// ---------------------------------------------------------------------------
// The form of a model
// ---------------------------------------------------------------------------

/// Whether a word names a cost model.
pub open spec fn is_kind(name: Seq<char>) -> bool {
    ||| name == "none"@
    ||| name == "fixed"@
    ||| name == "percentage"@
    ||| name == "per_unit"@
    ||| name == "composite"@
    ||| name == "max"@
    ||| name == "bps"@
    ||| name == "absolute"@
    ||| name == "volume_participation"@
}

/// Whether a word names a cost model.
fn known_kind(name: &str) -> (out: bool)
    ensures
        out == is_kind(name@),
{
    text::same(name, "none") || text::same(name, "fixed") || text::same(name, "percentage")
        || text::same(name, "per_unit") || text::same(name, "composite") || text::same(name, "max")
        || text::same(name, "bps") || text::same(name, "absolute") || text::same(
        name,
        "volume_participation",
    )
}

/// Whether an object's only key is `name`.
pub open spec fn only(m: Map<Seq<char>, Tree>, name: Seq<char>) -> bool {
    m.dom() == set![name]
}

/// Whether an object is a model written as `{kind: {fields}}`.
pub open spec fn is_singleton(m: Map<Seq<char>, Tree>) -> bool {
    exists|name: Seq<char>| is_kind(name) && #[trigger] only(m, name)
}

/// The kind that such an object names.
pub open spec fn singleton_kind(m: Map<Seq<char>, Tree>) -> Seq<char> {
    choose|name: Seq<char>| is_kind(name) && #[trigger] only(m, name)
}

/// The models in a list, each in the form that names its kind in a field.
pub open spec fn normal_all(items: Seq<Tree>) -> Seq<Tree>
    decreases items,
{
    Seq::new(
        items.len(),
        |i: int|
            if 0 <= i < items.len() {
                normal(items[i])
            } else {
                Tree::Null
            },
    )
}

/// The parts of a model in that form, where they are a list.
pub open spec fn normal_parts(t: Tree) -> Tree
    decreases t,
{
    match t {
        Tree::Array(items) => Tree::Array(normal_all(items)),
        other => other,
    }
}

/// A model in the form that names its kind in a field `kind`. The word that names
/// a kind and the object `{kind: {fields}}` are brought into it; so are the
/// models nested in it. Anything else stays as it is.
pub open spec fn normal(t: Tree) -> Tree
    decreases t,
{
    match t {
        Tree::Text(name) => if is_kind(name) {
            Tree::Object(Map::empty().insert("kind"@, t))
        } else {
            t
        },
        Tree::Object(m) => if m.dom().contains("kind"@) {
            Tree::Object(
                Map::new(
                    |k: Seq<char>| m.dom().contains(k),
                    |k: Seq<char>|
                        if !m.dom().contains(k) {
                            Tree::Null
                        } else if k == "parts"@ {
                            normal_parts(m[k])
                        } else if k == "lhs"@ || k == "rhs"@ {
                            normal(m[k])
                        } else {
                            m[k]
                        },
                ),
            )
        } else if is_singleton(m) && m.dom().contains(singleton_kind(m)) {
            let name = singleton_kind(m);
            match m[name] {
                Tree::Object(f) => Tree::Object(
                    Map::new(
                        |k: Seq<char>| f.dom().contains(k) || k == "kind"@,
                        |k: Seq<char>|
                            if !f.dom().contains(k) {
                                Tree::Text(name)
                            } else if k == "parts"@ && f[k] is Array {
                                normal_parts(f[k])
                            } else {
                                normal(f[k])
                            },
                    ),
                ),
                Tree::Null => Tree::Object(Map::empty().insert("kind"@, Tree::Text(name))),
                other => Tree::Object(
                    Map::empty().insert("kind"@, Tree::Text(name)).insert("value"@, other),
                ),
            }
        } else {
            t
        },
        other => other,
    }
}

proof fn only_one_name(m: Map<Seq<char>, Tree>, a: Seq<char>, b: Seq<char>)
    requires
        only(m, a),
        only(m, b),
    ensures
        a == b,
{
    assert(set![a].contains(a));
    assert(set![b].contains(a));
}

proof fn singleton_is_the_entry(entries: Seq<(String, Json)>)
    requires
        crate::ordmap::ascending(entries),
    ensures
        is_singleton(json::branches(entries)) <==> entries.len() == 1 && is_kind(entries[0].0@),
        is_singleton(json::branches(entries)) ==> singleton_kind(json::branches(entries))
            == entries[0].0@,
{
    let m = json::branches(entries);
    json::branches_at(entries);
    if entries.len() == 1 {
        let name = entries[0].0@;
        assert(json::branches(entries.drop_last()) == Map::<Seq<char>, Tree>::empty());
        assert(m.dom() =~= set![name]);
        assert(only(m, name));
        if is_singleton(m) {
            only_one_name(m, singleton_kind(m), name);
        }
    } else if is_singleton(m) {
        assert(only(m, singleton_kind(m)));
        assert(m.dom().len() == 1);
    }
}

/// Bring the models in a list into the form that names their kind in a field.
fn normalize_all(items: &Vec<Json>) -> (out: Vec<Json>)
    requires
        forall|i: int| 0 <= i < items@.len() ==> (#[trigger] items@[i]).wf(),
    ensures
        forall|i: int| 0 <= i < out@.len() ==> (#[trigger] out@[i]).wf(),
        json::forest(out@) == normal_all(json::forest(items@)),
    decreases items@,
{
    let mut out: Vec<Json> = Vec::new();
    let n: usize = items.len();
    for i in 0..n
        invariant
            n == items@.len(),
            forall|j: int| 0 <= j < items@.len() ==> (#[trigger] items@[j]).wf(),
            out@.len() == i,
            forall|j: int|
                0 <= j < i ==> (#[trigger] out@[j]).wf() && out@[j].tree() == normal(
                    items@[j].tree(),
                ),
    {
        out.push(normalize_model_value(&items[i]));
    }
    proof {
        json::forest_at(items@);
        json::forest_at(out@);
        assert(json::forest(out@) =~= normal_all(json::forest(items@)));
    }
    out
}

/// Bring a model into the form that names its kind in a field.
pub fn normalize_model_value(value: &Json) -> (out: Json)
    requires
        value.wf(),
    ensures
        out.wf(),
        out.tree() == normal(value.tree()),
    decreases *value,
{
    match value {
        Json::Text(name) => {
            if known_kind(name) {
                Json::Object(json::single("kind", Json::Text(name.clone())))
            } else {
                json::copy(value)
            }
        },
        Json::Object(o) => {
            let ghost m = json::members(*o);
            proof {
                singleton_is_the_entry(o.entries@);
            }
            if json::has(o, "kind") {
                let mut entries: Vec<(String, Json)> = Vec::new();
                let n: usize = o.entries.len();
                let ghost rule = |k: Seq<char>, t: Tree|
                    if k == "parts"@ {
                        normal_parts(t)
                    } else if k == "lhs"@ || k == "rhs"@ {
                        normal(t)
                    } else {
                        t
                    };
                for i in 0..n
                    invariant
                        n == o.entries@.len(),
                        *value is Object,
                        value->Object_0 == *o,
                        value.wf(),
                        rule == (|k: Seq<char>, t: Tree|
                            if k == "parts"@ {
                                normal_parts(t)
                            } else if k == "lhs"@ || k == "rhs"@ {
                                normal(t)
                            } else {
                                t
                            }),
                        entries@.len() == i,
                        forall|j: int|
                            0 <= j < i ==> (#[trigger] entries@[j]).0@ == o.entries@[j].0@
                                && entries@[j].1.wf() && entries@[j].1.tree() == rule(
                                o.entries@[j].0@,
                                o.entries@[j].1.tree(),
                            ),
                {
                    let ghost e = o.entries@[i as int];
                    assert(e.1.wf());
                    let key: &String = &o.entries[i].0;
                    let node: &Json = &o.entries[i].1;
                    let fresh: Json = if text::same(key, "parts") {
                        match node {
                            Json::Array(items) => Json::Array(normalize_all(items)),
                            _ => json::copy(node),
                        }
                    } else if text::same(key, "lhs") || text::same(key, "rhs") {
                        normalize_model_value(node)
                    } else {
                        json::copy(node)
                    };
                    entries.push((key.clone(), fresh));
                }
                let out: OrdMap<String, Json> = OrdMap { entries };
                proof {
                    json::same_keys_ascend(o.entries@, out.entries@);
                    json::branches_follow(o.entries@, out.entries@, rule);
                    assert(Tree::Object(json::members(out)) == normal(value.tree())) by {
                        assert(json::members(out) =~= normal(value.tree())->Object_0);
                    }
                }
                Json::Object(out)
            } else if o.entries.len() == 1 && known_kind(&o.entries[0].0) {
                let name: &String = &o.entries[0].0;
                let inner: &Json = &o.entries[0].1;
                proof {
                    json::branches_at(o.entries@);
                    assert(o.entries@[0].1.wf());
                    assert(m[name@] == inner.tree());
                    assert(m.dom().contains(name@));
                }
                match inner {
                    Json::Object(f) => Json::Object(tagged(name, f, value)),
                    Json::Null => Json::Object(json::single("kind", Json::Text(name.clone()))),
                    _ => {
                        let mut out: OrdMap<String, Json> = json::single(
                            "kind",
                            Json::Text(name.clone()),
                        );
                        json::put(&mut out, "value", json::copy(inner));
                        Json::Object(out)
                    },
                }
            } else {
                json::copy(value)
            }
        },
        _ => json::copy(value),
    }
}

/// The fields of a model written as `{name: {fields}}`, with its kind among them.
fn tagged(name: &String, f: &OrdMap<String, Json>, value: &Json) -> (out: OrdMap<String, Json>)
    requires
        value.wf(),
        json::sound(*f),
        *value is Object,
        value->Object_0.entries@.len() == 1,
        value->Object_0.entries@[0].0 == *name,
        value->Object_0.entries@[0].1 == Json::Object(*f),
        is_kind(name@),
        !json::members(value->Object_0).dom().contains("kind"@),
    ensures
        json::sound(out),
        Tree::Object(json::members(out)) == normal(value.tree()),
    decreases *f,
{
    let ghost o = value->Object_0;
    let ghost fm = json::members(*f);
    proof {
        singleton_is_the_entry(o.entries@);
        json::branches_at(o.entries@);
        assert(o.entries@[0].1.tree() == Tree::Object(fm));
    }
    let mut entries: Vec<(String, Json)> = Vec::new();
    let n: usize = f.entries.len();
    let ghost rule = |k: Seq<char>, t: Tree|
        if k == "parts"@ && t is Array {
            normal_parts(t)
        } else {
            normal(t)
        };
    for i in 0..n
        invariant
            n == f.entries@.len(),
            json::sound(*f),
            rule == (|k: Seq<char>, t: Tree|
                if k == "parts"@ && t is Array {
                    normal_parts(t)
                } else {
                    normal(t)
                }),
            entries@.len() == i,
            forall|j: int|
                0 <= j < i ==> (#[trigger] entries@[j]).0@ == f.entries@[j].0@
                    && entries@[j].1.wf() && entries@[j].1.tree() == rule(
                    f.entries@[j].0@,
                    f.entries@[j].1.tree(),
                ),
    {
        assert(f.entries@[i as int].1.wf());
        let key: &String = &f.entries[i].0;
        let node: &Json = &f.entries[i].1;
        let fresh: Json = match node {
            Json::Array(items) => if text::same(key, "parts") {
                Json::Array(normalize_all(items))
            } else {
                normalize_model_value(node)
            },
            _ => normalize_model_value(node),
        };
        entries.push((key.clone(), fresh));
    }
    let mut out: OrdMap<String, Json> = OrdMap { entries };
    proof {
        json::same_keys_ascend(f.entries@, out.entries@);
        json::branches_follow(f.entries@, out.entries@, rule);
    }
    if !json::has(&out, "kind") {
        json::put(&mut out, "kind", Json::Text(name.clone()));
    }
    proof {
        assert(json::members(out) =~= normal(value.tree())->Object_0);
    }
    out
}

// ---------------------------------------------------------------------------
// The form of a tree of settings
// ---------------------------------------------------------------------------

/// Every value of an object as a model in its normal form.
pub open spec fn normal_values(t: Tree) -> Tree {
    match t {
        Tree::Object(m) => Tree::Object(
            Map::new(|k: Seq<char>| m.dom().contains(k), |k: Seq<char>| normal(m[k])),
        ),
        other => other,
    }
}

/// A scoped entry with its model in normal form.
pub open spec fn normal_entry(t: Tree) -> Tree {
    match t {
        Tree::Object(m) => Tree::Object(
            Map::new(
                |k: Seq<char>| m.dom().contains(k),
                |k: Seq<char>|
                    if k == "model"@ {
                        normal(m[k])
                    } else {
                        m[k]
                    },
            ),
        ),
        other => other,
    }
}

/// The scoped entries with their models in normal form.
pub open spec fn normal_entries(t: Tree) -> Tree {
    match t {
        Tree::Array(items) => Tree::Array(
            Seq::new(items.len(), |i: int| normal_entry(items[i])),
        ),
        other => other,
    }
}

/// One member of a leg with its models in normal form.
pub open spec fn normal_member(k: Seq<char>, t: Tree) -> Tree {
    if k == "default"@ {
        normal(t)
    } else if k == "by_symbol"@ || k == "by_interval"@ {
        normal_values(t)
    } else if k == "scoped"@ {
        normal_entries(t)
    } else {
        t
    }
}

/// One member of the whole tree with its models in normal form.
pub open spec fn normal_leg(k: Seq<char>, t: Tree) -> Tree {
    match t {
        Tree::Object(m) => if is_leg(k) {
            Tree::Object(
                Map::new(
                    |j: Seq<char>| m.dom().contains(j),
                    |j: Seq<char>| normal_member(j, m[j]),
                ),
            )
        } else {
            t
        },
        other => other,
    }
}

/// A tree of settings with all its models in normal form.
pub open spec fn normal_tree(m: Map<Seq<char>, Tree>) -> Map<Seq<char>, Tree> {
    Map::new(|k: Seq<char>| m.dom().contains(k), |k: Seq<char>| normal_leg(k, m[k]))
}

fn normalize_values(value: &Json) -> (out: Json)
    requires
        value.wf(),
    ensures
        out.wf(),
        out.tree() == normal_values(value.tree()),
{
    match value {
        Json::Object(o) => {
            let mut entries: Vec<(String, Json)> = Vec::new();
            let n: usize = o.entries.len();
            let ghost rule = |k: Seq<char>, t: Tree| normal(t);
            for i in 0..n
                invariant
                    n == o.entries@.len(),
                    json::sound(*o),
                    rule == (|k: Seq<char>, t: Tree| normal(t)),
                    entries@.len() == i,
                    forall|j: int|
                        0 <= j < i ==> (#[trigger] entries@[j]).0@ == o.entries@[j].0@
                            && entries@[j].1.wf() && entries@[j].1.tree() == rule(
                            o.entries@[j].0@,
                            o.entries@[j].1.tree(),
                        ),
            {
                assert(o.entries@[i as int].1.wf());
                entries.push((o.entries[i].0.clone(), normalize_model_value(&o.entries[i].1)));
            }
            let out: OrdMap<String, Json> = OrdMap { entries };
            proof {
                json::same_keys_ascend(o.entries@, out.entries@);
                json::branches_follow(o.entries@, out.entries@, rule);
                assert(json::members(out) =~= normal_values(value.tree())->Object_0);
            }
            Json::Object(out)
        },
        _ => json::copy(value),
    }
}

fn normalize_entry(value: &Json) -> (out: Json)
    requires
        value.wf(),
    ensures
        out.wf(),
        out.tree() == normal_entry(value.tree()),
{
    match value {
        Json::Object(o) => {
            let mut entries: Vec<(String, Json)> = Vec::new();
            let n: usize = o.entries.len();
            let ghost rule = |k: Seq<char>, t: Tree|
                if k == "model"@ {
                    normal(t)
                } else {
                    t
                };
            for i in 0..n
                invariant
                    n == o.entries@.len(),
                    json::sound(*o),
                    rule == (|k: Seq<char>, t: Tree|
                        if k == "model"@ {
                            normal(t)
                        } else {
                            t
                        }),
                    entries@.len() == i,
                    forall|j: int|
                        0 <= j < i ==> (#[trigger] entries@[j]).0@ == o.entries@[j].0@
                            && entries@[j].1.wf() && entries@[j].1.tree() == rule(
                            o.entries@[j].0@,
                            o.entries@[j].1.tree(),
                        ),
            {
                assert(o.entries@[i as int].1.wf());
                let node: &Json = &o.entries[i].1;
                let fresh: Json = if text::same(&o.entries[i].0, "model") {
                    normalize_model_value(node)
                } else {
                    json::copy(node)
                };
                entries.push((o.entries[i].0.clone(), fresh));
            }
            let out: OrdMap<String, Json> = OrdMap { entries };
            proof {
                json::same_keys_ascend(o.entries@, out.entries@);
                json::branches_follow(o.entries@, out.entries@, rule);
                assert(json::members(out) =~= normal_entry(value.tree())->Object_0);
            }
            Json::Object(out)
        },
        _ => json::copy(value),
    }
}

fn normalize_entries(value: &Json) -> (out: Json)
    requires
        value.wf(),
    ensures
        out.wf(),
        out.tree() == normal_entries(value.tree()),
{
    match value {
        Json::Array(items) => {
            let mut out: Vec<Json> = Vec::new();
            let n: usize = items.len();
            for i in 0..n
                invariant
                    n == items@.len(),
                    *value is Array,
                    value->Array_0 == *items,
                    value.wf(),
                    out@.len() == i,
                    forall|j: int|
                        0 <= j < i ==> (#[trigger] out@[j]).wf() && out@[j].tree() == normal_entry(
                            items@[j].tree(),
                        ),
            {
                assert(items@[i as int].wf());
                out.push(normalize_entry(&items[i]));
            }
            proof {
                json::forest_at(items@);
                json::forest_at(out@);
                assert(json::forest(out@) =~= normal_entries(value.tree())->Array_0);
            }
            Json::Array(out)
        },
        _ => json::copy(value),
    }
}

fn normalize_leg_models(value: &Json) -> (out: Json)
    requires
        value.wf(),
    ensures
        out.wf(),
        forall|k: Seq<char>| is_leg(k) ==> out.tree() == #[trigger] normal_leg(k, value.tree()),
{
    match value {
        Json::Object(o) => {
            let mut entries: Vec<(String, Json)> = Vec::new();
            let n: usize = o.entries.len();
            let ghost rule = |k: Seq<char>, t: Tree| normal_member(k, t);
            for i in 0..n
                invariant
                    n == o.entries@.len(),
                    json::sound(*o),
                    rule == (|k: Seq<char>, t: Tree| normal_member(k, t)),
                    entries@.len() == i,
                    forall|j: int|
                        0 <= j < i ==> (#[trigger] entries@[j]).0@ == o.entries@[j].0@
                            && entries@[j].1.wf() && entries@[j].1.tree() == rule(
                            o.entries@[j].0@,
                            o.entries@[j].1.tree(),
                        ),
            {
                assert(o.entries@[i as int].1.wf());
                let key: &String = &o.entries[i].0;
                let node: &Json = &o.entries[i].1;
                let fresh: Json = if text::same(key, "default") {
                    normalize_model_value(node)
                } else if text::same(key, "by_symbol") || text::same(key, "by_interval") {
                    normalize_values(node)
                } else if text::same(key, "scoped") {
                    normalize_entries(node)
                } else {
                    json::copy(node)
                };
                entries.push((key.clone(), fresh));
            }
            let out: OrdMap<String, Json> = OrdMap { entries };
            proof {
                json::same_keys_ascend(o.entries@, out.entries@);
                json::branches_follow(o.entries@, out.entries@, rule);
                assert forall|k: Seq<char>| is_leg(k) implies Json::Object(out).tree()
                    == #[trigger] normal_leg(k, value.tree()) by {
                    assert(json::members(out) =~= normal_leg(k, value.tree())->Object_0);
                }
            }
            Json::Object(out)
        },
        _ => json::copy(value),
    }
}

/// Bring all models of a tree of settings into normal form.
pub fn normalize_tree_to_internal_tags(tree: &OrdMap<String, Json>) -> (out: OrdMap<String, Json>)
    requires
        json::sound(*tree),
    ensures
        json::sound(out),
        json::members(out) == normal_tree(json::members(*tree)),
{
    let mut entries: Vec<(String, Json)> = Vec::new();
    let n: usize = tree.entries.len();
    let ghost rule = |k: Seq<char>, t: Tree| normal_leg(k, t);
    for i in 0..n
        invariant
            n == tree.entries@.len(),
            json::sound(*tree),
            rule == (|k: Seq<char>, t: Tree| normal_leg(k, t)),
            entries@.len() == i,
            forall|j: int|
                0 <= j < i ==> (#[trigger] entries@[j]).0@ == tree.entries@[j].0@
                    && entries@[j].1.wf() && entries@[j].1.tree() == rule(
                    tree.entries@[j].0@,
                    tree.entries@[j].1.tree(),
                ),
    {
        assert(tree.entries@[i as int].1.wf());
        let node: &Json = &tree.entries[i].1;
        let fresh: Json = if leg(&tree.entries[i].0) {
            normalize_leg_models(node)
        } else {
            json::copy(node)
        };
        entries.push((tree.entries[i].0.clone(), fresh));
    }
    let out: OrdMap<String, Json> = OrdMap { entries };
    proof {
        json::same_keys_ascend(tree.entries@, out.entries@);
        json::branches_follow(tree.entries@, out.entries@, rule);
        assert(json::members(out) =~= normal_tree(json::members(*tree)));
    }
    out
}

// ---------------------------------------------------------------------------
// Presets
// ---------------------------------------------------------------------------

/// Whether a leg is written out with its defaults and overrides.
pub open spec fn is_structured(m: Map<Seq<char>, Tree>) -> bool {
    m.dom().contains("default"@) || m.dom().contains("by_symbol"@) || m.dom().contains(
        "by_interval"@,
    ) || m.dom().contains("scoped"@)
}

/// A preset's leg in its written-out form, or what is wrong with it.
pub open spec fn leg_form(t: Tree) -> Result<Tree, Seq<char>> {
    match t {
        Tree::Object(m) => if m.dom().contains("kind"@) && is_structured(m) {
            Err(
                "cost leg cannot mix flat (`kind: …`) and structured (`default`/`by_symbol`/…) shapes"@,
            )
        } else if m.dom().contains("kind"@) || is_singleton(m) {
            Ok(Tree::Object(Map::empty().insert("default"@, t)))
        } else if !is_structured(m) {
            Err(
                "cost leg must be either a flat model (`kind: …` or `!variant {…}`) or a structured `{default, by_symbol, by_interval}` mapping"@,
            )
        } else {
            Ok(t)
        },
        other => Ok(other),
    }
}

/// What is wrong with one member of a preset, if anything.
pub open spec fn leg_fault(k: Seq<char>, t: Tree) -> Option<Seq<char>> {
    if !is_leg(k) {
        Some("cost preset has unknown leg `"@ + k + "` (expected commission/spread/slippage)"@)
    } else {
        match leg_form(t) {
            Ok(_) => None,
            Err(e) => Some(e),
        }
    }
}

/// Whether a preset has something wrong at `k`.
pub open spec fn faulty(m: Map<Seq<char>, Tree>, k: Seq<char>) -> bool {
    m.dom().contains(k) && leg_fault(k, m[k]) is Some
}

/// Whether `k` is the first key of a preset with something wrong.
pub open spec fn first_faulty(m: Map<Seq<char>, Tree>, k: Seq<char>) -> bool {
    faulty(m, k) && forall|j: Seq<char>| #[trigger] faulty(m, j) ==> text::text_le(k, j)
}

/// A preset with its legs written out, or what is wrong with its first bad leg.
pub open spec fn preset_form(t: Tree) -> Result<Map<Seq<char>, Tree>, Seq<char>> {
    match t {
        Tree::Object(m) => if exists|k: Seq<char>| faulty(m, k) {
            let k = choose|k: Seq<char>| first_faulty(m, k);
            Err(leg_fault(k, m[k])->0)
        } else {
            Ok(
                Map::new(
                    |k: Seq<char>| m.dom().contains(k),
                    |k: Seq<char>| leg_form(m[k])->Ok_0,
                ),
            )
        },
        other => Err("cost preset must be a mapping (got "@ + json::sort_of(other) + ")"@),
    }
}

/// Bring a preset's leg into its written-out form.
pub fn normalize_leg(node: &Json) -> (out: Result<Json, String>)
    requires
        node.wf(),
    ensures
        match (out, leg_form(node.tree())) {
            (Ok(v), Ok(m)) => v.wf() && v.tree() == m,
            (Err(e), Err(m)) => e@ == m,
            _ => false,
        },
{
    match node {
        Json::Object(o) => {
            proof {
                singleton_is_the_entry(o.entries@);
            }
            let has_kind: bool = json::has(o, "kind");
            let structured: bool = json::has(o, "default") || json::has(o, "by_symbol")
                || json::has(o, "by_interval") || json::has(o, "scoped");
            if has_kind && structured {
                return Err(
                    "cost leg cannot mix flat (`kind: …`) and structured (`default`/`by_symbol`/…) shapes".to_owned(),
                );
            }
            if has_kind || (o.entries.len() == 1 && known_kind(&o.entries[0].0)) {
                return Ok(Json::Object(json::single("default", json::copy(node))));
            }
            if !structured {
                return Err(
                    "cost leg must be either a flat model (`kind: …` or `!variant {…}`) or a structured `{default, by_symbol, by_interval}` mapping".to_owned(),
                );
            }
            Ok(json::copy(node))
        },
        _ => Ok(json::copy(node)),
    }
}

proof fn earliest_is_first_faulty(o: OrdMap<String, Json>, i: int)
    requires
        json::sound(o),
        0 <= i < o.entries@.len(),
        faulty(json::members(o), o.entries@[i].0@),
        forall|j: int| 0 <= j < i ==> !faulty(json::members(o), (#[trigger] o.entries@[j]).0@),
    ensures
        preset_form(Tree::Object(json::members(o))) == Err::<Map<Seq<char>, Tree>, Seq<char>>(
            leg_fault(o.entries@[i].0@, json::members(o)[o.entries@[i].0@])->0,
        ),
{
    let m = json::members(o);
    let key = o.entries@[i].0@;
    json::branches_at(o.entries@);
    assert forall|j: Seq<char>| #[trigger] faulty(m, j) implies text::text_le(key, j) by {
        assert(crate::ordmap::map_of(o.entries@).dom().contains(j));
        let p = choose|p: int| crate::ordmap::holds(o.entries@, j, p);
        assert(crate::ordmap::holds(o.entries@, j, p));
        if p < i {
            assert(!faulty(m, o.entries@[p].0@));
        } else if p > i {
            assert(<String as crate::ordmap::Key>::before(
                crate::ordmap::Key::model(&o.entries@[i].0),
                crate::ordmap::Key::model(&o.entries@[p].0),
            ));
        }
    }
    assert(first_faulty(m, key));
    let k = choose|k: Seq<char>| first_faulty(m, k);
    assert(text::text_le(key, k) && text::text_le(k, key));
    if k != key {
        text::text_lt_transitive(k, key, k);
        text::text_lt_irreflexive(k);
    }
}

/// Bring a preset into the form with its legs written out.
pub fn normalize_preset(value: &Json) -> (out: Result<OrdMap<String, Json>, String>)
    requires
        value.wf(),
    ensures
        match (out, preset_form(value.tree())) {
            (Ok(o), Ok(m)) => json::sound(o) && json::members(o) == m,
            (Err(e), Err(m)) => e@ == m,
            _ => false,
        },
{
    match value {
        Json::Object(o) => {
            let ghost m = json::members(*o);
            let mut entries: Vec<(String, Json)> = Vec::new();
            let n: usize = o.entries.len();
            let ghost rule = |k: Seq<char>, t: Tree| leg_form(t)->Ok_0;
            proof {
                json::branches_at(o.entries@);
            }
            for i in 0..n
                invariant
                    n == o.entries@.len(),
                    json::sound(*o),
                    m == json::members(*o),
                    value.tree() == Tree::Object(m),
                    rule == (|k: Seq<char>, t: Tree| leg_form(t)->Ok_0),
                    forall|j: int|
                        0 <= j < n ==> m.dom().contains((#[trigger] o.entries@[j]).0@)
                            && m[o.entries@[j].0@] == o.entries@[j].1.tree(),
                    forall|j: int| 0 <= j < i ==> !faulty(m, (#[trigger] o.entries@[j]).0@),
                    entries@.len() == i,
                    forall|j: int|
                        0 <= j < i ==> (#[trigger] entries@[j]).0@ == o.entries@[j].0@
                            && entries@[j].1.wf() && entries@[j].1.tree() == rule(
                            o.entries@[j].0@,
                            o.entries@[j].1.tree(),
                        ),
            {
                assert(o.entries@[i as int].1.wf());
                let key: &String = &o.entries[i].0;
                if !leg(key) {
                    proof {
                        earliest_is_first_faulty(*o, i as int);
                    }
                    let mut message: String = "cost preset has unknown leg `".to_owned();
                    message.append(key);
                    message.append("` (expected commission/spread/slippage)");
                    return Err(message);
                }
                match normalize_leg(&o.entries[i].1) {
                    Ok(fresh) => {
                        entries.push((key.clone(), fresh));
                    },
                    Err(e) => {
                        proof {
                            earliest_is_first_faulty(*o, i as int);
                        }
                        return Err(e);
                    },
                }
            }
            let out: OrdMap<String, Json> = OrdMap { entries };
            proof {
                json::same_keys_ascend(o.entries@, out.entries@);
                json::branches_follow(o.entries@, out.entries@, rule);
                assert forall|k: Seq<char>| !faulty(m, k) by {
                    if faulty(m, k) {
                        assert(crate::ordmap::map_of(o.entries@).dom().contains(k));
                        let p = choose|p: int| crate::ordmap::holds(o.entries@, k, p);
                        assert(crate::ordmap::holds(o.entries@, k, p));
                        assert(!faulty(m, o.entries@[p].0@));
                    }
                }
                assert(json::members(out) =~= preset_form(value.tree())->Ok_0);
            }
            Ok(out)
        },
        _ => {
            let mut message: String = "cost preset must be a mapping (got ".to_owned();
            message.append(json::value_kind(value));
            message.append(")");
            Err(message)
        },
    }
}

// ---------------------------------------------------------------------------
// Merging
// ---------------------------------------------------------------------------

/// One value laid over another. Objects are merged member by member, unless one
/// of them is a model, which replaces the other whole; so does anything else.
pub open spec fn merged_value(under: Tree, over: Tree) -> Tree
    decreases over,
{
    match (under, over) {
        (Tree::Object(a), Tree::Object(b)) => if a.dom().contains("kind"@) || b.dom().contains(
            "kind"@,
        ) {
            over
        } else {
            Tree::Object(
                Map::new(
                    |k: Seq<char>| a.dom().contains(k) || b.dom().contains(k),
                    |k: Seq<char>|
                        if !b.dom().contains(k) {
                            a[k]
                        } else if a.dom().contains(k) {
                            merged_value(a[k], b[k])
                        } else {
                            b[k]
                        },
                ),
            )
        },
        _ => over,
    }
}

/// One tree of settings laid over another.
pub open spec fn merged(under: Map<Seq<char>, Tree>, over: Map<Seq<char>, Tree>) -> Map<
    Seq<char>,
    Tree,
> {
    Map::new(
        |k: Seq<char>| under.dom().contains(k) || over.dom().contains(k),
        |k: Seq<char>|
            if !over.dom().contains(k) {
                under[k]
            } else if under.dom().contains(k) {
                merged_value(under[k], over[k])
            } else {
                over[k]
            },
    )
}

proof fn objects_merge(a: Map<Seq<char>, Tree>, b: Map<Seq<char>, Tree>)
    requires
        !a.dom().contains("kind"@),
        !b.dom().contains("kind"@),
    ensures
        merged_value(Tree::Object(a), Tree::Object(b)) == Tree::Object(merged(a, b)),
{
    assert(merged_value(Tree::Object(a), Tree::Object(b))->Object_0 =~= merged(a, b));
}

/// Lay one tree over another.
pub fn deep_merge(under: &OrdMap<String, Json>, over: &OrdMap<String, Json>) -> (out: OrdMap<
    String,
    Json,
>)
    requires
        json::sound(*under),
        json::sound(*over),
    ensures
        json::sound(out),
        json::members(out) == merged(json::members(*under), json::members(*over)),
    decreases over.entries@,
{
    let ghost a = json::members(*under);
    let ghost b = json::members(*over);
    let mut out: OrdMap<String, Json> = json::copy_object(under);
    let n: usize = over.entries.len();
    proof {
        json::branches_at(over.entries@);
    }
    for i in 0..n
        invariant
            n == over.entries@.len(),
            json::sound(*under),
            json::sound(*over),
            json::sound(out),
            a == json::members(*under),
            b == json::members(*over),
            forall|j: int|
                0 <= j < n ==> b.dom().contains((#[trigger] over.entries@[j]).0@)
                    && b[over.entries@[j].0@] == over.entries@[j].1.tree(),
            forall|k: Seq<char>| #[trigger]
                json::members(out).dom().contains(k) ==> a.dom().contains(k) || b.dom().contains(k),
            forall|k: Seq<char>| #[trigger]
                a.dom().contains(k) ==> json::members(out).dom().contains(k),
            forall|k: Seq<char>|
                #![trigger json::members(out)[k]]
                a.dom().contains(k) && !b.dom().contains(k) ==> json::members(out)[k] == a[k],
            forall|j: int|
                0 <= j < i ==> json::members(out).dom().contains((#[trigger] over.entries@[j]).0@)
                    && json::members(out)[over.entries@[j].0@] == merged(
                    a,
                    b,
                )[over.entries@[j].0@],
    {
        let key: &String = &over.entries[i].0;
        let node: &Json = &over.entries[i].1;
        let ghost was = json::members(out);
        assert(over.entries@[i as int].1.wf());
        let fresh: Json = match (json::member(under, key), node) {
            (Some(Json::Object(x)), Json::Object(y)) => if json::has(x, "kind") || json::has(
                y,
                "kind",
            ) {
                json::copy(node)
            } else {
                proof {
                    objects_merge(json::members(*x), json::members(*y));
                }
                Json::Object(deep_merge(x, y))
            },
            _ => json::copy(node),
        };
        assert(fresh.tree() == merged(a, b)[key@]);
        json::put(&mut out, key, fresh);
        proof {
            assert forall|j: int| 0 <= j < i implies (#[trigger] over.entries@[j]).0@ != key@ by {
                crate::ordmap::place_is_unique(over.entries@, j);
                crate::ordmap::place_is_unique(over.entries@, i as int);
            }
        }
    }
    proof {
        let c = json::members(out);
        let d = merged(a, b);
        assert forall|k: Seq<char>| b.dom().contains(k) implies c.dom().contains(k) && #[trigger] c[k]
            == d[k] by {
            assert(crate::ordmap::map_of(over.entries@).dom().contains(k));
            let p = choose|p: int| crate::ordmap::holds(over.entries@, k, p);
            assert(crate::ordmap::holds(over.entries@, k, p));
            assert(over.entries@[p].0@ == k);
        }
        assert forall|k: Seq<char>| c.dom().contains(k) == #[trigger] d.dom().contains(k) by {
            if b.dom().contains(k) {
                assert(c[k] == d[k]);
            }
            if a.dom().contains(k) {
            }
        }
        assert forall|k: Seq<char>| #[trigger] c.dom().contains(k) implies c[k] == d[k] by {
            if b.dom().contains(k) {
                assert(c[k] == d[k]);
            }
        }
        assert(c =~= d);
    }
    out
}

// ---------------------------------------------------------------------------
// Setting one key
// ---------------------------------------------------------------------------

/// What stands at a key, if anything.
pub open spec fn at(m: Map<Seq<char>, Tree>, key: Seq<char>) -> Option<Tree> {
    if m.dom().contains(key) {
        Some(m[key])
    } else {
        None
    }
}

/// The members of a value; none where it is no object.
pub open spec fn members_at(existing: Option<Tree>) -> Map<Seq<char>, Tree> {
    match existing {
        Some(Tree::Object(m)) => m,
        _ => Map::empty(),
    }
}

/// A value with `value` at the end of a path of keys. What stands in the way and
/// is no object makes room for one.
pub open spec fn assigned(existing: Option<Tree>, path: Seq<Seq<char>>, value: Tree) -> Tree
    decreases path.len(),
{
    if path.len() == 0 {
        value
    } else {
        let m = members_at(existing);
        Tree::Object(m.insert(path[0], assigned(at(m, path[0]), path.skip(1), value)))
    }
}

/// Put a value at the end of a path of keys.
pub fn assign_path(existing: Option<&Json>, path: &[String], from: usize, value: &Json) -> (out:
    Json)
    requires
        from <= path@.len(),
        value.wf(),
        existing matches Some(e) ==> e.wf(),
    ensures
        out.wf(),
        out.tree() == assigned(tree_at(existing), text::texts(path@).skip(from as int), value.tree()),
    decreases path@.len() - from,
{
    let ghost all = text::texts(path@);
    if from >= path.len() {
        return json::copy(value);
    }
    let mut o: OrdMap<String, Json> = match existing {
        Some(Json::Object(o)) => json::copy_object(o),
        _ => json::nothing(),
    };
    let ghost m = json::members(o);
    let below: Json = assign_path(json::member(&o, &path[from]), path, from + 1, value);
    proof {
        assert(all.skip(from as int).skip(1) =~= all.skip(from + 1));
        assert(all.skip(from as int)[0] == path@[from as int]@);
        assert(m == members_at(tree_at(existing)));
    }
    json::put(&mut o, &path[from], below);
    Json::Object(o)
}

/// The tree of an optional value.
pub open spec fn tree_at(v: Option<&Json>) -> Option<Tree> {
    match v {
        Some(v) => Some(v.tree()),
        None => None,
    }
}

/// The kind of the model that a value is, where it is one.
pub open spec fn model_kind(existing: Option<Tree>) -> Option<Seq<char>> {
    match at(members_at(existing), "kind"@) {
        Some(Tree::Text(kind)) => Some(kind),
        _ => None,
    }
}

/// The refusal of a path that names another kind of model than the one there.
pub open spec fn wrong_kind(
    leg: Seq<char>,
    path: Seq<Seq<char>>,
    current: Seq<char>,
) -> Seq<char> {
    "cost setter `"@ + leg + "."@ + text::joined(path, "."@) + "`: the "@ + leg + " model is `!"@
        + current + "`, not `!"@ + path[0] + "` — nudge a field `!"@ + current
        + "` actually has, or replace the model outright with `"@ + leg + "=!"@ + path[0]
        + " { … }`"@
}

/// The model at a place with `value` at the end of a path into it. A path may
/// begin with the kind of the model there; another kind is refused.
pub open spec fn aimed(
    leg: Seq<char>,
    existing: Option<Tree>,
    path: Seq<Seq<char>>,
    value: Tree,
) -> Result<Tree, Seq<char>> {
    if path.len() > 0 && is_kind(path[0]) && model_kind(existing) is Some {
        let current = model_kind(existing)->0;
        if current != path[0] {
            Err(wrong_kind(leg, path, current))
        } else if path.len() >= 2 {
            Ok(assigned(existing, path.skip(1), value))
        } else {
            Ok(assigned(existing, path, value))
        }
    } else {
        Ok(assigned(existing, path, value))
    }
}

/// The kind of the model that a value is, where it is one.
fn kind_of<'a>(existing: Option<&'a Json>) -> (out: Option<&'a String>)
    requires
        existing matches Some(e) ==> e.wf(),
    ensures
        match out {
            Some(k) => model_kind(tree_at(existing)) == Some(k@),
            None => model_kind(tree_at(existing)) is None,
        },
{
    match existing {
        Some(Json::Object(o)) => match json::member(o, "kind") {
            Some(Json::Text(k)) => Some(k),
            _ => None,
        },
        _ => None,
    }
}

/// Check that a path into a model names its kind, where it names a kind.
pub fn check_variant(leg: &str, existing: Option<&Json>, path: &[String]) -> (out: Result<
    (),
    String,
>)
    requires
        existing matches Some(e) ==> e.wf(),
    ensures
        ({
            let p = text::texts(path@);
            let bad = p.len() > 0 && is_kind(p[0]) && model_kind(tree_at(existing)) is Some
                && model_kind(tree_at(existing))->0 != p[0];
            match out {
                Ok(_) => !bad,
                Err(e) => bad && e@ == wrong_kind(leg@, p, model_kind(tree_at(existing))->0),
            }
        }),
{
    if path.len() == 0 || !known_kind(&path[0]) {
        return Ok(());
    }
    match kind_of(existing) {
        Some(current) => {
            if text::same(current, &path[0]) {
                return Ok(());
            }
            let mut message: String = "cost setter `".to_owned();
            message.append(leg);
            message.append(".");
            message.append(&text::join(path, "."));
            message.append("`: the ");
            message.append(leg);
            message.append(" model is `!");
            message.append(current);
            message.append("`, not `!");
            message.append(&path[0]);
            message.append("` — nudge a field `!");
            message.append(current);
            message.append("` actually has, or replace the model outright with `");
            message.append(leg);
            message.append("=!");
            message.append(&path[0]);
            message.append(" { … }`");
            Err(message)
        },
        None => Ok(()),
    }
}

/// Put a value at the end of a path into the model at a place.
fn aim(leg: &str, existing: Option<&Json>, path: &[String], value: &Json) -> (out: Result<
    Json,
    String,
>)
    requires
        value.wf(),
        existing matches Some(e) ==> e.wf(),
    ensures
        match (out, aimed(leg@, tree_at(existing), text::texts(path@), value.tree())) {
            (Ok(v), Ok(m)) => v.wf() && v.tree() == m,
            (Err(e), Err(m)) => e@ == m,
            _ => false,
        },
{
    match check_variant(leg, existing, path) {
        Err(e) => Err(e),
        Ok(()) => {
            let skip: usize = if path.len() >= 2 && known_kind(&path[0]) && kind_of(
                existing,
            ).is_some() {
                1
            } else {
                0
            };
            assert(text::texts(path@).skip(0) =~= text::texts(path@));
            Ok(assign_path(existing, path, skip, value))
        },
    }
}

/// The entry of a list for one symbol at one cadence.
pub open spec fn scoped_entry(symbol: Seq<char>, freq: Seq<char>, model: Tree) -> Tree {
    Tree::Object(
        Map::empty().insert("symbol"@, Tree::Text(symbol)).insert("freq"@, Tree::Text(freq)).insert(
            "model"@,
            model,
        ),
    )
}

/// A leg with one key set, or why it cannot be. Without a scope the key is that of
/// the default model, unless it names a member of the leg itself; a symbol or a
/// cadence alone has a model of its own; the two together get one more entry in
/// the scoped list, which takes whole models only.
pub open spec fn set_in_leg(
    m: Map<Seq<char>, Tree>,
    scope: ScopeModel,
    key: Seq<Seq<char>>,
    value: Tree,
) -> Result<Map<Seq<char>, Tree>, Seq<char>> {
    let leg = key[0];
    let rest = key.skip(1);
    match (scope.symbol, scope.freq) {
        (None, None) => if rest.len() > 0 && (rest[0] == "by_symbol"@ || rest[0] == "by_interval"@
            || rest[0] == "scoped"@) {
            Ok(members_at(Some(assigned(Some(Tree::Object(m)), rest, value))))
        } else {
            let path = if rest.len() > 0 && rest[0] == "default"@ {
                rest.skip(1)
            } else {
                rest
            };
            match aimed(leg, at(m, "default"@), path, value) {
                Ok(t) => Ok(m.insert("default"@, t)),
                Err(e) => Err(e),
            }
        },
        (Some(symbol), None) => {
            let by = members_at(at(m, "by_symbol"@));
            match aimed(leg, at(by, symbol), rest, value) {
                Ok(t) => Ok(m.insert("by_symbol"@, Tree::Object(by.insert(symbol, t)))),
                Err(e) => Err(e),
            }
        },
        (None, Some(freq)) => {
            let by = members_at(at(m, "by_interval"@));
            match aimed(leg, at(by, freq.code()), rest, value) {
                Ok(t) => Ok(m.insert("by_interval"@, Tree::Object(by.insert(freq.code(), t)))),
                Err(e) => Err(e),
            }
        },
        (Some(symbol), Some(freq)) => if rest.len() > 0 {
            Err(
                "scoped cost setter `"@ + symbol + "["@ + freq.code() + "]:"@ + text::joined(
                    key,
                    "."@,
                )
                    + "` cannot use a dotted subkey; assign the whole model with a single expression"@,
            )
        } else {
            match at(m, "scoped"@) {
                None => Ok(
                    m.insert(
                        "scoped"@,
                        Tree::Array(seq![scoped_entry(symbol, freq.code(), value)]),
                    ),
                ),
                Some(Tree::Array(items)) => Ok(
                    m.insert(
                        "scoped"@,
                        Tree::Array(items.push(scoped_entry(symbol, freq.code(), value))),
                    ),
                ),
                _ => Err("`"@ + leg + ".scoped` must be an array"@),
            }
        },
    }
}

/// A tree of settings with one key set, or why it cannot be.
pub open spec fn set_in_tree(
    tree: Map<Seq<char>, Tree>,
    scope: ScopeModel,
    key: Seq<Seq<char>>,
    value: Tree,
) -> Result<Map<Seq<char>, Tree>, Seq<char>> {
    match at(tree, key[0]) {
        Some(Tree::Object(m)) => match set_in_leg(m, scope, key, value) {
            Ok(l) => Ok(tree.insert(key[0], Tree::Object(l))),
            Err(e) => Err(e),
        },
        _ => Err("leg `"@ + key[0] + "` is not an object"@),
    }
}

/// The members of a value; none where it is no object.
fn object_at(existing: Option<&Json>) -> (out: OrdMap<String, Json>)
    requires
        existing matches Some(e) ==> e.wf(),
    ensures
        json::sound(out),
        json::members(out) == members_at(tree_at(existing)),
{
    match existing {
        Some(Json::Object(o)) => json::copy_object(o),
        _ => json::nothing(),
    }
}

/// Put a value at the end of a path into one symbol's, or one cadence's, model.
fn set_override(
    o: &OrdMap<String, Json>,
    map: &str,
    name: &str,
    key: &Vec<String>,
    value: &Json,
) -> (out: Result<OrdMap<String, Json>, String>)
    requires
        json::sound(*o),
        key@.len() > 0,
        value.wf(),
    ensures
        ({
            let m = json::members(*o);
            let by = members_at(at(m, map@));
            match (
                out,
                aimed(key@[0]@, at(by, name@), text::texts(key@).skip(1), value.tree()),
            ) {
                (Ok(l), Ok(t)) => json::sound(l) && json::members(l) == m.insert(
                    map@,
                    Tree::Object(by.insert(name@, t)),
                ),
                (Err(e), Err(f)) => e@ == f,
                _ => false,
            }
        }),
{
    let mut by: OrdMap<String, Json> = object_at(json::member(o, map));
    let rest: Vec<String> = tail(key, 1);
    match aim(&key[0], json::member(&by, name), &rest, value) {
        Err(e) => Err(e),
        Ok(model) => {
            json::put(&mut by, name, model);
            let mut out: OrdMap<String, Json> = json::copy_object(o);
            json::put(&mut out, map, Json::Object(by));
            Ok(out)
        },
    }
}

/// The segments of a key from `from` on.
fn tail(key: &Vec<String>, from: usize) -> (out: Vec<String>)
    requires
        from <= key@.len(),
    ensures
        text::texts(out@) == text::texts(key@).skip(from as int),
{
    let mut out: Vec<String> = Vec::new();
    let mut i: usize = from;
    while i < key.len()
        invariant
            from <= i <= key@.len(),
            out@.len() == i - from,
            forall|j: int| 0 <= j < out@.len() ==> (#[trigger] out@[j])@ == key@[j + from]@,
        decreases key@.len() - i,
    {
        out.push(key[i].clone());
        i = i + 1;
    }
    assert(text::texts(out@) =~= text::texts(key@).skip(from as int));
    out
}

/// Append one more entry for a symbol at a cadence.
fn append_scoped(
    o: &OrdMap<String, Json>,
    leg: &str,
    symbol: &str,
    freq: &str,
    value: &Json,
) -> (out: Result<OrdMap<String, Json>, String>)
    requires
        json::sound(*o),
        value.wf(),
    ensures
        ({
            let m = json::members(*o);
            let entry = scoped_entry(symbol@, freq@, value.tree());
            match (out, at(m, "scoped"@)) {
                (Ok(l), None) => json::sound(l) && json::members(l) == m.insert(
                    "scoped"@,
                    Tree::Array(seq![entry]),
                ),
                (Ok(l), Some(Tree::Array(items))) => json::sound(l) && json::members(l) == m.insert(
                    "scoped"@,
                    Tree::Array(items.push(entry)),
                ),
                (Err(e), Some(t)) => !(t is Array) && e@ == "`"@ + leg@
                    + ".scoped` must be an array"@,
                _ => false,
            }
        }),
{
    let mut list: Vec<Json> = Vec::new();
    let existing: Option<&Json> = json::member(o, "scoped");
    match existing {
        None => {},
        Some(Json::Array(items)) => {
            let n: usize = items.len();
            for i in 0..n
                invariant
                    n == items@.len(),
                    existing is Some,
                    *(existing->0) is Array,
                    existing->0->Array_0 == *items,
                    existing->0.wf(),
                    list@.len() == i,
                    forall|j: int|
                        0 <= j < i ==> (#[trigger] list@[j]).wf() && list@[j].tree()
                            == items@[j].tree(),
            {
                assert(items@[i as int].wf());
                list.push(json::copy(&items[i]));
            }
            proof {
                json::forest_at(items@);
                json::forest_at(list@);
                assert(json::forest(list@) =~= json::forest(items@));
            }
        },
        Some(_) => {
            let mut message: String = "`".to_owned();
            message.append(leg);
            message.append(".scoped` must be an array");
            return Err(message);
        },
    }
    let mut entry: OrdMap<String, Json> = json::single("symbol", Json::Text(symbol.to_owned()));
    json::put(&mut entry, "freq", Json::Text(freq.to_owned()));
    json::put(&mut entry, "model", json::copy(value));
    let entry: Json = Json::Object(entry);
    assert(entry.tree() == scoped_entry(symbol@, freq@, value.tree()));
    assert(entry.wf());
    let ghost before = list@;
    list.push(entry);
    proof {
        assert forall|j: int| 0 <= j < list@.len() implies (#[trigger] list@[j]).wf() by {
            if j < before.len() {
                assert(list@[j] == before[j]);
            }
        }
        assert(list@.drop_last() =~= before);
        assert(json::forest(list@) == json::forest(before).push(
            scoped_entry(symbol@, freq@, value.tree()),
        ));
        if existing is None {
            assert(json::forest(list@) =~= seq![scoped_entry(symbol@, freq@, value.tree())]);
        }
    }
    let mut out: OrdMap<String, Json> = json::copy_object(o);
    json::put(&mut out, "scoped", Json::Array(list));
    Ok(out)
}

/// Set one key of a leg.
fn set_leg(o: &OrdMap<String, Json>, scope: &Scope, key: &Vec<String>, value: &Json) -> (out:
    Result<OrdMap<String, Json>, String>)
    requires
        json::sound(*o),
        key@.len() > 0,
        value.wf(),
    ensures
        match (
            out,
            set_in_leg(json::members(*o), scope@, text::texts(key@), value.tree()),
        ) {
            (Ok(l), Ok(m)) => json::sound(l) && json::members(l) == m,
            (Err(e), Err(m)) => e@ == m,
            _ => false,
        },
{
    let ghost all = text::texts(key@);
    assert(all[0] == key@[0]@);
    assert(all.skip(1).len() > 0 ==> all.skip(1)[0] == key@[1]@);
    match (&scope.symbol, scope.freq) {
        (None, None) => {
            if key.len() > 1 && (text::same(&key[1], "by_symbol") || text::same(
                &key[1],
                "by_interval",
            ) || text::same(&key[1], "scoped")) {
                let whole: Json = Json::Object(json::copy_object(o));
                let out: Json = assign_path(Some(&whole), key, 1, value);
                match out {
                    Json::Object(l) => Ok(l),
                    _ => Ok(json::nothing()),
                }
            } else {
                let from: usize = if key.len() > 1 && text::same(&key[1], "default") {
                    2
                } else {
                    1
                };
                let path: Vec<String> = tail(key, from);
                proof {
                    if from == 2 {
                        assert(all.skip(1).skip(1) =~= all.skip(2));
                    }
                }
                match aim(&key[0], json::member(o, "default"), &path, value) {
                    Err(e) => Err(e),
                    Ok(model) => {
                        let mut out: OrdMap<String, Json> = json::copy_object(o);
                        json::put(&mut out, "default", model);
                        Ok(out)
                    },
                }
            }
        },
        (Some(symbol), None) => set_override(o, "by_symbol", symbol, key, value),
        (None, Some(freq)) => set_override(o, "by_interval", &freq.format(), key, value),
        (Some(symbol), Some(freq)) => {
            if key.len() > 1 {
                let mut message: String = "scoped cost setter `".to_owned();
                message.append(symbol);
                message.append("[");
                message.append(&freq.format());
                message.append("]:");
                message.append(&text::join(key, "."));
                message.append(
                    "` cannot use a dotted subkey; assign the whole model with a single expression",
                );
                return Err(message);
            }
            append_scoped(o, &key[0], symbol, &freq.format(), value)
        },
    }
}

/// Set one key of a tree of settings.
pub fn set_scoped(
    tree: &OrdMap<String, Json>,
    scope: &Scope,
    key: &Vec<String>,
    value: &Json,
) -> (out: Result<OrdMap<String, Json>, String>)
    requires
        json::sound(*tree),
        key@.len() > 0,
        value.wf(),
    ensures
        match (
            out,
            set_in_tree(json::members(*tree), scope@, text::texts(key@), value.tree()),
        ) {
            (Ok(l), Ok(m)) => json::sound(l) && json::members(l) == m,
            (Err(e), Err(m)) => e@ == m,
            _ => false,
        },
{
    assert(text::texts(key@)[0] == key@[0]@);
    match json::member(tree, &key[0]) {
        Some(Json::Object(o)) => match set_leg(o, scope, key, value) {
            Err(e) => Err(e),
            Ok(l) => {
                let mut out: OrdMap<String, Json> = json::copy_object(tree);
                json::put(&mut out, &key[0], Json::Object(l));
                Ok(out)
            },
        },
        _ => {
            let mut message: String = "leg `".to_owned();
            message.append(&key[0]);
            message.append("` is not an object");
            Err(message)
        },
    }
}

// ---------------------------------------------------------------------------
// Folding terms
// ---------------------------------------------------------------------------

/// What came of reading a value or a preset.
#[derive(Debug)]
pub enum Reading {
    /// Its text could not be had.
    Unread,
    /// Its text is no tree of values.
    Unparsed,
    Value(Json),
}

/// What came of reading, as mathematics.
pub enum ReadingModel {
    Unread,
    Unparsed,
    Value(Tree),
}

impl Reading {
    /// What this is, as mathematics.
    pub open spec fn model(self) -> ReadingModel {
        match self {
            Reading::Unread => ReadingModel::Unread,
            Reading::Unparsed => ReadingModel::Unparsed,
            Reading::Value(v) => ReadingModel::Value(v.tree()),
        }
    }

    /// Whether every object in it has its keys in order.
    pub open spec fn wf(self) -> bool {
        self matches Reading::Value(v) ==> v.wf()
    }
}

/// A second reading that says the same.
fn copy_reading(r: &Reading) -> (out: Reading)
    requires
        r.wf(),
    ensures
        out.wf(),
        out.model() == r.model(),
{
    match r {
        Reading::Unread => Reading::Unread,
        Reading::Unparsed => Reading::Unparsed,
        Reading::Value(v) => Reading::Value(json::copy(v)),
    }
}

/// One term of a list.
#[derive(Debug)]
pub enum CostTerm {
    /// Reset everything.
    Reset,
    /// A whole preset.
    Load { label: String, content: Reading },
    /// Set one key.
    Assign { scope: Scope, key: Vec<String>, value: Json },
}

/// One term, as mathematics.
pub enum TermModel {
    Reset,
    Load(Seq<char>, ReadingModel),
    Assign(ScopeModel, Seq<Seq<char>>, Tree),
}

impl CostTerm {
    /// What this is, as mathematics.
    pub open spec fn model(self) -> TermModel {
        match self {
            CostTerm::Reset => TermModel::Reset,
            CostTerm::Load { label, content } => TermModel::Load(label@, content.model()),
            CostTerm::Assign { scope, key, value } => TermModel::Assign(
                scope@,
                text::texts(key@),
                value.tree(),
            ),
        }
    }

    /// Whether the term is one that a list can hold: its key begins with a leg, and
    /// its values have their keys in order.
    pub open spec fn wf(self) -> bool {
        match self {
            CostTerm::Reset => true,
            CostTerm::Load { label, content } => content.wf(),
            CostTerm::Assign { scope, key, value } => value.wf() && key@.len() > 0 && is_leg(
                key@[0]@,
            ),
        }
    }
}

/// A list of terms.
#[derive(Debug)]
pub struct CostSpec {
    pub terms: Vec<CostTerm>,
}

/// The terms as mathematics.
pub open spec fn models(terms: Seq<CostTerm>) -> Seq<TermModel> {
    Seq::new(terms.len(), |i: int| terms[i].model())
}

/// The readings as mathematics.
pub open spec fn readings_of(readings: Seq<Reading>) -> Seq<ReadingModel> {
    Seq::new(readings.len(), |i: int| readings[i].model())
}

/// A term with what came of reading its value, or what is wrong with it. A preset
/// that was not read is no fault yet.
pub open spec fn term_with(t: TermText, r: ReadingModel) -> Result<TermModel, Seq<char>> {
    match t {
        TermText::Reset => Ok(TermModel::Reset),
        TermText::Load(path) => Ok(TermModel::Load(path, r)),
        TermText::Assign { scope, key, key_text, value } => match r {
            ReadingModel::Value(v) => Ok(TermModel::Assign(scope, key, v)),
            _ => Err("parsing cost value for `"@ + key_text + "`"@),
        },
    }
}

/// The first `n` terms with what came of reading their values, or what is wrong
/// with the first bad one.
pub open spec fn terms_with(terms: Seq<TermText>, readings: Seq<ReadingModel>, n: int) -> Result<
    Seq<TermModel>,
    Seq<char>,
>
    decreases n,
{
    if n <= 0 {
        Ok(seq![])
    } else {
        match terms_with(terms, readings, n - 1) {
            Err(e) => Err(e),
            Ok(done) => match term_with(terms[n - 1], readings[n - 1]) {
                Ok(t) => Ok(done.push(t)),
                Err(e) => Err(e),
            },
        }
    }
}

proof fn terms_with_stay_wrong(terms: Seq<TermText>, readings: Seq<ReadingModel>, k: int, n: int)
    requires
        0 <= k <= n,
        terms_with(terms, readings, k) is Err,
    ensures
        terms_with(terms, readings, n) == terms_with(terms, readings, k),
    decreases n,
{
    if k < n {
        terms_with_stay_wrong(terms, readings, k, n - 1);
    }
}

/// A whole list with what came of reading its values, or what is wrong with it.
pub open spec fn spec_with(
    terms: Seq<TermText>,
    fault: Option<Seq<char>>,
    readings: Seq<ReadingModel>,
) -> Result<Seq<TermModel>, Seq<char>> {
    match terms_with(terms, readings, terms.len() as int) {
        Err(e) => Err(e),
        Ok(done) => match fault {
            Some(e) => Err(e),
            None => Ok(done),
        },
    }
}

impl RawTerm {
    /// Whether the term's key begins with a leg.
    pub open spec fn wf(self) -> bool {
        self matches RawTerm::Assign { key, .. } ==> key@.len() > 0 && is_leg(key@[0]@)
    }
}

/// A copy of a scope.
fn copy_scope(scope: &Scope) -> (out: Scope)
    ensures
        out@ == scope@,
{
    let symbol: Option<String> = match &scope.symbol {
        Some(s) => Some(s.clone()),
        None => None,
    };
    Scope { symbol, freq: scope.freq }
}

impl CostSpec {
    /// A list of terms with what came of reading their values: one reading for each
    /// term, which a reset leaves aside.
    pub fn from_readings(raw: &RawSpec, readings: &Vec<Reading>) -> (out: Result<CostSpec, String>)
        requires
            readings@.len() == raw.terms@.len(),
            forall|i: int| 0 <= i < readings@.len() ==> (#[trigger] readings@[i]).wf(),
            forall|i: int| 0 <= i < raw.terms@.len() ==> (#[trigger] raw.terms@[i]).wf(),
        ensures
            match (
                out,
                spec_with(
                    term_texts(raw.terms@),
                    calendar::text_of(raw.fault),
                    readings_of(readings@),
                ),
            ) {
                (Ok(spec), Ok(m)) => models(spec.terms@) == m && forall|i: int|
                    0 <= i < spec.terms@.len() ==> (#[trigger] spec.terms@[i]).wf(),
                (Err(e), Err(m)) => e@ == m,
                _ => false,
            },
    {
        let ghost texts = term_texts(raw.terms@);
        let ghost given = readings_of(readings@);
        let mut terms: Vec<CostTerm> = Vec::new();
        let n: usize = raw.terms.len();
        assert(models(terms@) =~= Seq::<TermModel>::empty());
        for i in 0..n
            invariant
                n == raw.terms@.len(),
                readings@.len() == n,
                texts == term_texts(raw.terms@),
                given == readings_of(readings@),
                forall|j: int| 0 <= j < readings@.len() ==> (#[trigger] readings@[j]).wf(),
                forall|j: int| 0 <= j < raw.terms@.len() ==> (#[trigger] raw.terms@[j]).wf(),
                forall|j: int| 0 <= j < terms@.len() ==> (#[trigger] terms@[j]).wf(),
                terms_with(texts, given, i as int) == Ok::<Seq<TermModel>, Seq<char>>(
                    models(terms@),
                ),
        {
            let ghost was = terms@;
            assert(texts[i as int] == raw.terms@[i as int]@);
            assert(given[i as int] == readings@[i as int].model());
            let term: CostTerm = match &raw.terms[i] {
                RawTerm::Reset => CostTerm::Reset,
                RawTerm::Load(path) => CostTerm::Load {
                    label: path.clone(),
                    content: copy_reading(&readings[i]),
                },
                RawTerm::Assign { scope, key, key_text, value: _ } => match &readings[i] {
                    Reading::Value(v) => {
                        let copied: Vec<String> = tail(key, 0);
                        proof {
                            assert(text::texts(key@).skip(0) =~= text::texts(key@));
                            assert(text::texts(copied@)[0] == text::texts(key@)[0]);
                            assert(copied@.len() == key@.len());
                        }
                        CostTerm::Assign {
                            scope: copy_scope(scope),
                            key: copied,
                            value: json::copy(v),
                        }
                    },
                    _ => {
                        proof {
                            terms_with_stay_wrong(texts, given, i + 1, n as int);
                        }
                        let mut message: String = "parsing cost value for `".to_owned();
                        message.append(key_text);
                        message.append("`");
                        return Err(message);
                    },
                },
            };
            terms.push(term);
            assert(models(terms@) =~= models(was).push(term.model()));
        }
        match &raw.fault {
            Some(e) => Err(e.clone()),
            None => Ok(CostSpec { terms }),
        }
    }
}

/// What comes of reading a YAML text.
pub open spec fn said(text: Seq<char>) -> ReadingModel {
    match convert::tree_said(text) {
        Some(t) => ReadingModel::Value(t),
        None => ReadingModel::Unparsed,
    }
}

/// What comes of reading the preset at `i`, where its text was had.
pub open spec fn preset_said(presets: Seq<Option<String>>, i: int) -> ReadingModel {
    if i < presets.len() {
        match presets[i] {
            Some(s) => said(s@),
            None => ReadingModel::Unread,
        }
    } else {
        ReadingModel::Unread
    }
}

/// What comes of reading the values that terms assign and the presets that they
/// load; `presets` has the text of the preset that each term loads.
pub open spec fn readings_said(terms: Seq<TermText>, presets: Seq<Option<String>>) -> Seq<
    ReadingModel,
> {
    Seq::new(
        terms.len(),
        |i: int|
            match terms[i] {
                TermText::Reset => ReadingModel::Unread,
                TermText::Load(_) => preset_said(presets, i),
                TermText::Assign { value, .. } => said(value),
            },
    )
}

/// Read a YAML text.
fn read_said(s: &str) -> (out: Reading)
    ensures
        out.wf(),
        out.model() == said(s@),
{
    match convert::read_tree(s) {
        Some(v) => Reading::Value(v),
        None => Reading::Unparsed,
    }
}

impl CostSpec {
    /// Read a list of terms. `presets` has, in the place of each term that loads a
    /// preset, the preset's text, where it could be had.
    pub fn parse(s: &str, presets: &[Option<String>]) -> (out: Result<CostSpec, String>)
        ensures
            match (
                out,
                spec_with(
                    terms_of(s@).0,
                    terms_of(s@).1,
                    readings_said(terms_of(s@).0, presets@),
                ),
            ) {
                (Ok(spec), Ok(m)) => models(spec.terms@) == m && forall|i: int|
                    0 <= i < spec.terms@.len() ==> (#[trigger] spec.terms@[i]).wf(),
                (Err(e), Err(m)) => e@ == m,
                _ => false,
            },
    {
        let raw: RawSpec = RawSpec::parse(s);
        let ghost texts = term_texts(raw.terms@);
        let mut readings: Vec<Reading> = Vec::new();
        let n: usize = raw.terms.len();
        for i in 0..n
            invariant
                n == raw.terms@.len(),
                texts == term_texts(raw.terms@),
                readings@.len() == i,
                forall|j: int|
                    0 <= j < i ==> (#[trigger] readings@[j]).wf() && readings@[j].model()
                        == readings_said(texts, presets@)[j],
        {
            assert(texts[i as int] == raw.terms@[i as int]@);
            let reading: Reading = match &raw.terms[i] {
                RawTerm::Reset => Reading::Unread,
                RawTerm::Load(_) => if i < presets.len() {
                    match &presets[i] {
                        Some(text) => read_said(text),
                        None => Reading::Unread,
                    }
                } else {
                    Reading::Unread
                },
                RawTerm::Assign { value, .. } => read_said(value),
            };
            readings.push(reading);
        }
        assert(readings_of(readings@) =~= readings_said(texts, presets@));
        CostSpec::from_readings(&raw, &readings)
    }
}

/// The tree without settings.
pub open spec fn no_settings() -> Map<Seq<char>, Tree> {
    Map::empty().insert("commission"@, Tree::Object(Map::empty())).insert(
        "spread"@,
        Tree::Object(Map::empty()),
    ).insert("slippage"@, Tree::Object(Map::empty()))
}

/// Whether a tree has its three legs and nothing else.
pub open spec fn has_legs(m: Map<Seq<char>, Tree>) -> bool {
    forall|k: Seq<char>| #[trigger] m.dom().contains(k) <==> is_leg(k)
}

/// A tree with one term applied, or why it cannot be.
pub open spec fn applied(tree: Map<Seq<char>, Tree>, term: TermModel) -> Result<
    Map<Seq<char>, Tree>,
    Seq<char>,
> {
    match term {
        TermModel::Reset => Ok(normal_tree(no_settings())),
        TermModel::Load(label, ReadingModel::Unread) => Err("reading --costs file"@),
        TermModel::Load(label, ReadingModel::Unparsed) => Err("parsing --costs file "@ + label),
        TermModel::Load(label, ReadingModel::Value(t)) => match preset_form(t) {
            Ok(p) => Ok(normal_tree(merged(tree, p))),
            Err(e) => Err("normalizing --costs preset "@ + label + ": "@ + e),
        },
        TermModel::Assign(scope, key, value) => match set_in_tree(tree, scope, key, value) {
            Ok(t) => Ok(normal_tree(t)),
            Err(e) => Err(e),
        },
    }
}

/// All terms applied in order, or what is wrong with the first bad one.
pub open spec fn folded(terms: Seq<TermModel>) -> Result<Map<Seq<char>, Tree>, Seq<char>>
    decreases terms.len(),
{
    if terms.len() == 0 {
        Ok(no_settings())
    } else {
        match folded(terms.drop_last()) {
            Err(e) => Err(e),
            Ok(tree) => applied(tree, terms.last()),
        }
    }
}

/// What is wrong with the first terms is wrong with all of them.
pub proof fn fold_stays_wrong(terms: Seq<TermModel>, k: int)
    requires
        0 <= k <= terms.len(),
        folded(terms.take(k)) is Err,
    ensures
        folded(terms) == folded(terms.take(k)),
    decreases terms.len() - k,
{
    if k < terms.len() {
        assert(terms.take(k + 1).drop_last() =~= terms.take(k));
        fold_stays_wrong(terms, k + 1);
    } else {
        assert(terms.take(k) =~= terms);
    }
}

/// The tree without settings.
pub fn empty_tree() -> (out: OrdMap<String, Json>)
    ensures
        json::sound(out),
        json::members(out) == no_settings(),
        has_legs(json::members(out)),
{
    let mut out: OrdMap<String, Json> = json::single("commission", Json::Object(json::nothing()));
    json::put(&mut out, "spread", Json::Object(json::nothing()));
    json::put(&mut out, "slippage", Json::Object(json::nothing()));
    out
}

/// Apply one term to a tree of settings.
pub fn apply_term(tree: &OrdMap<String, Json>, term: &CostTerm) -> (out: Result<
    OrdMap<String, Json>,
    String,
>)
    requires
        json::sound(*tree),
        has_legs(json::members(*tree)),
        term.wf(),
    ensures
        match (out, applied(json::members(*tree), term.model())) {
            (Ok(o), Ok(m)) => json::sound(o) && json::members(o) == m && has_legs(m),
            (Err(e), Err(m)) => e@ == m,
            _ => false,
        },
{
    match term {
        CostTerm::Reset => Ok(normalize_tree_to_internal_tags(&empty_tree())),
        CostTerm::Load { label, content } => match content {
            Reading::Unread => Err("reading --costs file".to_owned()),
            Reading::Unparsed => {
                let mut message: String = "parsing --costs file ".to_owned();
                message.append(label);
                Err(message)
            },
            Reading::Value(v) => match normalize_preset(v) {
                Ok(p) => {
                    let out: OrdMap<String, Json> = deep_merge(tree, &p);
                    proof {
                        preset_has_legs(v.tree());
                    }
                    Ok(normalize_tree_to_internal_tags(&out))
                },
                Err(e) => {
                    let mut message: String = "normalizing --costs preset ".to_owned();
                    message.append(label);
                    message.append(": ");
                    message.append(&e);
                    Err(message)
                },
            },
        },
        CostTerm::Assign { scope, key, value } => match set_scoped(tree, scope, key, value) {
            Ok(out) => {
                assert(text::texts(key@)[0] == key@[0]@);
                Ok(normalize_tree_to_internal_tags(&out))
            },
            Err(e) => Err(e),
        },
    }
}

proof fn preset_has_legs(t: Tree)
    ensures
        match preset_form(t) {
            Ok(p) => forall|k: Seq<char>| #[trigger] p.dom().contains(k) ==> is_leg(k),
            Err(_) => true,
        },
{
    if let Tree::Object(m) = t {
        assert forall|k: Seq<char>| m.dom().contains(k) && !is_leg(k) implies faulty(m, k) by {}
    }
}

// ---------------------------------------------------------------------------
// Laws
// ---------------------------------------------------------------------------

proof fn normal_member_at(m: Map<Seq<char>, Tree>, k: Seq<char>)
    requires
        m.dom().contains("kind"@),
        m.dom().contains(k),
    ensures
        normal(Tree::Object(m)) is Object,
        normal(Tree::Object(m))->Object_0.dom() == m.dom(),
        normal(Tree::Object(m))->Object_0[k] == (if k == "parts"@ {
            normal_parts(m[k])
        } else if k == "lhs"@ || k == "rhs"@ {
            normal(m[k])
        } else {
            m[k]
        }),
{
    assert(normal(Tree::Object(m))->Object_0.dom() =~= m.dom());
}

/// A model with a tag, whose nested models are in normal form, is in normal form.
proof fn tagged_is_normal(n: Map<Seq<char>, Tree>)
    requires
        n.dom().contains("kind"@),
        n.dom().contains("parts"@) ==> normal_parts(n["parts"@]) == n["parts"@],
        n.dom().contains("lhs"@) ==> normal(n["lhs"@]) == n["lhs"@],
        n.dom().contains("rhs"@) ==> normal(n["rhs"@]) == n["rhs"@],
    ensures
        normal(Tree::Object(n)) == Tree::Object(n),
{
    normal_member_at(n, "kind"@);
    assert forall|k: Seq<char>| n.dom().contains(k) implies normal(Tree::Object(n))->Object_0[k]
        == #[trigger] n[k] by {
        normal_member_at(n, k);
    }
    assert(normal(Tree::Object(n))->Object_0 =~= n);
}

proof fn parts_are_stable(t: Tree)
    ensures
        normal_parts(normal_parts(t)) == normal_parts(t),
    decreases t, 0int,
{
    if let Tree::Array(items) = t {
        normal_lists_are_stable(items);
    }
}

/// A model in normal form stays as it is.
pub proof fn normal_form_is_stable(t: Tree)
    ensures
        normal(normal(t)) == normal(t),
    decreases t, 1int,
{
    reveal_strlit("kind");
    reveal_strlit("parts");
    reveal_strlit("lhs");
    reveal_strlit("rhs");
    reveal_strlit("value");
    assert("kind"@[0] == 'k' && "parts"@[0] == 'p' && "lhs"@[0] == 'l' && "rhs"@[0] == 'r'
        && "value"@[0] == 'v');
    match t {
        Tree::Object(m) => {
            if m.dom().contains("kind"@) {
                let n = normal(t)->Object_0;
                normal_member_at(m, "kind"@);
                if m.dom().contains("parts"@) {
                    normal_member_at(m, "parts"@);
                    parts_are_stable(m["parts"@]);
                }
                if m.dom().contains("lhs"@) {
                    normal_member_at(m, "lhs"@);
                    normal_form_is_stable(m["lhs"@]);
                }
                if m.dom().contains("rhs"@) {
                    normal_member_at(m, "rhs"@);
                    normal_form_is_stable(m["rhs"@]);
                }
                tagged_is_normal(n);
            } else if is_singleton(m) && m.dom().contains(singleton_kind(m)) {
                let name = singleton_kind(m);
                let n = normal(t)->Object_0;
                assert(n.dom().contains("kind"@));
                if let Tree::Object(f) = m[name] {
                    if f.dom().contains("parts"@) {
                        if f["parts"@] is Array {
                            assert(n["parts"@] == normal_parts(f["parts"@]));
                            parts_are_stable(f["parts"@]);
                        } else {
                            assert(n["parts"@] == normal(f["parts"@]));
                            assert(!(normal(f["parts"@]) is Array));
                        }
                    }
                    if f.dom().contains("lhs"@) {
                        assert(n["lhs"@] == normal(f["lhs"@]));
                        normal_form_is_stable(f["lhs"@]);
                    }
                    if f.dom().contains("rhs"@) {
                        assert(n["rhs"@] == normal(f["rhs"@]));
                        normal_form_is_stable(f["rhs"@]);
                    }
                }
                tagged_is_normal(n);
            }
        },
        Tree::Text(name) => {
            if is_kind(name) {
                tagged_is_normal(normal(t)->Object_0);
            }
        },
        _ => {},
    }
}

proof fn normal_lists_are_stable(items: Seq<Tree>)
    ensures
        normal_all(normal_all(items)) == normal_all(items),
    decreases items, 0int,
{
    assert forall|i: int| 0 <= i < items.len() implies #[trigger] normal_all(normal_all(items))[i]
        == normal_all(items)[i] by {
        normal_form_is_stable(items[i]);
    }
    assert(normal_all(normal_all(items)) =~= normal_all(items));
}

/// What a path of keys leads to, if anything.
pub open spec fn looked_up(t: Tree, path: Seq<Seq<char>>) -> Option<Tree>
    decreases path.len(),
{
    if path.len() == 0 {
        Some(t)
    } else {
        match at(members_at(Some(t)), path[0]) {
            Some(below) => looked_up(below, path.skip(1)),
            None => None,
        }
    }
}

/// A value that was put at the end of a path is found there.
pub proof fn assigned_is_found(existing: Option<Tree>, path: Seq<Seq<char>>, value: Tree)
    ensures
        looked_up(assigned(existing, path, value), path) == Some(value),
    decreases path.len(),
{
    if path.len() > 0 {
        let m = members_at(existing);
        assigned_is_found(at(m, path[0]), path.skip(1), value);
    }
}

/// What stands beside a path is not touched: another first key keeps its value.
pub proof fn assigned_keeps_siblings(
    existing: Option<Tree>,
    path: Seq<Seq<char>>,
    value: Tree,
    other: Seq<char>,
)
    requires
        path.len() > 0,
        other != path[0],
    ensures
        at(members_at(Some(assigned(existing, path, value))), other) == at(
            members_at(existing),
            other,
        ),
{
}

proof fn no_settings_is_normal()
    ensures
        normal_tree(no_settings()) == no_settings(),
{
    let m = no_settings();
    assert forall|k: Seq<char>| m.dom().contains(k) implies normal_leg(k, #[trigger] m[k])
        == m[k] by {
        assert(m[k] == Tree::Object(Map::<Seq<char>, Tree>::empty()));
        assert(normal_leg(k, m[k])->Object_0 =~= Map::<Seq<char>, Tree>::empty());
    }
    assert(normal_tree(m) =~= m);
}

/// A reset forgets every term before it: what comes after it says everything.
pub proof fn reset_forgets(before: Seq<TermModel>, after: Seq<TermModel>)
    requires
        folded(before) is Ok,
    ensures
        folded(before.push(TermModel::Reset) + after) == folded(after),
    decreases after.len(),
{
    let all = before.push(TermModel::Reset) + after;
    if after.len() == 0 {
        no_settings_is_normal();
        assert(all =~= before.push(TermModel::Reset));
        assert(all.drop_last() =~= before);
    } else {
        reset_forgets(before, after.drop_last());
        assert(all.drop_last() =~= before.push(TermModel::Reset) + after.drop_last());
    }
}

/// What is laid over a tree wins where it is no object; what it does not speak of
/// stays.
pub proof fn later_layers_win(
    under: Map<Seq<char>, Tree>,
    over: Map<Seq<char>, Tree>,
    k: Seq<char>,
)
    ensures
        over.dom().contains(k) && !(over[k] is Object) ==> at(merged(under, over), k) == Some(
            over[k],
        ),
        over.dom().contains(k) && members_at(Some(over[k])).dom().contains("kind"@) ==> at(
            merged(under, over),
            k,
        ) == Some(over[k]),
        !over.dom().contains(k) ==> at(merged(under, over), k) == at(under, k),
{
}

proof fn leg_names_differ()
    ensures
        "default"@ != "by_symbol"@,
        "default"@ != "by_interval"@,
        "default"@ != "scoped"@,
        "by_symbol"@ != "by_interval"@,
        "by_symbol"@ != "scoped"@,
        "by_interval"@ != "scoped"@,
        "symbol"@ != "freq"@,
        "symbol"@ != "model"@,
        "freq"@ != "model"@,
{
    reveal_strlit("default");
    reveal_strlit("by_symbol");
    reveal_strlit("by_interval");
    reveal_strlit("scoped");
    reveal_strlit("symbol");
    reveal_strlit("freq");
    reveal_strlit("model");
    assert("default"@[0] == 'd');
    assert("by_symbol"@[0] == 'b' && "by_symbol"@[3] == 's');
    assert("by_interval"@[0] == 'b' && "by_interval"@[3] == 'i');
    assert("scoped"@[0] == 's');
    assert("symbol"@[0] == 's');
    assert("freq"@[0] == 'f');
    assert("model"@[0] == 'm');
}

/// A model that is set stands, in normal form, where its scope says: as the leg's
/// default, under the symbol, under the cadence's code, or as the last entry for the
/// two.
pub proof fn a_model_that_is_set_stands_in_its_scope(
    tree: Map<Seq<char>, Tree>,
    scope: ScopeModel,
    leg: Seq<char>,
    value: Tree,
    out: Map<Seq<char>, Tree>,
)
    requires
        is_leg(leg),
        applied(tree, TermModel::Assign(scope, seq![leg], value)) == Ok::<
            Map<Seq<char>, Tree>,
            Seq<char>,
        >(out),
    ensures
        out.dom().contains(leg),
        out[leg] matches Tree::Object(o) && (match (scope.symbol, scope.freq) {
            (None, None) => o.dom().contains("default"@) && o["default"@] == normal(value),
            (Some(s), None) => o.dom().contains("by_symbol"@) && (
            o["by_symbol"@] matches Tree::Object(by) && by.dom().contains(s) && by[s] == normal(
                value,
            )),
            (None, Some(f)) => o.dom().contains("by_interval"@) && (
            o["by_interval"@] matches Tree::Object(by) && by.dom().contains(f.code())
                && by[f.code()] == normal(value)),
            (Some(s), Some(f)) => o.dom().contains("scoped"@) && (
            o["scoped"@] matches Tree::Array(items) && items.len() > 0 && (
            items.last() matches Tree::Object(e) && e.dom().contains("symbol"@) && e["symbol"@]
                == Tree::Text(s) && e.dom().contains("freq"@) && e["freq"@] == Tree::Text(f.code())
                && e.dom().contains("model"@) && e["model"@] == normal(value))),
        }),
{
    leg_names_differ();
    let key = seq![leg];
    assert(key.skip(1) =~= Seq::<Seq<char>>::empty());
    let m = tree[leg]->Object_0;
    let l = set_in_leg(m, scope, key, value)->Ok_0;
    assert(out[leg] == normal_leg(leg, Tree::Object(l)));
    let o = out[leg]->Object_0;
    match (scope.symbol, scope.freq) {
        (None, None) => {
            assert(o["default"@] == normal_member("default"@, l["default"@]));
        },
        (Some(s), None) => {
            assert(o["by_symbol"@] == normal_member("by_symbol"@, l["by_symbol"@]));
        },
        (None, Some(f)) => {
            assert(o["by_interval"@] == normal_member("by_interval"@, l["by_interval"@]));
        },
        (Some(s), Some(f)) => {
            assert(o["scoped"@] == normal_member("scoped"@, l["scoped"@]));
            let items = l["scoped"@]->Array_0;
            assert(items.last() == scoped_entry(s, f.code(), value));
            assert(o["scoped"@]->Array_0.last() == normal_entry(items.last()));
        },
    }
}

/// Setting one leg leaves the two others as they are, and a preset the legs that it
/// does not speak of, in settings that are in normal form.
pub proof fn a_term_keeps_the_other_legs(
    tree: Map<Seq<char>, Tree>,
    term: TermModel,
    other: Seq<char>,
    out: Map<Seq<char>, Tree>,
)
    requires
        normal_tree(tree) == tree,
        tree.dom().contains(other),
        applied(tree, term) == Ok::<Map<Seq<char>, Tree>, Seq<char>>(out),
        match term {
            TermModel::Reset => false,
            TermModel::Load(_, r) => r matches ReadingModel::Value(Tree::Object(p))
                && !p.dom().contains(other),
            TermModel::Assign(_, key, _) => key.len() > 0 && key[0] != other,
        },
    ensures
        out.dom().contains(other),
        out[other] == tree[other],
{
    assert(normal_tree(tree)[other] == normal_leg(other, tree[other]));
}

proof fn legs_are_stable(k: Seq<char>, t: Tree)
    ensures
        normal_leg(k, normal_leg(k, t)) == normal_leg(k, t),
{
    if let Tree::Object(m) = t {
        if is_leg(k) {
            let once = normal_leg(k, t)->Object_0;
            let twice = normal_leg(k, normal_leg(k, t))->Object_0;
            assert forall|j: Seq<char>| once.dom().contains(j) implies twice[j]
                == #[trigger] once[j] by {
                members_are_stable(j, m[j]);
            }
            assert(twice =~= once);
        }
    }
}

proof fn members_are_stable(k: Seq<char>, t: Tree)
    ensures
        normal_member(k, normal_member(k, t)) == normal_member(k, t),
{
    if k == "default"@ {
        normal_form_is_stable(t);
    } else if k == "by_symbol"@ || k == "by_interval"@ {
        if let Tree::Object(m) = t {
            let once = normal_values(t)->Object_0;
            let twice = normal_values(normal_values(t))->Object_0;
            assert forall|j: Seq<char>| once.dom().contains(j) implies twice[j]
                == #[trigger] once[j] by {
                normal_form_is_stable(m[j]);
            }
            assert(twice =~= once);
        }
    } else if k == "scoped"@ {
        if let Tree::Array(items) = t {
            let once = normal_entries(t)->Array_0;
            let twice = normal_entries(normal_entries(t))->Array_0;
            assert forall|i: int| 0 <= i < items.len() implies twice[i] == #[trigger] once[i] by {
                if let Tree::Object(m) = items[i] {
                    let a = normal_entry(items[i])->Object_0;
                    let b = normal_entry(normal_entry(items[i]))->Object_0;
                    if m.dom().contains("model"@) {
                        normal_form_is_stable(m["model"@]);
                    }
                    assert(a =~= b);
                }
            }
            assert(twice =~= once);
        }
    }
}

/// Folded settings are in normal form.
pub proof fn folded_settings_are_normal(terms: Seq<TermModel>)
    ensures
        folded(terms) matches Ok(m) ==> normal_tree(m) == m,
{
    no_settings_is_normal();
    if folded(terms) is Ok && terms.len() > 0 {
        let m = folded(terms)->Ok_0;
        let before = folded(terms.drop_last())->Ok_0;
        let raw = match terms.last() {
            TermModel::Reset => no_settings(),
            TermModel::Load(_, r) => merged(before, preset_form(r->Value_0)->Ok_0),
            TermModel::Assign(scope, key, value) => set_in_tree(
                before,
                scope,
                key,
                value,
            )->Ok_0,
        };
        assert(m == normal_tree(raw));
        assert forall|k: Seq<char>| raw.dom().contains(k) implies normal_leg(k, normal_leg(k, raw[k]))
            == #[trigger] normal_leg(k, raw[k]) by {
            legs_are_stable(k, raw[k]);
        }
        assert forall|k: Seq<char>| m.dom().contains(k) implies normal_tree(m)[k] == #[trigger] m[k]
            by {
            assert(m[k] == normal_leg(k, raw[k]));
            assert(normal_leg(k, normal_leg(k, raw[k])) == normal_leg(k, raw[k]));
        }
        assert(normal_tree(m) =~= m);
    }
}

/// A field that is set on a leg's default model changes that field alone, where the
/// field is a number's.
pub proof fn a_field_that_is_set_changes_alone(
    tree: Map<Seq<char>, Tree>,
    leg: Seq<char>,
    field: Seq<char>,
    value: Tree,
    model: Map<Seq<char>, Tree>,
    out: Map<Seq<char>, Tree>,
    other: Seq<char>,
)
    requires
        is_leg(leg),
        normal_tree(tree) == tree,
        tree.dom().contains(leg),
        tree[leg] matches Tree::Object(l) && l.dom().contains("default"@) && l["default"@]
            == Tree::Object(model),
        model.dom().contains("kind"@),
        value is Number,
        !is_kind(field),
        field != "kind"@ && field != "parts"@ && field != "lhs"@ && field != "rhs"@,
        field != "default"@ && field != "by_symbol"@ && field != "by_interval"@ && field
            != "scoped"@,
        applied(
            tree,
            TermModel::Assign(ScopeModel { symbol: None, freq: None }, seq![leg, field], value),
        ) == Ok::<Map<Seq<char>, Tree>, Seq<char>>(out),
        other != field,
        model.dom().contains(other),
    ensures
        out.dom().contains(leg),
        out[leg] matches Tree::Object(o) && o.dom().contains("default"@) && (
        o["default"@] matches Tree::Object(d) && d.dom().contains(field) && d[field] == value
            && d.dom().contains(other) && d[other] == model[other]),
{
    leg_names_differ();
    let key = seq![leg, field];
    let rest = key.skip(1);
    assert(rest =~= seq![field]);
    assert(rest.skip(1) =~= Seq::<Seq<char>>::empty());
    let l = tree[leg]->Object_0;
    let changed = model.insert(field, value);
    reveal_with_fuel(assigned, 3);
    assert(assigned(Some(Tree::Object(model)), rest, value) == Tree::Object(changed));
    let set = set_in_leg(l, ScopeModel { symbol: None, freq: None }, key, value)->Ok_0;
    assert(set == l.insert("default"@, Tree::Object(changed)));
    assert(out[leg] == normal_leg(leg, Tree::Object(set)));
    let o = out[leg]->Object_0;
    assert(o["default"@] == normal_member("default"@, set["default"@]));
    assert(o["default"@] == normal(Tree::Object(changed)));
    // The model was in normal form before.
    assert(normal_tree(tree)[leg] == normal_leg(leg, tree[leg]));
    let same = normal_leg(leg, tree[leg])->Object_0;
    assert(same["default"@] == normal_member("default"@, l["default"@]));
    assert(normal(Tree::Object(model)) == Tree::Object(model));
    let was = normal(Tree::Object(model))->Object_0;
    assert(was[other] == model[other]);
    let d = o["default"@]->Object_0;
    assert(changed.dom().contains(other) && changed[other] == model[other]);
    assert(d[other] == was[other]);
}

/// A tag in front of its fields says the same as a `kind` among them, a bare name the
/// same as a name without fields.
pub proof fn tags_and_kinds_say_the_same(name: Seq<char>, fields: Map<Seq<char>, Tree>)
    requires
        is_kind(name),
        !fields.dom().contains("kind"@),
        forall|k: Seq<char>| fields.dom().contains(k) ==> (#[trigger] fields[k]) is Number,
    ensures
        normal(Tree::Object(map![name => Tree::Object(fields)])) == Tree::Object(
            fields.insert("kind"@, Tree::Text(name)),
        ),
        normal(Tree::Object(fields.insert("kind"@, Tree::Text(name)))) == Tree::Object(
            fields.insert("kind"@, Tree::Text(name)),
        ),
        normal(Tree::Text(name)) == Tree::Object(map!["kind"@ => Tree::Text(name)]),
        normal(Tree::Object(map![name => Tree::Null])) == Tree::Object(
            map!["kind"@ => Tree::Text(name)],
        ),
{
    reveal_strlit("kind");
    reveal_strlit("parts");
    reveal_strlit("lhs");
    reveal_strlit("rhs");
    assert("kind"@[0] == 'k' && "parts"@[0] == 'p' && "lhs"@[0] == 'l' && "rhs"@[0] == 'r');
    kind_is_no_kind();
    let want = fields.insert("kind"@, Tree::Text(name));
    let outer = map![name => Tree::Object(fields)];
    tag_of_one(outer, name);
    let first = normal(Tree::Object(outer))->Object_0;
    let second = normal(Tree::Object(want))->Object_0;
    assert forall|k: Seq<char>| fields.dom().contains(k) implies #[trigger] first[k]
        == fields[k] by {
        assert(fields[k] is Number);
        numbers_are_normal(fields[k]);
    }
    assert forall|k: Seq<char>| fields.dom().contains(k) implies #[trigger] second[k]
        == fields[k] by {
        assert(fields[k] is Number);
        numbers_are_normal(fields[k]);
    }
    assert(first.dom() =~= want.dom());
    assert(first["kind"@] == Tree::Text(name));
    assert(first =~= want);
    assert(second =~= want);
    let bare = map![name => Tree::Null];
    tag_of_one(bare, name);
    assert(normal(Tree::Object(bare))->Object_0 =~= map!["kind"@ => Tree::Text(name)]);
    assert(normal(Tree::Text(name))->Object_0 =~= map!["kind"@ => Tree::Text(name)]);
}

proof fn numbers_are_normal(t: Tree)
    requires
        t is Number,
    ensures
        normal(t) == t,
        normal_parts(t) == t,
{
}

proof fn kind_is_no_kind()
    ensures
        !is_kind("kind"@),
{
    reveal_strlit("kind");
    reveal_strlit("none");
    reveal_strlit("fixed");
    reveal_strlit("percentage");
    reveal_strlit("per_unit");
    reveal_strlit("composite");
    reveal_strlit("max");
    reveal_strlit("bps");
    reveal_strlit("absolute");
    reveal_strlit("volume_participation");
    assert("kind"@[0] == 'k');
    assert("none"@[0] == 'n');
    assert("fixed"@[0] == 'f');
    assert("percentage"@[0] == 'p');
    assert("per_unit"@[0] == 'p');
    assert("composite"@[0] == 'c');
    assert("max"@[0] == 'm');
    assert("bps"@[0] == 'b');
    assert("absolute"@[0] == 'a');
    assert("volume_participation"@[0] == 'v');
}

proof fn tag_of_one(m: Map<Seq<char>, Tree>, name: Seq<char>)
    requires
        is_kind(name),
        m.dom() =~= set![name],
    ensures
        !m.dom().contains("kind"@),
        is_singleton(m),
        singleton_kind(m) == name,
{
    kind_is_no_kind();
    assert(only(m, name));
    let other = singleton_kind(m);
    assert(is_kind(other) && only(m, other));
    assert(set![other].contains(other));
    assert(m.dom().contains(other));
}

/// In a model of two, or of many, each is brought into normal form, whether the model
/// has a tag or a kind.
pub proof fn nested_models_are_normal_too(a: Tree, b: Tree, items: Seq<Tree>)
    ensures
        normal(Tree::Object(map!["max"@ => Tree::Object(map!["lhs"@ => a, "rhs"@ => b])]))
            == Tree::Object(
            map!["kind"@ => Tree::Text("max"@), "lhs"@ => normal(a), "rhs"@ => normal(b)],
        ),
        normal(
            Tree::Object(map!["kind"@ => Tree::Text("max"@), "lhs"@ => a, "rhs"@ => b]),
        ) == Tree::Object(
            map!["kind"@ => Tree::Text("max"@), "lhs"@ => normal(a), "rhs"@ => normal(b)],
        ),
        normal(
            Tree::Object(map!["composite"@ => Tree::Object(map!["parts"@ => Tree::Array(items)])]),
        ) == Tree::Object(
            map![
                "kind"@ => Tree::Text("composite"@),
                "parts"@ => Tree::Array(items.map_values(|t: Tree| normal(t))),
            ],
        ),
        normal(
            Tree::Object(
                map!["kind"@ => Tree::Text("composite"@), "parts"@ => Tree::Array(items)],
            ),
        ) == Tree::Object(
            map![
                "kind"@ => Tree::Text("composite"@),
                "parts"@ => Tree::Array(items.map_values(|t: Tree| normal(t))),
            ],
        ),
{
    reveal_strlit("kind");
    reveal_strlit("parts");
    reveal_strlit("lhs");
    reveal_strlit("rhs");
    assert("kind"@[0] == 'k' && "parts"@[0] == 'p' && "lhs"@[0] == 'l' && "rhs"@[0] == 'r');
    let pair = map!["kind"@ => Tree::Text("max"@), "lhs"@ => normal(a), "rhs"@ => normal(b)];
    let tagged = map!["max"@ => Tree::Object(map!["lhs"@ => a, "rhs"@ => b])];
    tag_of_one(tagged, "max"@);
    assert(normal(Tree::Object(tagged))->Object_0 =~= pair);
    let kinded = map!["kind"@ => Tree::Text("max"@), "lhs"@ => a, "rhs"@ => b];
    assert(normal(Tree::Object(kinded))->Object_0 =~= pair);
    let list = items.map_values(|t: Tree| normal(t));
    assert(normal_all(items) =~= list);
    let many = map!["kind"@ => Tree::Text("composite"@), "parts"@ => Tree::Array(list)];
    let tagged = map!["composite"@ => Tree::Object(map!["parts"@ => Tree::Array(items)])];
    tag_of_one(tagged, "composite"@);
    let n = normal(Tree::Object(tagged))->Object_0;
    assert(normal_parts(Tree::Array(items)) == Tree::Array(list));
    assert(n["parts"@] == Tree::Array(list));
    assert(n =~= many);
    let kinded = map!["kind"@ => Tree::Text("composite"@), "parts"@ => Tree::Array(items)];
    let n = normal(Tree::Object(kinded))->Object_0;
    assert(n["parts"@] == Tree::Array(list));
    assert(n =~= many);
}

/// A preset's leg that is a model is the leg's default; one that is already divided
/// stays as it is; one that is both, or neither, is refused.
pub proof fn a_flat_leg_is_its_default(m: Map<Seq<char>, Tree>)
    ensures
        ({
            let divided = m.dom().contains("default"@) || m.dom().contains("by_symbol"@)
                || m.dom().contains("by_interval"@) || m.dom().contains("scoped"@);
            let out = leg_form(Tree::Object(m));
            &&& m.dom().contains("kind"@) && !divided ==> (out matches Ok(Tree::Object(l)) && l
                == map!["default"@ => Tree::Object(m)])
            &&& m.dom().contains("kind"@) && divided ==> out is Err
            &&& !m.dom().contains("kind"@) && divided && m.dom().len() != 1 ==> out
                == Ok::<Tree, Seq<char>>(Tree::Object(m))
            &&& m.dom() =~= Set::<Seq<char>>::empty() ==> out is Err
        }),
{
    if exists|name: Seq<char>| is_kind(name) && #[trigger] only(m, name) {
        let name = choose|name: Seq<char>| is_kind(name) && #[trigger] only(m, name);
        assert(m.dom() == set![name]);
        assert(set![name].len() == 1);
        assert(set![name].contains(name));
    }
    if let Ok(Tree::Object(l)) = leg_form(Tree::Object(m)) {
        if m.dom().contains("kind"@) {
            assert(l =~= map!["default"@ => Tree::Object(m)]);
        }
    }
}

/// Laying nothing over settings changes nothing, and settings over nothing are those.
/// Where both speak of a leg, a key that only one of them has is kept, and of two
/// values that are no objects the later one is.
pub proof fn layers_are_laid_key_by_key(
    under: Map<Seq<char>, Tree>,
    over: Map<Seq<char>, Tree>,
    leg: Seq<char>,
    a: Map<Seq<char>, Tree>,
    b: Map<Seq<char>, Tree>,
    k: Seq<char>,
)
    requires
        under.dom().contains(leg) && under[leg] == Tree::Object(a),
        over.dom().contains(leg) && over[leg] == Tree::Object(b),
        !a.dom().contains("kind"@) && !b.dom().contains("kind"@),
    ensures
        merged(under, Map::empty()) == under,
        merged(Map::empty(), over) == over,
        merged(under, over)[leg] matches Tree::Object(c) && {
            &&& a.dom().contains(k) && !b.dom().contains(k) ==> c.dom().contains(k) && c[k] == a[k]
            &&& b.dom().contains(k) && !a.dom().contains(k) ==> c.dom().contains(k) && c[k] == b[k]
            &&& b.dom().contains(k) && !(b[k] is Object) ==> c.dom().contains(k) && c[k] == b[k]
            &&& b.dom().contains(k) && a.dom().contains(k) && !(a[k] is Object) ==> c[k] == b[k]
            &&& !a.dom().contains(k) && !b.dom().contains(k) ==> !c.dom().contains(k)
        },
{
    assert(merged(under, Map::empty()) =~= under);
    assert(merged(Map::empty(), over) =~= over);
    assert(merged(under, over)[leg] == merged_value(Tree::Object(a), Tree::Object(b)));
    reveal_with_fuel(merged_value, 3);
    let c = merged(under, over)[leg]->Object_0;
    if a.dom().contains(k) && b.dom().contains(k) {
        assert(c[k] == merged_value(a[k], b[k]));
    }
}

/// Of two models the later one stands alone: nothing of the one before it is left.
pub proof fn a_later_model_stands_alone(
    under: Map<Seq<char>, Tree>,
    over: Map<Seq<char>, Tree>,
    k: Seq<char>,
    a: Map<Seq<char>, Tree>,
    b: Map<Seq<char>, Tree>,
)
    requires
        under.dom().contains(k) && under[k] == Tree::Object(a),
        over.dom().contains(k) && over[k] == Tree::Object(b),
        a.dom().contains("kind"@) || b.dom().contains("kind"@),
    ensures
        merged(under, over).dom().contains(k),
        merged(under, over)[k] == Tree::Object(b),
{
}

/// The three legs are there whatever is folded, and no others.
pub proof fn the_legs_are_three(k: Seq<char>)
    ensures
        no_settings().dom().contains(k) <==> k == "commission"@ || k == "spread"@ || k
            == "slippage"@,
        no_settings().dom().contains(k) ==> no_settings()[k] == Tree::Object(
            Map::<Seq<char>, Tree>::empty(),
        ),
{
}

/// The pieces of a list of terms, with commas between them, are the list, but for a
/// comma at its very end.
pub proof fn terms_tile_the_list(s: Seq<char>)
    ensures
        chunks(s) matches Ok(c) ==> text::joined(c, seq![',']) == s || text::joined(c, seq![','])
            + seq![','] == s,
{
    if let Ok(st) = split_state(s) {
        split_tiles(s);
        let all = st.closed.push(st.open);
        if st.open.len() == 0 {
            assert(all.drop_last() =~= st.closed);
            if st.closed.len() == 0 {
                assert(all =~= seq![st.open]);
                assert(text::joined(st.closed, seq![',']) =~= s);
            } else {
                assert(text::joined(all, seq![',']) =~= text::joined(st.closed, seq![','])
                    + seq![',']);
            }
        }
    }
}

proof fn split_tiles(s: Seq<char>)
    ensures
        split_state(s) matches Ok(st) ==> text::joined(st.closed.push(st.open), seq![',']) == s,
    decreases s.len(),
{
    if s.len() > 0 {
        split_tiles(s.drop_last());
        if let (Ok(before), Ok(st)) = (split_state(s.drop_last()), split_state(s)) {
            let was = before.closed.push(before.open);
            let now = st.closed.push(st.open);
            assert(s =~= s.drop_last().push(s.last()));
            if st.closed == before.closed {
                assert(was.drop_last() =~= now.drop_last());
                assert(text::joined(now, seq![',']) =~= text::joined(was, seq![',']).push(s.last()));
            } else {
                assert(now.drop_last() =~= was);
                assert(text::joined(now, seq![',']) =~= text::joined(was, seq![',']) + seq![',']);
            }
        }
    } else {
        let st = split_state(s)->Ok_0;
        assert(st.closed.push(st.open) =~= seq![st.open]);
        assert(text::joined(st.closed.push(st.open), seq![',']) =~= s);
    }
}

/// Whether a text has no brackets and no quotes.
pub open spec fn is_flat(s: Seq<char>) -> bool {
    forall|i: int|
        0 <= i < s.len() ==> (#[trigger] s[i]) != '{' && s[i] != '[' && s[i] != '}' && s[i] != ']'
            && s[i] != '"'
}

/// A text without brackets and quotes is split at every comma.
pub proof fn flat_lists_split_at_every_comma(s: Seq<char>)
    requires
        is_flat(s),
    ensures
        split_state(s) matches Ok(st) && st.depth == 0 && !st.quoted && forall|i: int, j: int|
            0 <= i < st.closed.len() && 0 <= j < st.closed[i].len() ==> #[trigger] st.closed[i][j]
                != ',',
        split_state(s) matches Ok(st) && forall|j: int|
            0 <= j < st.open.len() ==> #[trigger] st.open[j] != ',',
        chunks(s) is Ok,
    decreases s.len(),
{
    if s.len() > 0 {
        let t = s.drop_last();
        assert forall|i: int| 0 <= i < t.len() implies (#[trigger] t[i]) != '{' && t[i] != '['
            && t[i] != '}' && t[i] != ']' && t[i] != '"' by {
            assert(t[i] == s[i]);
        }
        flat_lists_split_at_every_comma(t);
        let c = s[s.len() - 1];
        assert(s.last() == c);
    }
}

/// Behind a text that leaves nothing open, a text in brackets, without brackets or
/// quotes of its own, is not split, whatever commas it has.
pub proof fn commas_in_brackets_do_not_split(before: Seq<char>, inner: Seq<char>)
    requires
        split_state(before) matches Ok(st) && !st.quoted && st.depth >= 0,
        is_flat(inner),
    ensures
        ({
            let st = split_state(before)->Ok_0;
            let now = split_state(before + seq!['{'] + inner + seq!['}']);
            now == Ok::<SplitState, char>(
                SplitState { open: st.open + seq!['{'] + inner + seq!['}'], ..st },
            )
        }),
{
    let st = split_state(before)->Ok_0;
    let head = before + seq!['{'];
    assert(head.drop_last() =~= before && head.last() == '{');
    assert(split_state(head) == Ok::<SplitState, char>(
        SplitState { open: st.open.push('{'), depth: st.depth + 1, ..st },
    ));
    inside_brackets(head, inner);
    let whole = head + inner + seq!['}'];
    assert(whole.drop_last() =~= head + inner && whole.last() == '}');
    assert((st.open.push('{') + inner).push('}') =~= st.open + seq!['{'] + inner + seq!['}']);
}

proof fn inside_brackets(head: Seq<char>, inner: Seq<char>)
    requires
        split_state(head) matches Ok(st) && !st.quoted && st.depth > 0,
        is_flat(inner),
    ensures
        ({
            let st = split_state(head)->Ok_0;
            split_state(head + inner) == Ok::<SplitState, char>(
                SplitState { open: st.open + inner, ..st },
            )
        }),
    decreases inner.len(),
{
    let st = split_state(head)->Ok_0;
    if inner.len() == 0 {
        assert(head + inner =~= head);
        assert(st.open + inner =~= st.open);
    } else {
        let less = inner.drop_last();
        assert forall|i: int| 0 <= i < less.len() implies (#[trigger] less[i]) != '{' && less[i]
            != '[' && less[i] != '}' && less[i] != ']' && less[i] != '"' by {
            assert(less[i] == inner[i]);
        }
        inside_brackets(head, less);
        assert((head + inner).drop_last() =~= head + less);
        let c = inner[inner.len() - 1];
        assert((head + inner).last() == c);
        assert((st.open + less).push(c) =~= st.open + inner);
    }
}

/// A term that sets a key is read from its scope, a colon, the key, an equals sign and
/// the value; without a scope the colon is left out.
#[verifier::rlimit(40)]
pub proof fn a_term_reads_back(
    scope: ScopeModel,
    leg: Seq<char>,
    field: Option<Seq<char>>,
    value: Seq<char>,
)
    requires
        calendar::is_plain_scope(scope),
        is_leg(leg),
        field matches Some(f) ==> calendar::is_plain_symbol(f) && forall|i: int|
            0 <= i < f.len() ==> f[i] != '.',
        value.len() > 0 && !text::is_space(value[0]) && !text::is_space(value.last()),
        scope.symbol matches Some(s) ==> s[0] != '@',
    ensures
        ({
            let key = key_text_of(leg, field);
            let prefix = if scope.symbol is None && scope.freq is None {
                seq![]
            } else {
                calendar::scope_text(scope) + seq![':']
            };
            parsed_term(prefix + key + seq!['='] + value) == Ok::<TermText, Seq<char>>(
                TermText::Assign {
                    scope,
                    key: match field {
                        Some(f) => seq![leg, f],
                        None => seq![leg],
                    },
                    key_text: key,
                    value,
                },
            )
        }),
{
    let key = key_text_of(leg, field);
    let bare = scope.symbol is None && scope.freq is None;
    let prefix = if bare {
        seq![]
    } else {
        calendar::scope_text(scope) + seq![':']
    };
    let body = key + seq!['='] + value;
    let t = prefix + key + seq!['='] + value;
    let n = key.len() as int;
    a_body_reads_back(leg, field, value);
    legs_are_plain(leg);
    assert(t =~= prefix + body);
    let pieces = text::pieces(key, '.');
    assert forall|i: int| 0 <= i < pieces.len() implies (#[trigger] pieces[i]).len() > 0 by {}
    assert(pieces[0] == leg);
    if bare {
        assert(t =~= body);
        calendar::plain_text_is_flat(key);
        assert(t.take(n) =~= key);
        end_is_found(t, 0, n);
        assert(t[0] == leg[0]);
        assert(scope == ScopeModel { symbol: None, freq: None });
        assert(scoped_body(t) == Ok::<(ScopeModel, Seq<char>), Seq<char>>((scope, body)));
    } else {
        let head = calendar::scope_text(scope);
        let k = head.len() as int;
        calendar::a_scope_reads_back(scope);
        calendar::scope_text_is_closed(scope);
        assert(t.take(k) =~= head);
        assert(t.skip(k + 1) =~= body);
        assert forall|i: int| 0 <= i < k implies t[i] != ':' && t[i] != '=' by {
            assert(t[i] == head[i]);
        }
        end_is_found(t, 0, k);
        assert(t[k] == ':');
        assert(t[0] == (match scope.symbol {
            Some(s) => s[0],
            None => '[',
        }));
        assert(scoped_body(t) == Ok::<(ScopeModel, Seq<char>), Seq<char>>((scope, body)));
    }
    has_equals_sign(t, prefix.len() + n);
}

/// The text of a key: the leg, and the field behind a dot.
pub open spec fn key_text_of(leg: Seq<char>, field: Option<Seq<char>>) -> Seq<char> {
    match field {
        Some(f) => leg + seq!['.'] + f,
        None => leg,
    }
}

proof fn has_equals_sign(t: Seq<char>, at: int)
    requires
        0 <= at < t.len(),
        t[at] == '=',
    ensures
        t != "none"@,
{
    reveal_strlit("none");
    let none = "none"@;
    assert(none[0] == 'n' && none[1] == 'o' && none[2] == 'n' && none[3] == 'e' && none.len() == 4);
}

proof fn a_body_reads_back(leg: Seq<char>, field: Option<Seq<char>>, value: Seq<char>)
    requires
        is_leg(leg),
        field matches Some(f) ==> calendar::is_plain_symbol(f) && forall|i: int|
            0 <= i < f.len() ==> f[i] != '.',
        value.len() > 0 && !text::is_space(value[0]) && !text::is_space(value.last()),
    ensures
        ({
            let key = key_text_of(leg, field);
            let body = key + seq!['='] + value;
            &&& key.len() > 0
            &&& body[0] == leg[0]
            &&& text::trimmed(key) == key
            &&& text::trimmed(value) == value
            &&& text::trimmed(body) == body
            &&& text::split_at_first(body, '=') == Some((key, value))
            &&& text::pieces(key, '.') == (match field {
                Some(f) => seq![leg, f],
                None => seq![leg],
            })
            &&& forall|i: int|
                0 <= i < key.len() ==> (#[trigger] key[i]) != '=' && key[i] != ':' && key[i] != '['
                    && key[i] != ']' && key[i] != '{' && key[i] != '}'
        }),
{
    let key = key_text_of(leg, field);
    let body = key + seq!['='] + value;
    legs_are_plain(leg);
    // The key has no mark of the grammar but its dot.
    assert forall|i: int| 0 <= i < key.len() implies (#[trigger] key[i]) != '=' && key[i] != ':'
        && key[i] != '[' && key[i] != ']' && key[i] != '{' && key[i] != '}' by {
        if i < leg.len() {
            assert(key[i] == leg[i]);
        } else if i > leg.len() {
            assert(key[i] == field->0[i - leg.len() - 1]);
        }
    }
    assert(key[0] == leg[0]);
    if let Some(f) = field {
        assert(key.last() == f.last());
    }
    text::trimmed_stays(key);
    text::trimmed_stays(value);
    assert(body[0] == key[0] && body.last() == value.last());
    text::trimmed_stays(body);
    let n = key.len() as int;
    text::position_at(body, '=', n);
    assert(body.take(n) =~= key && body.skip(n + 1) =~= value);
    match field {
        Some(f) => {
            text::position_at(key, '.', leg.len() as int);
            assert(key.take(leg.len() as int) =~= leg);
            let rest = key.skip(leg.len() as int + 1);
            assert(rest =~= f);
            text::position_is_first(f, '.');
            assert(text::pieces(f, '.') =~= seq![f]);
            assert(text::pieces(key, '.') =~= seq![leg, f]);
        },
        None => {
            text::position_is_first(leg, '.');
            assert(text::pieces(key, '.') =~= seq![leg]);
        },
    }
}

proof fn legs_are_plain(leg: Seq<char>)
    requires
        is_leg(leg),
    ensures
        leg.len() > 0,
        leg[0] != '@',
        !text::is_space(leg[0]),
        !text::is_space(leg.last()),
        forall|i: int|
            0 <= i < leg.len() ==> (#[trigger] leg[i]) != '=' && leg[i] != ':' && leg[i] != '['
                && leg[i] != ']' && leg[i] != '{' && leg[i] != '}' && leg[i] != '.',
{
    reveal_strlit("commission");
    reveal_strlit("spread");
    reveal_strlit("slippage");
    let a = "commission"@;
    let b = "spread"@;
    let c = "slippage"@;
    assert(a[0] == 'c' && a[1] == 'o' && a[2] == 'm' && a[3] == 'm' && a[4] == 'i' && a[5] == 's'
        && a[6] == 's' && a[7] == 'i' && a[8] == 'o' && a[9] == 'n' && a.len() == 10);
    assert(b[0] == 's' && b[1] == 'p' && b[2] == 'r' && b[3] == 'e' && b[4] == 'a' && b[5] == 'd'
        && b.len() == 6);
    assert(c[0] == 's' && c[1] == 'l' && c[2] == 'i' && c[3] == 'p' && c[4] == 'p' && c[5] == 'a'
        && c[6] == 'g' && c[7] == 'e' && c.len() == 8);
    assert forall|i: int| 0 <= i < leg.len() implies 'a' <= (#[trigger] leg[i]) <= 'z' by {
        if leg == a {
            assert(i == 0 || i == 1 || i == 2 || i == 3 || i == 4 || i == 5 || i == 6 || i == 7 || i
                == 8 || i == 9);
        } else if leg == b {
            assert(i == 0 || i == 1 || i == 2 || i == 3 || i == 4 || i == 5);
        } else {
            assert(i == 0 || i == 1 || i == 2 || i == 3 || i == 4 || i == 5 || i == 6 || i == 7);
        }
    }
    text::white_space(leg[0]);
    text::white_space(leg.last());
}

proof fn end_is_found(s: Seq<char>, from: int, k: int)
    requires
        0 <= from <= k < s.len(),
        s[k] == ':' || s[k] == '=',
        calendar::bracket_depth(s.take(k)) == 0,
        forall|i: int| from <= i < k ==> s[i] != ':' && s[i] != '=',
    ensures
        scope_end(s, from) == Some(k),
    decreases k - from,
{
    if from < k {
        end_is_found(s, from + 1, k);
    }
}

/// `none` resets, and a path behind an `@` loads what stands there.
pub proof fn resets_and_loads_read_back(path: Seq<char>)
    requires
        path.len() > 0 && !text::is_space(path[0]) && !text::is_space(path.last()),
    ensures
        parsed_term("none"@) == Ok::<TermText, Seq<char>>(TermText::Reset),
        parsed_term(seq!['@'] + path) == Ok::<TermText, Seq<char>>(TermText::Load(path)),
{
    let t = seq!['@'] + path;
    reveal_strlit("none");
    assert("none"@[0] == 'n');
    assert(t[0] == '@');
    assert(t.skip(1) =~= path);
    text::trimmed_stays(path);
}

} // verus!
