//! Documents with tags as trees of values without them.

use serde_norway::Value;
use vstd::prelude::*;

use crate::json;
use crate::json::{Json, Numeral, Tree};
use crate::number::Real;
use crate::ordmap::OrdMap;
use crate::text;

verus! {

/// A document: a tree of values, some of them tagged.
#[derive(Debug)]
pub enum Yaml {
    Null,
    Bool(bool),
    Number(Numeral),
    Text(String),
    Sequence(Vec<Yaml>),
    Mapping(Vec<YamlEntry>),
    Tagged(String, Box<Yaml>),
}

/// One entry of a mapping, with the way its key is shown in a message.
#[derive(Debug)]
pub struct YamlEntry {
    pub key: Yaml,
    pub shown: String,
    pub value: Yaml,
}

/// A document, as mathematics.
pub enum Doc {
    Null,
    Bool(bool),
    /// A number as it was written, and the double that it stands for.
    Number(Seq<char>, Real),
    Text(Seq<char>),
    Sequence(Seq<Doc>),
    Mapping(Seq<DocEntry>),
    Tagged(Seq<char>, Box<Doc>),
}

/// One entry of a mapping, as mathematics.
pub struct DocEntry {
    pub key: Doc,
    pub shown: Seq<char>,
    pub value: Doc,
}

impl Yaml {
    /// What this is, as mathematics.
    pub open spec fn doc(self) -> Doc
        decreases self,
    {
        match self {
            Yaml::Null => Doc::Null,
            Yaml::Bool(b) => Doc::Bool(b),
            Yaml::Number(n) => Doc::Number(n.text@, n.value),
            Yaml::Text(s) => Doc::Text(s@),
            Yaml::Sequence(items) => Doc::Sequence(docs(items@)),
            Yaml::Mapping(entries) => Doc::Mapping(doc_entries(entries@)),
            Yaml::Tagged(tag, value) => Doc::Tagged(tag@, Box::new(value.doc())),
        }
    }
}

/// The documents of a sequence, as mathematics.
pub open spec fn docs(items: Seq<Yaml>) -> Seq<Doc>
    decreases items,
{
    if items.len() == 0 {
        seq![]
    } else {
        docs(items.drop_last()).push(items.last().doc())
    }
}

/// The entries of a mapping, as mathematics.
pub open spec fn doc_entries(entries: Seq<YamlEntry>) -> Seq<DocEntry>
    decreases entries,
{
    if entries.len() == 0 {
        seq![]
    } else {
        doc_entries(entries.drop_last()).push(
            DocEntry {
                key: entries.last().key.doc(),
                shown: entries.last().shown@,
                value: entries.last().value.doc(),
            },
        )
    }
}

proof fn docs_at(items: Seq<Yaml>)
    ensures
        docs(items).len() == items.len(),
        forall|k: int| 0 <= k <= items.len() ==> #[trigger] docs(items.take(k)) == docs(items).take(k),
    decreases items.len(),
{
    if items.len() > 0 {
        docs_at(items.drop_last());
        assert forall|k: int| 0 <= k <= items.len() implies #[trigger] docs(items.take(k)) == docs(
            items,
        ).take(k) by {
            if k < items.len() {
                assert(items.drop_last().take(k) =~= items.take(k));
                assert(docs(items).take(k) =~= docs(items.drop_last()).take(k));
            } else {
                assert(items.take(k) =~= items);
                assert(docs(items).take(k) =~= docs(items));
            }
        }
    }
}

proof fn doc_entries_at(entries: Seq<YamlEntry>)
    ensures
        doc_entries(entries).len() == entries.len(),
        forall|k: int|
            0 <= k <= entries.len() ==> #[trigger] doc_entries(entries.take(k)) == doc_entries(
                entries,
            ).take(k),
    decreases entries.len(),
{
    if entries.len() > 0 {
        let fewer = entries.drop_last();
        doc_entries_at(fewer);
        assert forall|k: int| 0 <= k <= entries.len() implies #[trigger] doc_entries(
            entries.take(k),
        ) == doc_entries(entries).take(k) by {
            if k < entries.len() {
                assert(fewer.take(k) =~= entries.take(k));
                assert(doc_entries(entries).take(k) =~= doc_entries(fewer).take(k));
            } else {
                assert(entries.take(k) =~= entries);
                assert(doc_entries(entries).take(k) =~= doc_entries(entries));
            }
        }
    }
}

/// The way a number that is not finite is written.
pub open spec fn infinite_text(x: Real) -> Seq<char> {
    if x.nan() {
        "NaN"@
    } else if x.bits >= 0x8000_0000_0000_0000 {
        "-inf"@
    } else {
        "inf"@
    }
}

/// A number as a value, or its refusal where it is not finite.
pub open spec fn number_of(shown: Seq<char>, x: Real) -> Result<Tree, Seq<char>> {
    if x.finite() {
        Ok(Tree::Number(shown, x))
    } else {
        Err("non-finite number `"@ + infinite_text(x) + "` is not representable in JSON"@)
    }
}

/// The key that a document makes, or its refusal: texts, truth values and numbers
/// do.
pub open spec fn key_of(k: Doc, shown: Seq<char>) -> Result<Seq<char>, Seq<char>> {
    match k {
        Doc::Text(s) => Ok(s),
        Doc::Bool(true) => Ok("true"@),
        Doc::Bool(false) => Ok("false"@),
        Doc::Number(n, _) => Ok(n),
        _ => Err("unsupported non-scalar mapping key: "@ + shown),
    }
}

/// The name of a tag: the tag without the `!` in front.
pub open spec fn tag_name(t: Seq<char>) -> Seq<char> {
    if t.len() > 0 && t[0] == '!' {
        t.skip(1)
    } else {
        t
    }
}

/// A document as a tree without tags, or what is wrong with its first bad part. A
/// tagged value is an object with the tag's name as its only key.
pub open spec fn json_of(d: Doc) -> Result<Tree, Seq<char>>
    decreases d,
{
    match d {
        Doc::Null => Ok(Tree::Null),
        Doc::Bool(b) => Ok(Tree::Bool(b)),
        Doc::Number(n, x) => number_of(n, x),
        Doc::Text(s) => Ok(Tree::Text(s)),
        Doc::Sequence(items) => match all_json(items) {
            Ok(trees) => Ok(Tree::Array(trees)),
            Err(e) => Err(e),
        },
        Doc::Mapping(entries) => match entries_json(entries) {
            Ok(m) => Ok(Tree::Object(m)),
            Err(e) => Err(e),
        },
        Doc::Tagged(tag, value) => match json_of(*value) {
            Ok(t) => Ok(Tree::Object(Map::empty().insert(tag_name(tag), t))),
            Err(e) => Err(e),
        },
    }
}

/// The trees of a sequence, or what is wrong with its first bad item.
pub open spec fn all_json(items: Seq<Doc>) -> Result<Seq<Tree>, Seq<char>>
    decreases items,
{
    if items.len() == 0 {
        Ok(seq![])
    } else {
        match all_json(items.drop_last()) {
            Err(e) => Err(e),
            Ok(done) => match json_of(items.last()) {
                Ok(t) => Ok(done.push(t)),
                Err(e) => Err(e),
            },
        }
    }
}

/// The members of a mapping, the last of two with one key, or what is wrong with
/// its first bad entry.
pub open spec fn entries_json(entries: Seq<DocEntry>) -> Result<Map<Seq<char>, Tree>, Seq<char>>
    decreases entries,
{
    if entries.len() == 0 {
        Ok(Map::empty())
    } else {
        match entries_json(entries.drop_last()) {
            Err(e) => Err(e),
            Ok(done) => match key_of(entries.last().key, entries.last().shown) {
                Err(e) => Err(e),
                Ok(k) => match json_of(entries.last().value) {
                    Ok(t) => Ok(done.insert(k, t)),
                    Err(e) => Err(e),
                },
            },
        }
    }
}

proof fn items_stay_wrong(items: Seq<Doc>, k: int)
    requires
        0 <= k <= items.len(),
        all_json(items.take(k)) is Err,
    ensures
        all_json(items) == all_json(items.take(k)),
    decreases items.len() - k,
{
    if k < items.len() {
        assert(items.take(k + 1).drop_last() =~= items.take(k));
        items_stay_wrong(items, k + 1);
    } else {
        assert(items.take(k) =~= items);
    }
}

proof fn entries_stay_wrong(entries: Seq<DocEntry>, k: int)
    requires
        0 <= k <= entries.len(),
        entries_json(entries.take(k)) is Err,
    ensures
        entries_json(entries) == entries_json(entries.take(k)),
    decreases entries.len() - k,
{
    if k < entries.len() {
        assert(entries.take(k + 1).drop_last() =~= entries.take(k));
        entries_stay_wrong(entries, k + 1);
    } else {
        assert(entries.take(k) =~= entries);
    }
}

/// A number as a value.
fn number(n: &Numeral) -> (out: Result<Json, String>)
    ensures
        match (out, number_of(n.text@, n.value)) {
            (Ok(v), Ok(t)) => v.wf() && v.tree() == t,
            (Err(e), Err(m)) => e@ == m,
            _ => false,
        },
{
    if n.value.is_finite() {
        return Ok(Json::Number(Numeral { text: n.text.clone(), value: n.value }));
    }
    let mut message: String = "non-finite number `".to_owned();
    if n.value.is_nan() {
        message.append("NaN");
    } else if n.value.bits >= 0x8000_0000_0000_0000 {
        message.append("-inf");
    } else {
        message.append("inf");
    }
    message.append("` is not representable in JSON");
    Err(message)
}

/// The key that a document makes.
fn key(k: &Yaml, shown: &str) -> (out: Result<String, String>)
    ensures
        match (out, key_of(k.doc(), shown@)) {
            (Ok(s), Ok(m)) => s@ == m,
            (Err(e), Err(m)) => e@ == m,
            _ => false,
        },
{
    match k {
        Yaml::Text(s) => Ok(s.clone()),
        Yaml::Bool(b) => if *b {
            Ok("true".to_owned())
        } else {
            Ok("false".to_owned())
        },
        Yaml::Number(n) => Ok(n.text.clone()),
        _ => {
            let mut message: String = "unsupported non-scalar mapping key: ".to_owned();
            message.append(shown);
            Err(message)
        },
    }
}

/// Turn a document into a tree without tags.
pub fn yaml_to_json(value: &Yaml) -> (out: Result<Json, String>)
    ensures
        match (out, json_of(value.doc())) {
            (Ok(v), Ok(t)) => v.wf() && v.tree() == t,
            (Err(e), Err(m)) => e@ == m,
            _ => false,
        },
    decreases *value,
{
    match value {
        Yaml::Null => Ok(Json::Null),
        Yaml::Bool(b) => Ok(Json::Bool(*b)),
        Yaml::Number(n) => number(n),
        Yaml::Text(s) => Ok(Json::Text(s.clone())),
        Yaml::Sequence(items) => {
            let mut out: Vec<Json> = Vec::new();
            let n: usize = items.len();
            let mut i: usize = 0;
            let ghost all = docs(items@);
            proof {
                docs_at(items@);
                assert(all.take(0) =~= Seq::<Doc>::empty());
            }
            while i < n
                invariant
                    i <= n,
                    n == items@.len(),
                    *value is Sequence,
                    value->Sequence_0 == *items,
                    all == docs(items@),
                    forall|j: int| 0 <= j < out@.len() ==> (#[trigger] out@[j]).wf(),
                    all_json(all.take(i as int)) == Ok::<Seq<Tree>, Seq<char>>(
                        json::forest(out@),
                    ),
                decreases n - i,
            {
                proof {
                    docs_at(items@);
                    assert(items@.take(i + 1).drop_last() =~= items@.take(i as int));
                    assert(docs(items@.take(i + 1)) == all.take(i + 1));
                    assert(all.take(i + 1).drop_last() =~= all.take(i as int));
                    assert(all.take(i + 1).last() == items@[i as int].doc());
                    assert(decreases_to!(*value => items@[i as int]));
                }
                match yaml_to_json(&items[i]) {
                    Ok(v) => {
                        let ghost was = out@;
                        out.push(v);
                        assert(out@.drop_last() =~= was);
                    },
                    Err(e) => {
                        proof {
                            items_stay_wrong(all, i + 1);
                        }
                        return Err(e);
                    },
                }
                i = i + 1;
            }
            proof {
                docs_at(items@);
                assert(all.take(n as int) =~= all);
            }
            Ok(Json::Array(out))
        },
        Yaml::Mapping(entries) => {
            let mut out: OrdMap<String, Json> = json::nothing();
            let n: usize = entries.len();
            let mut i: usize = 0;
            let ghost all = doc_entries(entries@);
            proof {
                doc_entries_at(entries@);
                assert(all.take(0) =~= Seq::<DocEntry>::empty());
            }
            while i < n
                invariant
                    i <= n,
                    n == entries@.len(),
                    *value is Mapping,
                    value->Mapping_0 == *entries,
                    all == doc_entries(entries@),
                    json::sound(out),
                    entries_json(all.take(i as int)) == Ok::<Map<Seq<char>, Tree>, Seq<char>>(
                        json::members(out),
                    ),
                decreases n - i,
            {
                proof {
                    doc_entries_at(entries@);
                    assert(entries@.take(i + 1).drop_last() =~= entries@.take(i as int));
                    assert(doc_entries(entries@.take(i + 1)) == all.take(i + 1));
                    assert(all.take(i + 1).drop_last() =~= all.take(i as int));
                    assert(all.take(i + 1).last().value == entries@[i as int].value.doc());
                    assert(decreases_to!(*value => entries@[i as int].value));
                }
                match key(&entries[i].key, &entries[i].shown) {
                    Err(e) => {
                        proof {
                            entries_stay_wrong(all, i + 1);
                        }
                        return Err(e);
                    },
                    Ok(k) => match yaml_to_json(&entries[i].value) {
                        Err(e) => {
                            proof {
                                entries_stay_wrong(all, i + 1);
                            }
                            return Err(e);
                        },
                        Ok(v) => {
                            json::put(&mut out, &k, v);
                        },
                    },
                }
                i = i + 1;
            }
            proof {
                doc_entries_at(entries@);
                assert(all.take(n as int) =~= all);
            }
            Ok(Json::Object(out))
        },
        Yaml::Tagged(tag, inner) => match yaml_to_json(inner) {
            Err(e) => Err(e),
            Ok(v) => {
                let chars: Vec<char> = text::chars_of(tag);
                let from: usize = if chars.len() > 0 && chars[0] == '!' {
                    1
                } else {
                    0
                };
                let name: String = text::string_between(&chars, from, chars.len());
                assert(name@ =~= tag_name(tag@));
                Ok(Json::Object(json::single(&name, v)))
            },
        },
    }
}

// ---------------------------------------------------------------------------
// Reading a text
// ---------------------------------------------------------------------------

/// A parsed document of `serde_norway`.
#[verifier::external_type_specification]
#[verifier::external_body]
pub struct ExValue(serde_norway::Value);

/// What a parsed document holds.
pub uninterp spec fn contents(value: Value) -> Doc;

/// The document that a YAML text spells, where it spells one.
pub uninterp spec fn yaml_document(text: Seq<char>) -> Option<Doc>;

/// `serde_norway::from_str` into a `serde_norway::Value`. Which document a text
/// spells is not stated; it depends on the text alone.
#[verifier::external_body]
fn parse_yaml(text: &str) -> (out: Option<Value>)
    ensures
        match out {
            Some(v) => yaml_document(text@) == Some(contents(v)),
            None => yaml_document(text@) is None,
        },
{
    serde_norway::from_str::<Value>(text).ok()
}

/// The parts of a `serde_norway::Value`, variant by variant: a number by its text
/// and by `as_f64`, which has a double for every number, a tag by its text, an
/// entry's key also by its `Debug` text. What the value holds is named, and depends
/// on the value alone.
#[verifier::external_body]
fn document(value: Value) -> (out: Yaml)
    ensures
        out.doc() == contents(value),
{
    match value {
        Value::Null => Yaml::Null,
        Value::Bool(b) => Yaml::Bool(b),
        Value::Number(n) => Yaml::Number(Numeral {
            text: n.to_string(),
            value: Real { bits: n.as_f64().unwrap_or_default().to_bits() },
        }),
        Value::String(s) => Yaml::Text(s),
        Value::Sequence(v) => Yaml::Sequence(v.into_iter().map(document).collect()),
        Value::Mapping(m) => Yaml::Mapping(m.into_iter().map(|(k, v)| YamlEntry {
            shown: format!("{k:?}"), key: document(k), value: document(v) }).collect()),
        Value::Tagged(t) => Yaml::Tagged(t.tag.to_string(), Box::new(document(t.value))),
    }
}

/// The tree without tags that a YAML text spells, where it spells one.
pub open spec fn tree_said(text: Seq<char>) -> Option<Tree> {
    match yaml_document(text) {
        Some(d) => match json_of(d) {
            Ok(t) => Some(t),
            Err(_) => None,
        },
        None => None,
    }
}

/// Read a YAML text as a tree without tags.
pub fn read_tree(text: &str) -> (out: Option<Json>)
    ensures
        match (out, tree_said(text@)) {
            (Some(v), Some(t)) => v.wf() && v.tree() == t,
            (None, None) => true,
            _ => false,
        },
{
    match parse_yaml(text) {
        None => None,
        Some(value) => match yaml_to_json(&document(value)) {
            Ok(v) => Some(v),
            Err(_) => None,
        },
    }
}

// ---------------------------------------------------------------------------
// Laws
// ---------------------------------------------------------------------------

/// A tagged value says the same as a mapping from the tag's name to it.
pub proof fn tag_is_a_mapping(tag: Seq<char>, value: Doc, entry: DocEntry)
    requires
        entry.value == value,
        key_of(entry.key, entry.shown) == Ok::<Seq<char>, Seq<char>>(tag_name(tag)),
    ensures
        json_of(Doc::Tagged(tag, Box::new(value))) == json_of(Doc::Mapping(seq![entry])),
{
    let entries = seq![entry];
    assert(entries.drop_last() =~= Seq::<DocEntry>::empty());
    assert(entries_json(entries.drop_last()) == Ok::<Map<Seq<char>, Tree>, Seq<char>>(Map::empty()));
    assert(entries.last() == entry);
    match json_of(value) {
        Ok(t) => {
            assert(entries_json(entries) == Ok::<Map<Seq<char>, Tree>, Seq<char>>(
                Map::empty().insert(tag_name(tag), t),
            ));
        },
        Err(e) => {
            assert(entries_json(entries) == Err::<Map<Seq<char>, Tree>, Seq<char>>(e));
        },
    }
}

/// Scalars stay what they are, and a number must be finite.
pub proof fn scalars_stay(s: Seq<char>, b: bool, shown: Seq<char>, x: Real)
    ensures
        json_of(Doc::Null) == Ok::<Tree, Seq<char>>(Tree::Null),
        json_of(Doc::Bool(b)) == Ok::<Tree, Seq<char>>(Tree::Bool(b)),
        json_of(Doc::Text(s)) == Ok::<Tree, Seq<char>>(Tree::Text(s)),
        x.finite() ==> json_of(Doc::Number(shown, x)) == Ok::<Tree, Seq<char>>(
            Tree::Number(shown, x),
        ),
        !x.finite() ==> json_of(Doc::Number(shown, x)) is Err,
{
}

/// A list is turned item by item, in its order.
pub proof fn lists_are_turned_item_by_item(items: Seq<Doc>)
    ensures
        all_json(items) matches Ok(trees) ==> trees.len() == items.len() && forall|i: int|
            0 <= i < items.len() ==> json_of(#[trigger] items[i]) == Ok::<Tree, Seq<char>>(
                trees[i],
            ),
        all_json(items) is Err ==> exists|i: int|
            0 <= i < items.len() && json_of(#[trigger] items[i]) is Err,
    decreases items.len(),
{
    if items.len() > 0 {
        let less = items.drop_last();
        lists_are_turned_item_by_item(less);
        match (all_json(less), all_json(items)) {
            (Ok(done), Ok(trees)) => {
                assert forall|i: int| 0 <= i < items.len() implies json_of(#[trigger] items[i])
                    == Ok::<Tree, Seq<char>>(trees[i]) by {
                    if i < less.len() {
                        assert(less[i] == items[i]);
                    }
                }
            },
            (Err(_), _) => {
                let i = choose|i: int| 0 <= i < less.len() && json_of(#[trigger] less[i]) is Err;
                assert(json_of(items[i]) is Err);
            },
            _ => {
                assert(json_of(items[items.len() - 1]) is Err);
            },
        }
    }
}

/// A mapping has under each key the value of the last entry with that key, and no other
/// keys.
pub proof fn mappings_are_turned_key_by_key(entries: Seq<DocEntry>)
    ensures
        entries_json(entries) matches Ok(m) ==> {
            &&& forall|i: int|
                0 <= i < entries.len() && (forall|j: int|
                    i < j < entries.len() ==> key_of(
                        (#[trigger] entries[j]).key,
                        entries[j].shown,
                    ) != key_of(entries[i].key, entries[i].shown)) ==> (key_of(
                    (#[trigger] entries[i]).key,
                    entries[i].shown,
                ) matches Ok(k) && m.dom().contains(k) && json_of(entries[i].value) == Ok::<
                    Tree,
                    Seq<char>,
                >(m[k]))
            &&& forall|k: Seq<char>| #[trigger]
                m.dom().contains(k) ==> exists|i: int|
                    0 <= i < entries.len() && key_of((#[trigger] entries[i]).key, entries[i].shown)
                        == Ok::<Seq<char>, Seq<char>>(k)
        },
    decreases entries.len(),
{
    if entries.len() > 0 && entries_json(entries) is Ok {
        let less = entries.drop_last();
        mappings_are_turned_key_by_key(less);
        let m = entries_json(entries)->Ok_0;
        let done = entries_json(less)->Ok_0;
        let n = less.len() as int;
        assert(entries[n] == entries.last());
        assert forall|i: int|
            0 <= i < entries.len() && (forall|j: int|
                i < j < entries.len() ==> key_of((#[trigger] entries[j]).key, entries[j].shown)
                    != key_of(entries[i].key, entries[i].shown)) implies (key_of(
            (#[trigger] entries[i]).key,
            entries[i].shown,
        ) matches Ok(k) && m.dom().contains(k) && json_of(entries[i].value) == Ok::<
            Tree,
            Seq<char>,
        >(m[k])) by {
            if i < n {
                assert(less[i] == entries[i]);
                assert(key_of(entries[n].key, entries[n].shown) != key_of(
                    entries[i].key,
                    entries[i].shown,
                ));
                assert forall|j: int| i < j < less.len() implies key_of(
                    (#[trigger] less[j]).key,
                    less[j].shown,
                ) != key_of(less[i].key, less[i].shown) by {
                    assert(less[j] == entries[j]);
                }
            }
        }
        assert forall|k: Seq<char>| #[trigger] m.dom().contains(k) implies exists|i: int|
            0 <= i < entries.len() && key_of((#[trigger] entries[i]).key, entries[i].shown) == Ok::<
                Seq<char>,
                Seq<char>,
            >(k) by {
            if done.dom().contains(k) {
                let i = choose|i: int|
                    0 <= i < less.len() && key_of((#[trigger] less[i]).key, less[i].shown) == Ok::<
                        Seq<char>,
                        Seq<char>,
                    >(k);
                assert(entries[i] == less[i]);
            } else {
                assert(key_of(entries[n].key, entries[n].shown) == Ok::<Seq<char>, Seq<char>>(k));
            }
        }
    }
}

} // verus!
