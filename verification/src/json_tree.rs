//! JSON documents read from text: the parsed tree, the values it stands for,
//! and the tiles of a JSON input.
use vstd::prelude::*;

use serde_json::Value as JsonValue;

use crate::decompose::{insert_all, lemma_insert_all_prefix, DataDecomposer};
use crate::json::json_tiles;
use crate::tile::{tiles_model, DataTile};
use crate::value::{lemma_values_model_len, reads_as, values_model, FieldMap, Value, ValueModel};

verus! {

#[verifier::external_type_specification]
#[verifier::external_body]
pub struct ExJsonValue(JsonValue);

/// A parsed JSON document. A number is held as the text that `serde_json`
/// writes for it; an object holds its members in the parser's order.
#[derive(Debug)]
pub enum JsonTree {
    Str(String),
    Num(String),
    Bool(bool),
    Null,
    Arr(Vec<JsonTree>),
    Obj(Vec<(String, JsonTree)>),
}

/// The mathematical model of a [`JsonTree`].
pub ghost enum JsonModel {
    Str(Seq<char>),
    Num(Seq<char>),
    Bool(bool),
    Null,
    Arr(Seq<JsonModel>),
    Obj(Seq<(Seq<char>, JsonModel)>),
}

impl JsonTree {
    /// The model of this tree.
    pub open spec fn model(self) -> JsonModel
        decreases self,
    {
        match self {
            JsonTree::Str(s) => JsonModel::Str(s@),
            JsonTree::Num(s) => JsonModel::Num(s@),
            JsonTree::Bool(b) => JsonModel::Bool(b),
            JsonTree::Null => JsonModel::Null,
            JsonTree::Arr(items) => JsonModel::Arr(trees_model(items@)),
            JsonTree::Obj(members) => JsonModel::Obj(members_model(members@)),
        }
    }
}

/// The models of a sequence of trees.
pub open spec fn trees_model(s: Seq<JsonTree>) -> Seq<JsonModel>
    decreases s,
{
    if s.len() == 0 {
        Seq::<JsonModel>::empty()
    } else {
        trees_model(s.drop_last()).push(s.last().model())
    }
}

/// The models of a sequence of object members.
pub open spec fn members_model(s: Seq<(String, JsonTree)>) -> Seq<(Seq<char>, JsonModel)>
    decreases s,
{
    if s.len() == 0 {
        Seq::<(Seq<char>, JsonModel)>::empty()
    } else {
        members_model(s.drop_last()).push((s.last().0@, s.last().1.model()))
    }
}

/// The model of an optional tree.
pub open spec fn opt_tree_model(t: Option<JsonTree>) -> Option<JsonModel> {
    match t {
        Some(x) => Some(x.model()),
        None => None,
    }
}

/// The document that `serde_json` parses the text `input` into, or `None`
/// where it refuses the text.
pub uninterp spec fn json_document(input: Seq<char>) -> Option<JsonModel>;

/// The member names of an object, in order.
pub open spec fn member_keys(members: Seq<(Seq<char>, JsonModel)>) -> Seq<Seq<char>> {
    members.map_values(|e: (Seq<char>, JsonModel)| e.0)
}

/// The bits of a number whose text `number_bits` read as `parsed`: the
/// float read, or zero (the bits of `0.0`) where it read none.
pub open spec fn number_read(parsed: Option<u64>) -> u64 {
    match parsed {
        Some(b) => b,
        None => 0,
    }
}

/// `v` is the number that `number_bits` reads the text `s` as (see
/// [`number_read`]).
pub open spec fn number_reads<F: Fn(&str) -> Option<u64>>(number_bits: F, s: Seq<char>, v: ValueModel) -> bool {
    exists|p: Option<u64>| #[trigger] reads_as(number_bits, s, p) && v == ValueModel::Number(number_read(p))
}

/// `v` is the value that the JSON tree `t` stands for, where `number_bits`
/// reads the text of a number as a float: a string is text, a number is the
/// float read, an array holds the values of its elements, and an object maps
/// each member name to the value of its member (a later member of the same
/// name overrides an earlier one).
pub open spec fn tree_reads<F: Fn(&str) -> Option<u64>>(number_bits: F, t: JsonModel, v: ValueModel) -> bool
    decreases t,
{
    match t {
        JsonModel::Str(s) => v == ValueModel::Text(s),
        JsonModel::Num(s) => number_reads(number_bits, s, v),
        JsonModel::Bool(b) => v == ValueModel::Bool(b),
        JsonModel::Null => v == ValueModel::Null,
        JsonModel::Arr(items) => match v {
            ValueModel::Array(vs) => vs.len() == items.len() && forall|i: int|
                0 <= i < items.len() ==> tree_reads(number_bits, #[trigger] items[i], vs[i]),
            _ => false,
        },
        JsonModel::Obj(members) => match v {
            ValueModel::Object(m) => exists|vs: Seq<ValueModel>|
                vs.len() == members.len() && (forall|i: int|
                    0 <= i < members.len() ==> tree_reads(number_bits, (#[trigger] members[i]).1, vs[i]))
                    && m == insert_all(member_keys(members), vs, members.len()),
            _ => false,
        },
    }
}

pub proof fn lemma_trees_model(s: Seq<JsonTree>)
    ensures
        trees_model(s).len() == s.len(),
        forall|i: int| 0 <= i < s.len() ==> (#[trigger] trees_model(s)[i]) == s[i].model(),
    decreases s.len(),
{
    if s.len() > 0 {
        lemma_trees_model(s.drop_last());
    }
}

pub proof fn lemma_members_model(s: Seq<(String, JsonTree)>)
    ensures
        members_model(s).len() == s.len(),
        forall|i: int|
            0 <= i < s.len() ==> (#[trigger] members_model(s)[i]) == (s[i].0@, s[i].1.model()),
    decreases s.len(),
{
    if s.len() > 0 {
        lemma_members_model(s.drop_last());
    }
}

/// Reads a JSON document: calls `serde_json::from_str` for a
/// `serde_json::Value` and converts what it gives into a [`JsonTree`]. The
/// result is claimed to be the document named [`json_document`] of the text,
/// `None` where `serde_json` returns an error.
#[verifier::external_body]
fn parse_json_document(input: &str) -> (r: Option<JsonTree>)
    ensures
        opt_tree_model(r) == json_document(input@),
{
    match serde_json::from_str::<JsonValue>(input) {
        Ok(v) => Some(json_tree(v)),
        Err(_) => None,
    }
}

/// Converts a `serde_json::Value` into a [`JsonTree`], one variant for one
/// variant; a number becomes the text of its `Display`. Nothing is claimed
/// here: [`parse_json_document`], its one caller, states what comes out.
#[verifier::external_body]
fn json_tree(v: JsonValue) -> JsonTree {
    match v {
        JsonValue::Null => JsonTree::Null,
        JsonValue::Bool(b) => JsonTree::Bool(b),
        JsonValue::Number(n) => JsonTree::Num(n.to_string()),
        JsonValue::String(s) => JsonTree::Str(s),
        JsonValue::Array(a) => JsonTree::Arr(a.into_iter().map(json_tree).collect()),
        JsonValue::Object(m) => JsonTree::Obj(m.into_iter().map(|(k, e)| (k, json_tree(e))).collect()),
    }
}

/// The value that a JSON tree stands for (see [`tree_reads`]).
pub fn value_of_tree<F: Fn(&str) -> Option<u64>>(t: &JsonTree, number_bits: &F) -> (v: Value)
    requires
        forall|s: &str| number_bits.requires((s,)),
    ensures
        tree_reads(*number_bits, t.model(), v.model()),
    decreases t,
{
    match t {
        JsonTree::Str(s) => Value::Text(s.clone()),
        JsonTree::Num(s) => {
            let p = number_bits(s.as_str());
            let r = match p {
                Some(b) => Value::Number(b),
                None => Value::Number(0),
            };
            assert(reads_as(*number_bits, s@, p) && r.model() == ValueModel::Number(number_read(p)));
            r
        },
        JsonTree::Bool(b) => Value::Bool(*b),
        JsonTree::Null => Value::Null,
        JsonTree::Arr(items) => Value::Array(values_of_trees(items, number_bits)),
        JsonTree::Obj(members) => Value::Object(map_of_members(members, number_bits)),
    }
}

/// The values of the elements of a JSON array.
fn values_of_trees<F: Fn(&str) -> Option<u64>>(items: &Vec<JsonTree>, number_bits: &F) -> (out: Vec<Value>)
    requires
        forall|s: &str| number_bits.requires((s,)),
    ensures
        tree_reads(*number_bits, JsonModel::Arr(trees_model(items@)), ValueModel::Array(values_model(out@))),
    decreases items,
{
    let ghost im = trees_model(items@);
    proof {
        lemma_trees_model(items@);
    }
    let mut out: Vec<Value> = Vec::new();
    let mut i: usize = 0;
    while i < items.len()
        invariant
            i <= items@.len() == im.len(),
            im == trees_model(items@),
            forall|q: int| 0 <= q < items@.len() ==> #[trigger] im[q] == items@[q].model(),
            forall|s: &str| number_bits.requires((s,)),
            out@.len() == i,
            forall|q: int| 0 <= q < i ==> tree_reads(*number_bits, #[trigger] im[q], out@[q].model()),
        decreases items@.len() - i,
    {
        proof {
            assert(decreases_to!(items => items@[i as int]));
        }
        let v = value_of_tree(&items[i], number_bits);
        out.push(v);
        i += 1;
    }
    proof {
        lemma_values_model_len(out@);
        assert forall|q: int| 0 <= q < im.len() implies tree_reads(
            *number_bits,
            #[trigger] im[q],
            values_model(out@)[q],
        ) by {
            assert(values_model(out@)[q] == out@[q].model());
        }
    }
    out
}

/// The map of the members of a JSON object.
fn map_of_members<F: Fn(&str) -> Option<u64>>(members: &Vec<(String, JsonTree)>, number_bits: &F) -> (m: FieldMap)
    requires
        forall|s: &str| number_bits.requires((s,)),
    ensures
        tree_reads(*number_bits, JsonModel::Obj(members_model(members@)), ValueModel::Object(m.model())),
    decreases members,
{
    let ghost mm = members_model(members@);
    proof {
        lemma_members_model(members@);
    }
    let ghost keys = member_keys(mm);
    let ghost mut vs: Seq<ValueModel> = Seq::empty();
    let mut m = FieldMap::new();
    let mut i: usize = 0;
    while i < members.len()
        invariant
            i <= members@.len() == mm.len(),
            mm == members_model(members@),
            keys == member_keys(mm),
            forall|q: int|
                0 <= q < members@.len() ==> #[trigger] mm[q] == (members@[q].0@, members@[q].1.model()),
            forall|s: &str| number_bits.requires((s,)),
            vs.len() == i,
            forall|q: int| 0 <= q < i ==> tree_reads(*number_bits, (#[trigger] mm[q]).1, vs[q]),
            m.model() == insert_all(keys, vs, i as nat),
        decreases members@.len() - i,
    {
        proof {
            assert(decreases_to!(members => members@[i as int]));
            assert(decreases_to!(members@[i as int] => members@[i as int].1));
        }
        let v = value_of_tree(&members[i].1, number_bits);
        let ghost old_vs = vs;
        proof {
            vs = vs.push(v.model());
            lemma_insert_all_prefix(keys, old_vs, vs, i as nat);
            assert(keys[i as int] == members@[i as int].0@);
        }
        m.insert(members[i].0.clone(), v);
        i += 1;
    }
    assert(tree_reads(*number_bits, JsonModel::Obj(mm), ValueModel::Object(m.model())));
    m
}

impl DataDecomposer {
    /// The tiles of a read JSON document (see [`json_tiles`]): none where
    /// the text was no JSON; otherwise those of the value the document
    /// stands for.
    pub fn tiles_from_document<F: Fn(&str) -> Option<u64>>(doc: Option<JsonTree>, number_bits: &F) -> (tiles: Vec<DataTile>)
        requires
            forall|s: &str| number_bits.requires((s,)),
        ensures
            doc is None ==> tiles@.len() == 0,
            doc matches Some(t) ==> exists|root: ValueModel|
                tree_reads(*number_bits, t.model(), root) && json_tiles(root, tiles_model(tiles@)),
    {
        match doc {
            None => Vec::new(),
            Some(t) => {
                let root = value_of_tree(&t, number_bits);
                let ghost rm = root.model();
                let tiles = Self::tiles_from_json(root);
                assert(tree_reads(*number_bits, t.model(), rm) && json_tiles(rm, tiles_model(tiles@)));
                tiles
            },
        }
    }

    /// Parse JSON input into tiles: a text that `serde_json` refuses gives
    /// none; otherwise a top-level array gives a tile for each element that
    /// is an object or an array, and an object or array alone gives one.
    pub fn parse_json<F: Fn(&str) -> Option<u64>>(input: &str, number_bits: &F) -> (tiles: Vec<DataTile>)
        requires
            forall|s: &str| number_bits.requires((s,)),
        ensures
            json_document(input@) is None ==> tiles@.len() == 0,
            json_document(input@) matches Some(doc) ==> exists|root: ValueModel|
                tree_reads(*number_bits, doc, root) && json_tiles(root, tiles_model(tiles@)),
    {
        let doc = parse_json_document(input);
        Self::tiles_from_document(doc, number_bits)
    }
}

} // verus!
