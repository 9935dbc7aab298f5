//! Writing tiles out as JSON: each tile's values become a JSON object, the
//! tiles an array of them, written by `serde_json`'s pretty printer.
use vstd::prelude::*;

use serde_json::Value as JsonValue;

use crate::decompose::DataDecomposer;
use crate::json_tree::{lemma_members_model, lemma_trees_model, members_model, trees_model, JsonModel, JsonTree};
use crate::text::push_char;
use crate::tile::{tiles_model, DataTile, TileModel};
use crate::value::{lemma_values_model_len, values_model, FieldMap, Value, ValueModel};

verus! {

/// `t` is what `number_json` can give for the number with bits `b`: the
/// text of a JSON number, or null where it gives none (a NaN or an
/// infinity has no JSON number).
pub open spec fn number_json_of<J: Fn(u64) -> Option<String>>(number_json: J, b: u64, t: JsonModel) -> bool {
    exists|o: Option<String>|
        #[trigger] number_json.ensures((b,), o) && t == match o {
            Some(s) => JsonModel::Num(s@),
            None => JsonModel::Null,
        }
}

/// `t` is the JSON form of the value `v`: a text is a string, a boolean and
/// null stay as they are, a number is written by `number_json` (see
/// [`number_json_of`]), an array holds the JSON forms of its elements, and an
/// object has one member for each entry, in order, under the same name.
pub open spec fn value_json<J: Fn(u64) -> Option<String>>(number_json: J, v: ValueModel, t: JsonModel) -> bool
    decreases v,
{
    match v {
        ValueModel::Text(s) => t == JsonModel::Str(s),
        ValueModel::Number(b) => number_json_of(number_json, b, t),
        ValueModel::Bool(b) => t == JsonModel::Bool(b),
        ValueModel::Null => t == JsonModel::Null,
        ValueModel::Array(vs) => match t {
            JsonModel::Arr(ts) => ts.len() == vs.len() && forall|i: int|
                0 <= i < vs.len() ==> value_json(number_json, #[trigger] vs[i], ts[i]),
            _ => false,
        },
        ValueModel::Object(m) => match t {
            JsonModel::Obj(ms) => ms.len() == m.len() && forall|i: int|
                0 <= i < m.len() ==> (#[trigger] ms[i]).0 == m[i].0 && value_json(number_json, m[i].1, ms[i].1),
            _ => false,
        },
    }
}

/// `doc` is the JSON document of the tiles: an array with, for each tile in
/// order, the JSON object of its values.
pub open spec fn tiles_json<J: Fn(u64) -> Option<String>>(number_json: J, tiles: Seq<TileModel>, doc: JsonModel) -> bool {
    match doc {
        JsonModel::Arr(objs) => objs.len() == tiles.len() && forall|i: int|
            0 <= i < tiles.len() ==> value_json(number_json, ValueModel::Object(tiles[i].values), #[trigger] objs[i]),
        _ => false,
    }
}

/// The text that `serde_json::to_string_pretty` writes for the JSON value a
/// document stands for, where every number text is read by `serde_json` as a
/// `serde_json::Number`; `None` where a number text is not read as one or
/// writing fails.
pub uninterp spec fn json_pretty_text(doc: JsonModel) -> Option<Seq<char>>;

/// The view of an optional string.
pub open spec fn opt_text(s: Option<String>) -> Option<Seq<char>> {
    match s {
        Some(x) => Some(x@),
        None => None,
    }
}

/// Writes a JSON document: builds the `serde_json::Value` it stands for
/// (reading each number text with `serde_json::Number`'s `FromStr`) and calls
/// `serde_json::to_string_pretty`. The result is claimed to be the text named
/// [`json_pretty_text`] of the document.
#[verifier::external_body]
fn write_json_pretty(doc: &JsonTree) -> (r: Option<String>)
    ensures
        opt_text(r) == json_pretty_text(doc.model()),
{
    match json_value(doc) {
        Some(v) => serde_json::to_string_pretty(&v).ok(),
        None => None,
    }
}

/// Converts a [`JsonTree`] into a `serde_json::Value`, one variant for one
/// variant; a number text becomes what `serde_json::Number`'s `FromStr`
/// gives, and the whole conversion gives `None` where that is an error.
/// Nothing is claimed here: [`write_json_pretty`], its one caller, states
/// what comes out.
#[verifier::external_body]
fn json_value(t: &JsonTree) -> Option<JsonValue> {
    match t {
        JsonTree::Str(s) => Some(JsonValue::String(s.clone())),
        JsonTree::Num(s) => s.parse::<serde_json::Number>().ok().map(JsonValue::Number),
        JsonTree::Bool(b) => Some(JsonValue::Bool(*b)),
        JsonTree::Null => Some(JsonValue::Null),
        JsonTree::Arr(items) => items.iter().map(json_value).collect::<Option<Vec<JsonValue>>>().map(JsonValue::Array),
        JsonTree::Obj(ms) => ms.iter().map(|(k, e)| json_value(e).map(|x| (k.clone(), x))).collect::<Option<
            serde_json::Map<String, JsonValue>,
        >>().map(JsonValue::Object),
    }
}

/// The JSON form of a value (see [`value_json`]).
pub fn tile_value_to_json<J: Fn(u64) -> Option<String>>(v: &Value, number_json: &J) -> (t: JsonTree)
    requires
        forall|b: u64| number_json.requires((b,)),
    ensures
        value_json(*number_json, v.model(), t.model()),
    decreases v.model(),
{
    match v {
        Value::Text(s) => JsonTree::Str(s.clone()),
        Value::Number(b) => {
            let o = number_json(*b);
            let t = match o {
                Some(s) => JsonTree::Num(s),
                None => JsonTree::Null,
            };
            assert(number_json.ensures((*b,), o) && t.model() == match o {
                Some(s) => JsonModel::Num(s@),
                None => JsonModel::Null,
            });
            t
        },
        Value::Bool(b) => JsonTree::Bool(*b),
        Value::Null => JsonTree::Null,
        Value::Array(items) => {
            proof {
                assert(v.model() == ValueModel::Array(values_model(items@)));
                assert(decreases_to!(v.model() => v.model()->Array_0));
            }
            JsonTree::Arr(json_of_values(items, number_json))
        },
        Value::Object(m) => {
            proof {
                assert(v.model() == ValueModel::Object(m.model()));
                assert(decreases_to!(v.model() => v.model()->Object_0));
            }
            JsonTree::Obj(json_of_fields(m, number_json))
        },
    }
}

/// The JSON forms of the elements of an array.
fn json_of_values<J: Fn(u64) -> Option<String>>(items: &Vec<Value>, number_json: &J) -> (out: Vec<JsonTree>)
    requires
        forall|b: u64| number_json.requires((b,)),
    ensures
        value_json(*number_json, ValueModel::Array(values_model(items@)), JsonModel::Arr(trees_model(out@))),
    decreases values_model(items@),
{
    let ghost vm = values_model(items@);
    proof {
        lemma_values_model_len(items@);
    }
    let mut out: Vec<JsonTree> = Vec::new();
    let mut i: usize = 0;
    while i < items.len()
        invariant
            i <= items@.len() == vm.len(),
            vm == values_model(items@),
            forall|q: int| 0 <= q < items@.len() ==> #[trigger] vm[q] == items@[q].model(),
            forall|b: u64| number_json.requires((b,)),
            out@.len() == i,
            forall|q: int| 0 <= q < i ==> value_json(*number_json, #[trigger] vm[q], out@[q].model()),
        decreases items@.len() - i,
    {
        proof {
            assert(decreases_to!(vm => vm[i as int]));
        }
        let t = tile_value_to_json(&items[i], number_json);
        out.push(t);
        i += 1;
    }
    proof {
        lemma_trees_model(out@);
        assert forall|q: int| 0 <= q < vm.len() implies value_json(
            *number_json,
            #[trigger] vm[q],
            trees_model(out@)[q],
        ) by {
            assert(trees_model(out@)[q] == out@[q].model());
        }
    }
    out
}

/// The JSON members of the entries of a map, in order.
fn json_of_fields<J: Fn(u64) -> Option<String>>(m: &FieldMap, number_json: &J) -> (out: Vec<(String, JsonTree)>)
    requires
        forall|b: u64| number_json.requires((b,)),
    ensures
        value_json(*number_json, ValueModel::Object(m.model()), JsonModel::Obj(members_model(out@))),
    decreases m.model(),
{
    let ghost mm = m.model();
    let n = m.len();
    let mut out: Vec<(String, JsonTree)> = Vec::new();
    let mut i: usize = 0;
    while i < n
        invariant
            n == mm.len(),
            mm == m.model(),
            i <= n,
            forall|b: u64| number_json.requires((b,)),
            out@.len() == i,
            forall|q: int|
                0 <= q < i ==> (#[trigger] out@[q]).0@ == mm[q].0 && value_json(*number_json, mm[q].1, out@[q].1.model()),
        decreases n - i,
    {
        let k = m.key_at(i);
        let v = m.value_at(i);
        proof {
            assert(decreases_to!(mm => mm[i as int]));
            assert(decreases_to!(mm[i as int] => mm[i as int].1));
            assert(decreases_to!(mm => mm[i as int].1));
        }
        let t = tile_value_to_json(v, number_json);
        out.push((k.clone(), t));
        i += 1;
    }
    proof {
        lemma_members_model(out@);
        assert forall|q: int| 0 <= q < mm.len() implies (#[trigger] members_model(out@)[q]).0 == mm[q].0
            && value_json(*number_json, mm[q].1, members_model(out@)[q].1) by {
            assert(members_model(out@)[q] == (out@[q].0@, out@[q].1.model()));
        }
    }
    out
}

/// The text `[]`.
fn empty_array_text() -> (s: String)
    ensures
        s@ == seq!['[', ']'],
{
    let mut s = String::new();
    push_char(&mut s, '[');
    push_char(&mut s, ']');
    assert(s@ =~= seq!['[', ']']);
    s
}

impl DataDecomposer {
    /// The JSON document of the tiles (see [`tiles_json`]): an array with,
    /// for each tile in order, the object of its values.
    pub fn json_document_of_tiles<J: Fn(u64) -> Option<String>>(tiles: &[DataTile], number_json: &J) -> (doc: JsonTree)
        requires
            forall|b: u64| number_json.requires((b,)),
        ensures
            tiles_json(*number_json, tiles_model(tiles@), doc.model()),
    {
        let ghost tm = tiles_model(tiles@);
        let mut objs: Vec<JsonTree> = Vec::new();
        let mut i: usize = 0;
        while i < tiles.len()
            invariant
                i <= tiles@.len(),
                tm == tiles_model(tiles@),
                forall|b: u64| number_json.requires((b,)),
                objs@.len() == i,
                forall|q: int|
                    0 <= q < i ==> value_json(*number_json, ValueModel::Object(tm[q].values), #[trigger] objs@[q].model()),
            decreases tiles@.len() - i,
        {
            let members = json_of_fields(&tiles[i].values, number_json);
            objs.push(JsonTree::Obj(members));
            i += 1;
        }
        proof {
            lemma_trees_model(objs@);
            assert forall|q: int| 0 <= q < tm.len() implies value_json(
                *number_json,
                ValueModel::Object(tm[q].values),
                #[trigger] trees_model(objs@)[q],
            ) by {
                assert(trees_model(objs@)[q] == objs@[q].model());
            }
        }
        JsonTree::Arr(objs)
    }

    /// Tiles as a pretty-printed JSON array of objects, one per tile (see
    /// [`tiles_json`]); `[]` where `serde_json` writes nothing.
    pub fn reconstruct_json<J: Fn(u64) -> Option<String>>(tiles: &[DataTile], number_json: &J) -> (out: String)
        requires
            forall|b: u64| number_json.requires((b,)),
        ensures
            exists|doc: JsonModel|
                tiles_json(*number_json, tiles_model(tiles@), doc) && out@ == match json_pretty_text(doc) {
                    Some(s) => s,
                    None => seq!['[', ']'],
                },
    {
        let doc = Self::json_document_of_tiles(tiles, number_json);
        let r = write_json_pretty(&doc);
        let out = match r {
            Some(s) => s,
            None => empty_array_text(),
        };
        assert(tiles_json(*number_json, tiles_model(tiles@), doc.model()));
        out
    }
}

} // verus!
