//! Tiles from JSON documents: an object becomes a tile, an array becomes a
//! tile holding it under `items`, and a top-level array gives one tile per
//! element that is an object or an array.
use vstd::prelude::*;

use crate::csv::string_views;
use crate::decompose::{comma, DataDecomposer};
use crate::summary::{insert_name, strictly_sorted};
use crate::text::{join, join_strings, push_char};
use crate::tile::{new_tile_id, tiles_model, DataKind, DataTile, TextMap, TileModel};
use crate::value::{entry_keys, entry_insert, values_model, lemma_values_model_len, FieldMap, Value, ValueModel};

verus! {

/// The field name under which an array is held.
pub open spec fn items_name() -> Seq<char> {
    seq!['i', 't', 'e', 'm', 's']
}

/// The value is an object or an array, which make tiles.
pub open spec fn is_container(v: ValueModel) -> bool {
    v is Object || v is Array
}

/// `t` is the tile that the JSON value `v` at position `index` makes: an
/// object keeps its fields, with the sorted field names joined by commas as
/// schema key; an array is held under `items`.
pub open spec fn json_tile(v: ValueModel, index: u64, t: TileModel) -> bool {
    &&& t.kind == DataKind::JsonNode
    &&& t.index == index
    &&& t.meta.len() == 0
    &&& match v {
        ValueModel::Object(m) => {
            &&& t.values == m
            &&& exists|names: Seq<Seq<char>>|
                strictly_sorted(names) && names.to_set() == entry_keys(m).to_set() && t.schema_key == join(
                    names,
                    comma(),
                )
        },
        ValueModel::Array(items) => {
            &&& t.values == seq![(items_name(), ValueModel::Array(items))]
            &&& t.schema_key == items_name()
        },
        _ => false,
    }
}

/// The positions of the elements that make tiles, in order.
pub open spec fn tile_sources(items: Seq<ValueModel>) -> Seq<int> {
    Seq::new(items.len(), |j: int| j).filter(|j: int| is_container(items[j]))
}

/// `out` are the tiles that a JSON document `root` decomposes into.
pub open spec fn json_tiles(root: ValueModel, out: Seq<TileModel>) -> bool {
    match root {
        ValueModel::Array(items) => {
            let src = tile_sources(items);
            &&& out.len() == src.len()
            &&& forall|k: int| 0 <= k < out.len() ==> json_tile(items[src[k]], src[k] as u64, #[trigger] out[k])
        },
        _ => if is_container(root) {
            out.len() == 1 && json_tile(root, 0, out[0])
        } else {
            out.len() == 0
        },
    }
}

/// The string `items`.
fn items_string() -> (s: String)
    ensures
        s@ == items_name(),
{
    let mut s = String::new();
    push_char(&mut s, 'i');
    push_char(&mut s, 't');
    push_char(&mut s, 'e');
    push_char(&mut s, 'm');
    push_char(&mut s, 's');
    assert(s@ =~= items_name());
    s
}

/// The field names of a map, sorted.
fn sorted_names(m: &FieldMap) -> (names: Vec<String>)
    ensures
        strictly_sorted(string_views(names@)),
        string_views(names@).to_set() == entry_keys(m.model()).to_set(),
{
    let mut names: Vec<String> = Vec::new();
    let n = m.len();
    let mut j: usize = 0;
    assert(string_views(names@).to_set() =~= entry_keys(m.model()).take(0).to_set());
    while j < n
        invariant
            n == m.model().len(),
            j <= n,
            strictly_sorted(string_views(names@)),
            string_views(names@).to_set() == entry_keys(m.model()).take(j as int).to_set(),
        decreases n - j,
    {
        let key = m.key_at(j);
        insert_name(&mut names, key);
        proof {
            let ks = entry_keys(m.model());
            assert(ks.take(j + 1) =~= ks.take(j as int).push(key@));
            ks.take(j as int).lemma_push_to_set_commute(key@);
        }
        j += 1;
    }
    assert(entry_keys(m.model()).take(n as int) =~= entry_keys(m.model()));
    names
}

/// The tile that the JSON value `val` at position `index` makes, if it is
/// an object or an array (see [`json_tile`]).
pub fn json_to_tile(val: Value, index: u64) -> (r: Option<DataTile>)
    ensures
        r is Some <==> is_container(val.model()),
        r matches Some(t) ==> json_tile(val.model(), index, t.model()),
{
    let ghost vm = val.model();
    match val {
        Value::Object(m) => {
            let names = sorted_names(&m);
            let schema_key = join_strings(&names, ",");
            proof {
                reveal_strlit(",");
                assert(","@ =~= comma());
                assert(names@.map_values(|p: String| p@) == string_views(names@));
            }
            let t = DataTile {
                id: new_tile_id(),
                kind: DataKind::JsonNode,
                values: m,
                index,
                schema_key,
                meta: TextMap::new(),
            };
            assert(t.model().meta =~= Seq::<(Seq<char>, Seq<char>)>::empty());
            Some(t)
        },
        Value::Array(items) => {
            let ghost im = values_model(items@);
            let mut values = FieldMap::new();
            values.insert(items_string(), Value::Array(items));
            assert(values.model() == entry_insert(Seq::empty(), items_name(), ValueModel::Array(im)));
            assert(values.model() =~= seq![(items_name(), ValueModel::Array(im))]);
            let t = DataTile {
                id: new_tile_id(),
                kind: DataKind::JsonNode,
                values,
                index,
                schema_key: items_string(),
                meta: TextMap::new(),
            };
            assert(t.model().meta =~= Seq::<(Seq<char>, Seq<char>)>::empty());
            Some(t)
        },
        _ => None,
    }
}

impl DataDecomposer {
    /// The tiles of a parsed JSON document (see [`json_tiles`]): a top-level
    /// array gives a tile for each element that is an object or an array, at
    /// the element's position; an object or array alone gives one tile.
    pub fn tiles_from_json(root: Value) -> (tiles: Vec<DataTile>)
        ensures
            json_tiles(root.model(), tiles_model(tiles@)),
    {
        let ghost rm = root.model();
        match root {
            Value::Array(items) => {
                let ghost im = values_model(items@);
                proof {
                    lemma_values_model_len(items@);
                }
                let ghost all = Seq::new(im.len(), |j: int| j);
                let ghost pred = |j: int| is_container(im[j]);
                let mut tiles: Vec<DataTile> = Vec::new();
                let mut i: usize = 0;
                assert(all.take(0) =~= Seq::<int>::empty());
                while i < items.len()
                    invariant
                        i <= items@.len() == im.len() == all.len(),
                        im == values_model(items@),
                        forall|q: int| 0 <= q < items@.len() ==> #[trigger] im[q] == items@[q].model(),
                        all == Seq::new(im.len(), |j: int| j),
                        pred == (|j: int| is_container(im[j])),
                        ({
                            let src = all.take(i as int).filter(pred);
                            &&& tiles@.len() == src.len()
                            &&& forall|k: int| 0 <= k < src.len() ==> 0 <= #[trigger] src[k] < i
                            &&& forall|k: int|
                                0 <= k < tiles@.len() ==> json_tile(im[src[k]], src[k] as u64, #[trigger] tiles@[k].model())
                        }),
                    decreases items@.len() - i,
                {
                    let c = items[i].copy();
                    let r = json_to_tile(c, i as u64);
                    proof {
                        assert(all.take(i + 1) =~= all.take(i as int).push(i as int));
                        all.take(i as int).lemma_filter_push(i as int, pred);
                    }
                    match r {
                        Some(t) => {
                            tiles.push(t);
                        },
                        None => {},
                    }
                    i += 1;
                }
                assert(all.take(i as int) =~= all);
                assert(tiles_model(tiles@).len() == tiles@.len());
                tiles
            },
            other => {
                let mut tiles: Vec<DataTile> = Vec::new();
                match json_to_tile(other, 0) {
                    Some(t) => {
                        tiles.push(t);
                    },
                    None => {},
                }
                tiles
            },
        }
    }
}

} // verus!
