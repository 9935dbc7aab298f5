//! Summaries of sets of tiles: the schema (all field names) and statistics.
use vstd::prelude::*;

use crate::csv::string_views;
use crate::decompose::DataDecomposer;
use crate::query::field_of;
use crate::sorting::kind_tag;
use crate::text::{
    chars_equal, chars_of, lemma_lex_asymmetric, lemma_lex_irreflexive, lemma_lex_total,
    lemma_lex_transitive, lex_lt, text_less,
};
use crate::tile::{tiles_model, CountMap, DataStats, DataTile, TileModel, counts_model, counts_unique};
use crate::value::{Value, ValueModel};

verus! {

// ---------------------------------------------------------------------------
// Specifications
// ---------------------------------------------------------------------------

/// Each text comes before the next one.
pub open spec fn strictly_sorted(s: Seq<Seq<char>>) -> bool {
    forall|a: int, b: int| 0 <= a < b < s.len() ==> lex_lt(#[trigger] s[a], #[trigger] s[b])
}

/// The names of the fields of any of the tiles.
pub open spec fn all_keys(tiles: Seq<TileModel>) -> Set<Seq<char>> {
    Set::new(
        |k: Seq<char>|
            exists|i: int, j: int|
                0 <= i < tiles.len() && 0 <= j < tiles[i].values.len() && (#[trigger] tiles[i].values[j]).0
                    == k,
    )
}

/// `fields` is the schema of the tiles: every field name of any tile once,
/// in lexicographic order.
pub open spec fn is_schema(fields: Seq<Seq<char>>, tiles: Seq<TileModel>) -> bool {
    strictly_sorted(fields) && fields.to_set() == all_keys(tiles)
}

// ---------------------------------------------------------------------------
// Laws
// ---------------------------------------------------------------------------

/// A strictly sorted sequence of texts is fixed by the set of its elements:
/// there is only one schema of a set of tiles.
pub proof fn lemma_sorted_unique(a: Seq<Seq<char>>, b: Seq<Seq<char>>)
    requires
        strictly_sorted(a),
        strictly_sorted(b),
        a.to_set() == b.to_set(),
    ensures
        a == b,
    decreases a.len() + b.len(),
{
    if a.len() == 0 {
        if b.len() > 0 {
            assert(b.to_set().contains(b[0]));
            assert(!a.to_set().contains(b[0]));
        }
        assert(a =~= b);
    } else if b.len() == 0 {
        assert(a.to_set().contains(a[0]));
    } else {
        // the last elements are the largest of the same set
        let x = a.last();
        let y = b.last();
        assert(a.to_set().contains(x));
        assert(b.to_set().contains(y));
        assert(b.contains(x));
        assert(a.contains(y));
        let ix = choose|i: int| 0 <= i < b.len() && b[i] == x;
        let iy = choose|i: int| 0 <= i < a.len() && a[i] == y;
        if x != y {
            lemma_lex_total(x, y);
            if lex_lt(x, y) {
                // y is in a, below its last element x
                if iy < a.len() - 1 {
                    lemma_lex_asymmetric(a[iy], x);
                } else {
                    lemma_lex_irreflexive(x);
                }
            } else {
                if ix < b.len() - 1 {
                    lemma_lex_asymmetric(b[ix], y);
                } else {
                    lemma_lex_irreflexive(y);
                }
            }
        }
        let a2 = a.drop_last();
        let b2 = b.drop_last();
        assert forall|k: Seq<char>| a2.to_set().contains(k) <==> b2.to_set().contains(k) by {
            if a2.to_set().contains(k) {
                let i = choose|i: int| 0 <= i < a2.len() && a2[i] == k;
                assert(a.to_set().contains(k));
                assert(b.contains(k));
                let j = choose|j: int| 0 <= j < b.len() && b[j] == k;
                assert(lex_lt(a[i], x));
                if j == b.len() - 1 {
                    lemma_lex_irreflexive(x);
                }
                assert(b2[j] == k);
            }
            if b2.to_set().contains(k) {
                let j = choose|j: int| 0 <= j < b2.len() && b2[j] == k;
                assert(b.to_set().contains(k));
                assert(a.contains(k));
                let i = choose|i: int| 0 <= i < a.len() && a[i] == k;
                assert(lex_lt(b[j], y));
                if i == a.len() - 1 {
                    lemma_lex_irreflexive(y);
                }
                assert(a2[i] == k);
            }
        }
        assert(a2.to_set() =~= b2.to_set());
        lemma_sorted_unique(a2, b2);
        assert(a =~= a2.push(x));
        assert(b =~= b2.push(y));
    }
}

// ---------------------------------------------------------------------------
// Executable code
// ---------------------------------------------------------------------------

/// Whether the name at position `p` comes before the text `k`.
fn name_before(names: &Vec<String>, p: usize, k: &Vec<char>) -> (r: bool)
    requires
        p < names@.len(),
    ensures
        r == lex_lt(string_views(names@)[p as int], k@),
{
    let name = chars_of(names[p].as_str());
    text_less(&name, k)
}

/// Inserts `key` into a strictly sorted list of names, unless it is there.
pub(crate) fn insert_name(names: &mut Vec<String>, key: &String)
    requires
        strictly_sorted(string_views(old(names)@)),
    ensures
        strictly_sorted(string_views(final(names)@)),
        string_views(final(names)@).to_set() == string_views(old(names)@).to_set().insert(key@),
{
    let ghost old_v = string_views(names@);
    let k = chars_of(key.as_str());
    let mut p: usize = 0;
    while p < names.len() && name_before(names, p, &k)
        invariant
            p <= names@.len(),
            names@ == old(names)@,
            old_v == string_views(names@),
            k@ == key@,
            forall|q: int| 0 <= q < p ==> lex_lt(#[trigger] old_v[q], key@),
        decreases names@.len() - p,
    {
        p += 1;
    }
    if p < names.len() {
        let name = chars_of(names[p].as_str());
        if chars_equal(&name, &k) {
            assert(old_v.to_set().contains(key@)) by {
                assert(old_v[p as int] == key@);
            }
            assert(old_v.to_set().insert(key@) =~= old_v.to_set());
            return;
        }
        proof {
            lemma_lex_total(name@, key@);
        }
    }
    let ghost before = names@;
    names.insert(p, key.clone());
    let ghost nv = string_views(names@);
    proof {
        assert(nv =~= old_v.insert(p as int, key@));
        assert forall|a: int, b: int| 0 <= a < b < nv.len() implies lex_lt(#[trigger] nv[a], #[trigger] nv[b]) by {
            if b == p {
                assert(nv[a] == old_v[a]);
            } else if a == p {
                assert(nv[b] == old_v[b - 1]);
                if b - 1 > p {
                    lemma_lex_transitive(key@, old_v[p as int], old_v[b - 1]);
                }
            } else {
                let pa = if a < p { a } else { a - 1 };
                let pb = if b < p { b } else { b - 1 };
                assert(nv[a] == old_v[pa] && nv[b] == old_v[pb]);
            }
        }
        assert forall|x: Seq<char>| nv.to_set().contains(x) <==> old_v.to_set().insert(key@).contains(x) by {
            if nv.to_set().contains(x) {
                let i = choose|i: int| 0 <= i < nv.len() && nv[i] == x;
                if i < p {
                    assert(old_v[i] == x);
                } else if i > p {
                    assert(old_v[i - 1] == x);
                }
            }
            if old_v.to_set().contains(x) {
                let i = choose|i: int| 0 <= i < old_v.len() && old_v[i] == x;
                if i < p {
                    assert(nv[i] == x);
                } else {
                    assert(nv[i + 1] == x);
                }
            }
            if x == key@ {
                assert(nv[p as int] == x);
            }
        }
        assert(nv.to_set() =~= old_v.to_set().insert(key@));
    }
}

/// The names of the fields of the tiles among `tiles[..i]`, with field
/// positions below `j` in tile `i`.
pub open spec fn keys_upto(tiles: Seq<TileModel>, i: int, j: int) -> Set<Seq<char>> {
    Set::new(
        |k: Seq<char>|
            exists|a: int, b: int|
                0 <= a <= i && a < tiles.len() && 0 <= b < tiles[a].values.len() && (a < i || b < j) && (
                #[trigger] tiles[a].values[b]).0 == k,
    )
}

impl DataDecomposer {
    /// The names of all fields of the tiles, each once, in lexicographic order.
    pub fn schema(tiles: &[DataTile]) -> (fields: Vec<String>)
        ensures
            is_schema(string_views(fields@), tiles_model(tiles@)),
    {
        let ghost tm = tiles_model(tiles@);
        let mut fields: Vec<String> = Vec::new();
        let mut i: usize = 0;
        assert(string_views(fields@).to_set() =~= keys_upto(tm, 0, 0));
        while i < tiles.len()
            invariant
                i <= tiles@.len(),
                tm == tiles_model(tiles@),
                strictly_sorted(string_views(fields@)),
                string_views(fields@).to_set() == keys_upto(tm, i as int, 0),
            decreases tiles@.len() - i,
        {
            let m = &tiles[i].values;
            assert(m.model() == tm[i as int].values);
            let n = m.len();
            let mut j: usize = 0;
            while j < n
                invariant
                    i < tiles@.len(),
                    tm == tiles_model(tiles@),
                    m.model() == tm[i as int].values,
                    n == m.model().len(),
                    j <= n,
                    strictly_sorted(string_views(fields@)),
                    string_views(fields@).to_set() == keys_upto(tm, i as int, j as int),
                decreases n - j,
            {
                let key = m.key_at(j);
                insert_name(&mut fields, key);
                assert(string_views(fields@).to_set() =~= keys_upto(tm, i as int, j + 1)) by {
                    assert(tm[i as int].values[j as int].0 == key@);
                }
                j += 1;
            }
            assert(keys_upto(tm, i as int, n as int) =~= keys_upto(tm, i + 1, 0));
            i += 1;
        }
        assert(keys_upto(tm, i as int, 0) =~= all_keys(tm));
        fields
    }
}


// ---------------------------------------------------------------------------
// Statistics
// ---------------------------------------------------------------------------

/// The field is missing or null.
pub open spec fn null_or_missing(v: Option<ValueModel>) -> bool {
    v is None || v == Some(ValueModel::Null)
}

/// The number of tiles in which `f` is missing or null.
pub open spec fn null_count(tiles: Seq<TileModel>, f: Seq<char>) -> nat
    decreases tiles.len(),
{
    if tiles.len() == 0 {
        0
    } else {
        null_count(tiles.drop_last(), f) + if null_or_missing(field_of(tiles.last(), f)) {
            1nat
        } else {
            0nat
        }
    }
}

/// The number of entries whose value has variant `tag`.
pub open spec fn entries_of_kind(values: Seq<(Seq<char>, ValueModel)>, tag: int) -> nat
    decreases values.len(),
{
    if values.len() == 0 {
        0
    } else {
        entries_of_kind(values.drop_last(), tag) + if kind_tag(values.last().1) == tag {
            1nat
        } else {
            0nat
        }
    }
}

/// The number of field values of variant `tag` over all tiles.
pub open spec fn kind_count(tiles: Seq<TileModel>, tag: int) -> nat
    decreases tiles.len(),
{
    if tiles.len() == 0 {
        0
    } else {
        kind_count(tiles.drop_last(), tag) + entries_of_kind(tiles.last().values, tag)
    }
}

/// The number of field values over all tiles.
pub open spec fn total_entries(tiles: Seq<TileModel>) -> nat
    decreases tiles.len(),
{
    if tiles.len() == 0 {
        0
    } else {
        total_entries(tiles.drop_last()) + tiles.last().values.len()
    }
}

/// The name of a variant, as the statistics count it.
pub open spec fn kind_name(tag: int) -> Seq<char> {
    if tag == 0 {
        seq!['T', 'e', 'x', 't']
    } else if tag == 1 {
        seq!['N', 'u', 'm', 'b', 'e', 'r']
    } else if tag == 2 {
        seq!['B', 'o', 'o', 'l']
    } else if tag == 3 {
        seq!['N', 'u', 'l', 'l']
    } else if tag == 4 {
        seq!['A', 'r', 'r', 'a', 'y']
    } else {
        seq!['O', 'b', 'j', 'e', 'c', 't']
    }
}

/// The counts by variant, for the variants that occur, in the order
/// Text, Number, Bool, Null, Array, Object.
pub open spec fn kind_counts_upto(tiles: Seq<TileModel>, n: int) -> Seq<(Seq<char>, nat)>
    decreases n,
{
    if n <= 0 {
        Seq::<(Seq<char>, nat)>::empty()
    } else {
        let rest = kind_counts_upto(tiles, n - 1);
        if kind_count(tiles, n - 1) > 0 {
            rest.push((kind_name(n - 1), kind_count(tiles, n - 1)))
        } else {
            rest
        }
    }
}

/// The counts by variant of all field values of the tiles.
pub open spec fn kind_counts(tiles: Seq<TileModel>) -> Seq<(Seq<char>, nat)> {
    kind_counts_upto(tiles, 6)
}

/// Different variants have different names.
proof fn lemma_kind_name_distinct(a: int, b: int)
    requires
        0 <= a < b < 6,
    ensures
        kind_name(a) != kind_name(b),
{
    let x = kind_name(a);
    let y = kind_name(b);
    if x.len() == y.len() {
        assert(x[0] != y[0] || x[1] != y[1]);
    }
}

/// Each name is counted once: the names are those of distinct variants.
proof fn lemma_kind_counts_unique(tiles: Seq<TileModel>, n: int)
    requires
        0 <= n <= 6,
    ensures
        counts_unique(kind_counts_upto(tiles, n)),
        forall|i: int| 0 <= i < kind_counts_upto(tiles, n).len() ==> exists|q: int|
            0 <= q < n && (#[trigger] kind_counts_upto(tiles, n)[i]).0 == kind_name(q),
    decreases n,
{
    if n > 0 {
        lemma_kind_counts_unique(tiles, n - 1);
        let rest = kind_counts_upto(tiles, n - 1);
        if kind_count(tiles, n - 1) > 0 {
            let m = kind_counts_upto(tiles, n);
            assert(m == rest.push((kind_name(n - 1), kind_count(tiles, n - 1))));
            assert forall|i: int| 0 <= i < m.len() implies exists|q: int|
                0 <= q < n && (#[trigger] m[i]).0 == kind_name(q) by {
                if i < rest.len() {
                    assert(m[i] == rest[i]);
                } else {
                    assert(m[i].0 == kind_name(n - 1));
                }
            }
            assert forall|i: int, j: int| 0 <= i < j < m.len() implies (#[trigger] m[i]).0 != (#[trigger] m[j]).0 by {
                assert(m[i] == rest[i]);
                if j < rest.len() {
                    assert(m[j] == rest[j]);
                } else {
                    let q = choose|q: int| 0 <= q < n - 1 && rest[i].0 == kind_name(q);
                    lemma_kind_name_distinct(q, n - 1);
                }
            }
        }
    }
}

pub proof fn lemma_entries_of_kind_le(values: Seq<(Seq<char>, ValueModel)>, tag: int)
    ensures
        entries_of_kind(values, tag) <= values.len(),
    decreases values.len(),
{
    if values.len() > 0 {
        lemma_entries_of_kind_le(values.drop_last(), tag);
    }
}

pub proof fn lemma_kind_count_le(tiles: Seq<TileModel>, tag: int)
    ensures
        kind_count(tiles, tag) <= total_entries(tiles),
    decreases tiles.len(),
{
    if tiles.len() > 0 {
        lemma_kind_count_le(tiles.drop_last(), tag);
        lemma_entries_of_kind_le(tiles.last().values, tag);
    }
}

pub proof fn lemma_total_entries_prefix(tiles: Seq<TileModel>, i: int)
    requires
        0 <= i <= tiles.len(),
    ensures
        total_entries(tiles.take(i)) <= total_entries(tiles),
    decreases tiles.len() - i,
{
    if i < tiles.len() {
        lemma_total_entries_prefix(tiles, i + 1);
        assert(tiles.take(i + 1).drop_last() =~= tiles.take(i));
    } else {
        assert(tiles.take(i) =~= tiles);
    }
}

/// The sum of the counts.
pub open spec fn count_sum(c: Seq<(Seq<char>, nat)>) -> nat
    decreases c.len(),
{
    if c.len() == 0 {
        0
    } else {
        count_sum(c.drop_last()) + c.last().1
    }
}

/// The number of entries of the variants below `n`.
pub open spec fn entries_below(values: Seq<(Seq<char>, ValueModel)>, n: int) -> nat
    decreases n,
{
    if n <= 0 {
        0
    } else {
        entries_below(values, n - 1) + entries_of_kind(values, n - 1)
    }
}

/// The number of field values of the variants below `n`, over all tiles.
pub open spec fn kinds_below(tiles: Seq<TileModel>, n: int) -> nat
    decreases n,
{
    if n <= 0 {
        0
    } else {
        kinds_below(tiles, n - 1) + kind_count(tiles, n - 1)
    }
}

proof fn lemma_entries_below_step(values: Seq<(Seq<char>, ValueModel)>, n: int)
    requires
        values.len() > 0,
    ensures
        entries_below(values, n) == entries_below(values.drop_last(), n) + if 0 <= kind_tag(values.last().1) < n {
            1nat
        } else {
            0nat
        },
    decreases n,
{
    if n > 0 {
        lemma_entries_below_step(values, n - 1);
    }
}

proof fn lemma_entries_below_all(values: Seq<(Seq<char>, ValueModel)>)
    ensures
        entries_below(values, 6) == values.len(),
    decreases values.len(),
{
    if values.len() > 0 {
        lemma_entries_below_all(values.drop_last());
        lemma_entries_below_step(values, 6);
    } else {
        lemma_entries_below_zero(values, 6);
    }
}

proof fn lemma_entries_below_zero(values: Seq<(Seq<char>, ValueModel)>, n: int)
    requires
        values.len() == 0,
    ensures
        entries_below(values, n) == 0,
    decreases n,
{
    if n > 0 {
        lemma_entries_below_zero(values, n - 1);
    }
}

proof fn lemma_kinds_below_step(tiles: Seq<TileModel>, n: int)
    requires
        tiles.len() > 0,
    ensures
        kinds_below(tiles, n) == kinds_below(tiles.drop_last(), n) + entries_below(tiles.last().values, n),
    decreases n,
{
    if n > 0 {
        lemma_kinds_below_step(tiles, n - 1);
    }
}

proof fn lemma_kinds_below_zero(tiles: Seq<TileModel>, n: int)
    requires
        tiles.len() == 0,
    ensures
        kinds_below(tiles, n) == 0,
    decreases n,
{
    if n > 0 {
        lemma_kinds_below_zero(tiles, n - 1);
    }
}

proof fn lemma_kinds_below_all(tiles: Seq<TileModel>)
    ensures
        kinds_below(tiles, 6) == total_entries(tiles),
    decreases tiles.len(),
{
    if tiles.len() > 0 {
        lemma_kinds_below_all(tiles.drop_last());
        lemma_kinds_below_step(tiles, 6);
        lemma_entries_below_all(tiles.last().values);
    } else {
        lemma_kinds_below_zero(tiles, 6);
    }
}

proof fn lemma_kind_counts_sum(tiles: Seq<TileModel>, n: int)
    ensures
        count_sum(kind_counts_upto(tiles, n)) == kinds_below(tiles, n),
    decreases n,
{
    if n > 0 {
        lemma_kind_counts_sum(tiles, n - 1);
        let rest = kind_counts_upto(tiles, n - 1);
        if kind_count(tiles, n - 1) > 0 {
            assert(rest.push((kind_name(n - 1), kind_count(tiles, n - 1))).drop_last() =~= rest);
        }
    }
}

/// Every field value of every tile is counted once, under its variant: the
/// type counts of the statistics add up to the number of field values.
pub proof fn lemma_type_counts_total(tiles: Seq<TileModel>)
    ensures
        count_sum(kind_counts(tiles)) == total_entries(tiles),
{
    lemma_kind_counts_sum(tiles, 6);
    lemma_kinds_below_all(tiles);
}

/// A field is missing or null in at most every tile.
pub proof fn lemma_null_count_bound(tiles: Seq<TileModel>, f: Seq<char>)
    ensures
        null_count(tiles, f) <= tiles.len(),
    decreases tiles.len(),
{
    if tiles.len() > 0 {
        lemma_null_count_bound(tiles.drop_last(), f);
    }
}

/// Adding a tile adds one to a field's null count exactly when the tile
/// lacks the field or holds null in it: a tile without the field counts, a
/// tile holding null counts, a tile holding anything else does not.
pub proof fn lemma_null_count_push(tiles: Seq<TileModel>, t: TileModel, f: Seq<char>)
    ensures
        field_of(t, f) is None ==> null_count(tiles.push(t), f) == null_count(tiles, f) + 1,
        field_of(t, f) == Some(ValueModel::Null) ==> null_count(tiles.push(t), f) == null_count(tiles, f) + 1,
        (field_of(t, f) matches Some(v) && v != ValueModel::Null) ==> null_count(tiles.push(t), f) == null_count(
            tiles,
            f,
        ),
{
    assert(tiles.push(t).drop_last() =~= tiles);
}

/// A field's null count is the number of tiles that lack it or hold null
/// in it.
pub proof fn lemma_null_count_is_count(tiles: Seq<TileModel>, f: Seq<char>)
    ensures
        null_count(tiles, f) == Seq::new(tiles.len(), |i: int| i).filter(
            |i: int| field_of(tiles[i], f) is None || field_of(tiles[i], f) == Some(ValueModel::Null),
        ).len(),
    decreases tiles.len(),
{
    let pred = |i: int| field_of(tiles[i], f) is None || field_of(tiles[i], f) == Some(ValueModel::Null);
    if tiles.len() > 0 {
        let init = tiles.drop_last();
        lemma_null_count_is_count(init, f);
        let n = tiles.len() - 1;
        let pred0 = |i: int| field_of(init[i], f) is None || field_of(init[i], f) == Some(ValueModel::Null);
        let idx = Seq::new(tiles.len(), |i: int| i);
        let idx0 = Seq::new(init.len(), |i: int| i);
        assert(idx0 =~= idx.drop_last());
        assert(idx =~= idx0.push(n));
        idx0.lemma_filter_push(n, pred);
        assert(idx0.filter(pred) =~= idx0.filter(pred0)) by {
            lemma_filter_same(idx0, pred, pred0);
        }
        assert(tiles.last() == tiles[n]);
    } else {
        assert(Seq::new(0, |i: int| i).filter(pred) =~= Seq::<int>::empty()) by {
            reveal(Seq::filter);
        }
    }
}

/// Filtering by two predicates that agree on every element gives the same.
proof fn lemma_filter_same(s: Seq<int>, p: spec_fn(int) -> bool, q: spec_fn(int) -> bool)
    requires
        forall|k: int| 0 <= k < s.len() ==> p(#[trigger] s[k]) == q(s[k]),
    ensures
        s.filter(p) == s.filter(q),
    decreases s.len(),
{
    reveal(Seq::filter);
    if s.len() > 0 {
        lemma_filter_same(s.drop_last(), p, q);
    }
}

/// The string of a variant name.
fn kind_name_string(tag: usize) -> (s: String)
    requires
        tag < 6,
    ensures
        s@ == kind_name(tag as int),
{
    let cs: &[char] = if tag == 0 {
        &['T', 'e', 'x', 't']
    } else if tag == 1 {
        &['N', 'u', 'm', 'b', 'e', 'r']
    } else if tag == 2 {
        &['B', 'o', 'o', 'l']
    } else if tag == 3 {
        &['N', 'u', 'l', 'l']
    } else if tag == 4 {
        &['A', 'r', 'r', 'a', 'y']
    } else {
        &['O', 'b', 'j', 'e', 'c', 't']
    };
    assert(cs@ =~= kind_name(tag as int));
    let mut s = String::new();
    let mut i: usize = 0;
    while i < cs.len()
        invariant
            i <= cs@.len(),
            s@ == cs@.take(i as int),
        decreases cs@.len() - i,
    {
        crate::text::push_char(&mut s, cs[i]);
        i += 1;
        assert(s@ =~= cs@.take(i as int));
    }
    assert(cs@.take(i as int) =~= cs@);
    s
}

/// The variant of a value.
fn value_kind(v: &Value) -> (t: usize)
    ensures
        t as int == kind_tag(v.model()),
{
    match v {
        Value::Text(_) => 0,
        Value::Number(_) => 1,
        Value::Bool(_) => 2,
        Value::Null => 3,
        Value::Array(_) => 4,
        Value::Object(_) => 5,
    }
}

/// The number of tiles in which `field` is missing or null.
fn count_nulls(tiles: &[DataTile], field: &String) -> (n: usize)
    ensures
        n == null_count(tiles_model(tiles@), field@),
{
    let ghost tm = tiles_model(tiles@);
    let mut n: usize = 0;
    let mut i: usize = 0;
    while i < tiles.len()
        invariant
            i <= tiles@.len(),
            tm == tiles_model(tiles@),
            n <= i,
            n == null_count(tm.take(i as int), field@),
        decreases tiles@.len() - i,
    {
        assert(tm.take(i + 1).drop_last() =~= tm.take(i as int));
        let v = tiles[i].values.get(field.as_str());
        assert(crate::value::opt_model(v) == field_of(tm[i as int], field@));
        let missing = match v {
            None => true,
            Some(Value::Null) => true,
            Some(_) => false,
        };
        if missing {
            n += 1;
        }
        i += 1;
    }
    assert(tm.take(i as int) =~= tm);
    n
}

impl DataDecomposer {
    /// Statistics over the tiles: the number of tiles, the number of field
    /// names, for each field name the number of tiles in which it is missing
    /// or null, and the number of field values of each variant.
    pub fn stats(tiles: &[DataTile]) -> (st: DataStats)
        requires
            total_entries(tiles_model(tiles@)) <= usize::MAX,
        ensures
            st.row_count == tiles@.len(),
            exists|fields: Seq<Seq<char>>|
                {
                    &&& is_schema(fields, tiles_model(tiles@))
                    &&& st.field_count == fields.len()
                    &&& st.null_counts.model() == fields.map_values(
                        |f: Seq<char>| (f, null_count(tiles_model(tiles@), f)),
                    )
                },
            st.type_counts.model() == kind_counts(tiles_model(tiles@)),
    {
        let ghost tm = tiles_model(tiles@);
        let fields = Self::schema(tiles);
        let ghost fs = string_views(fields@);
        let mut nulls: Vec<(String, usize)> = Vec::new();
        let mut k: usize = 0;
        while k < fields.len()
            invariant
                k <= fields@.len(),
                tm == tiles_model(tiles@),
                fs == string_views(fields@),
                counts_model(nulls@) == fs.take(k as int).map_values(|f: Seq<char>| (f, null_count(tm, f))),
            decreases fields@.len() - k,
        {
            let c = count_nulls(tiles, &fields[k]);
            let ghost before = nulls@;
            nulls.push((fields[k].clone(), c));
            assert(counts_model(nulls@) =~= fs.take(k + 1).map_values(|f: Seq<char>| (f, null_count(tm, f)))) by {
                assert(counts_model(before).len() == k);
                assert forall|q: int| 0 <= q < k + 1 implies counts_model(nulls@)[q] == fs.take(k + 1).map_values(|f: Seq<char>| (f, null_count(tm, f)))[q] by {
                    if q < k {
                        assert(nulls@[q] == before[q]);
                        assert(counts_model(before)[q] == fs.take(k as int).map_values(|f: Seq<char>| (f, null_count(tm, f)))[q]);
                    }
                }
            }
            k += 1;
        }
        assert(fs.take(k as int) =~= fs);

        let mut counts: Vec<usize> = vec![0, 0, 0, 0, 0, 0];
        let mut i: usize = 0;
        while i < tiles.len()
            invariant
                i <= tiles@.len(),
                tm == tiles_model(tiles@),
                total_entries(tm) <= usize::MAX,
                counts@.len() == 6,
                forall|t: int| 0 <= t < 6 ==> #[trigger] counts@[t] == kind_count(tm.take(i as int), t),
            decreases tiles@.len() - i,
        {
            let m = &tiles[i].values;
            assert(m.model() == tm[i as int].values);
            let n = m.len();
            let mut j: usize = 0;
            proof {
                lemma_total_entries_prefix(tm, i + 1);
                assert(tm.take(i + 1).drop_last() =~= tm.take(i as int));
                assert(m.model().take(0) =~= Seq::<(Seq<char>, ValueModel)>::empty());
            }
            while j < n
                invariant
                    i < tiles@.len(),
                    tm == tiles_model(tiles@),
                    m.model() == tm[i as int].values,
                    n == m.model().len(),
                    j <= n,
                    total_entries(tm.take(i as int)) + n <= usize::MAX,
                    counts@.len() == 6,
                    forall|t: int|
                        0 <= t < 6 ==> #[trigger] counts@[t] == kind_count(tm.take(i as int), t) + entries_of_kind(
                            m.model().take(j as int),
                            t,
                        ),
                decreases n - j,
            {
                let t = value_kind(m.value_at(j));
                proof {
                    assert(m.model().take(j + 1).drop_last() =~= m.model().take(j as int));
                    lemma_kind_count_le(tm.take(i as int), t as int);
                    lemma_entries_of_kind_le(m.model().take(j as int), t as int);
                }
                let c = counts[t];
                counts.set(t, c + 1);
                j += 1;
            }
            assert(m.model().take(n as int) =~= m.model());
            i += 1;
        }
        assert(tm.take(i as int) =~= tm);

        let mut types: Vec<(String, usize)> = Vec::new();
        let mut t: usize = 0;
        while t < 6
            invariant
                t <= 6,
                counts@.len() == 6,
                forall|q: int| 0 <= q < 6 ==> #[trigger] counts@[q] == kind_count(tm, q),
                counts_model(types@) == kind_counts_upto(tm, t as int),
            decreases 6 - t,
        {
            if counts[t] > 0 {
                let name = kind_name_string(t);
                let ghost before = types@;
                types.push((name, counts[t]));
                assert(counts_model(types@) =~= counts_model(before).push((kind_name(t as int), kind_count(tm, t as int))));
            }
            t += 1;
        }
        proof {
            assert(is_schema(fs, tm));
            assert forall|a: int, b: int| 0 <= a < b < nulls@.len() implies (#[trigger] counts_model(nulls@)[a]).0
                != (#[trigger] counts_model(nulls@)[b]).0 by {
                assert(counts_model(nulls@)[a].0 == fs[a]);
                assert(counts_model(nulls@)[b].0 == fs[b]);
                lemma_lex_irreflexive(fs[a]);
            }
            lemma_kind_counts_unique(tm, 6);
        }
        DataStats {
            row_count: tiles.len(),
            field_count: fields.len(),
            null_counts: CountMap::from_entries(nulls),
            type_counts: CountMap::from_entries(types),
        }
    }
}

} // verus!
