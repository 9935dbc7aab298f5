//! Stable sorting of tiles by the value of a field.
use vstd::prelude::*;

use crate::decompose::DataDecomposer;
use crate::query::field_of;
use crate::text::{lemma_lex_asymmetric, lemma_lex_total, lemma_lex_transitive, lex_lt};
use crate::tile::{tiles_model, DataTile, TileModel};
use crate::value::{compare_models, compare_values, f64_is_nan, f64_lt, opt_model, Order, ValueModel};

verus! {

// ---------------------------------------------------------------------------
// Specifications
// ---------------------------------------------------------------------------

/// How two field values compare in the requested direction.
pub open spec fn directed_order(desc: bool, a: Option<ValueModel>, b: Option<ValueModel>) -> Order {
    if desc {
        compare_models(b, a)
    } else {
        compare_models(a, b)
    }
}

/// `p` is a permutation of `0..n`.
pub open spec fn is_permutation(p: Seq<int>, n: int) -> bool {
    &&& p.len() == n
    &&& forall|k: int| 0 <= k < n ==> 0 <= #[trigger] p[k] < n
    &&& forall|a: int, b: int| 0 <= a < b < n ==> #[trigger] p[a] != #[trigger] p[b]
}

/// `out` holds the elements of `inp`, element `k` being `inp[p[k]]`.
pub open spec fn permuted<T>(out: Seq<T>, inp: Seq<T>, p: Seq<int>) -> bool {
    &&& is_permutation(p, inp.len() as int)
    &&& out.len() == inp.len()
    &&& forall|k: int| 0 <= k < out.len() ==> #[trigger] out[k] == inp[p[k]]
}

/// No tile is followed by one whose field value comes before it.
pub open spec fn sorted_by(out: Seq<TileModel>, field: Seq<char>, desc: bool) -> bool {
    forall|a: int, b: int|
        0 <= a < b < out.len() ==> directed_order(desc, field_of(#[trigger] out[a], field), field_of(#[trigger] out[b], field))
            != Order::Greater
}

/// Tiles whose field values compare equal keep their relative order.
pub open spec fn stable_by(out: Seq<TileModel>, p: Seq<int>, field: Seq<char>, desc: bool) -> bool {
    forall|a: int, b: int|
        0 <= a < b < out.len() && directed_order(desc, field_of(#[trigger] out[a], field), field_of(#[trigger] out[b], field))
            == Order::Equal ==> p[a] < p[b]
}

/// `out` is `inp` sorted stably by `field`, where the field values are
/// orderable, and a permutation of it in any case.
pub open spec fn is_sort_of(out: Seq<TileModel>, inp: Seq<TileModel>, field: Seq<char>, desc: bool) -> bool {
    exists|p: Seq<int>|
        {
            &&& permuted(out, inp, p)
            &&& orderable(inp, field) ==> sorted_by(out, field, desc) && stable_by(out, p, field, desc)
        }
}

/// The variant of a value.
pub open spec fn kind_tag(v: ValueModel) -> int {
    match v {
        ValueModel::Text(_) => 0,
        ValueModel::Number(_) => 1,
        ValueModel::Bool(_) => 2,
        ValueModel::Null => 3,
        ValueModel::Array(_) => 4,
        ValueModel::Object(_) => 5,
    }
}

/// A field value that takes part in a consistent order.
pub open spec fn orderable_value(k: Option<ValueModel>) -> bool {
    k matches Some(ValueModel::Number(n)) ==> !f64_is_nan(n)
}

/// Two field values that are present are of the same variant.
pub open spec fn same_kind(a: Option<ValueModel>, b: Option<ValueModel>) -> bool {
    a is Some && b is Some ==> kind_tag(a->0) == kind_tag(b->0)
}

/// The field values of the tiles are totally preordered by the comparison:
/// all present ones are of one variant and no number is NaN. (Values of
/// different variants compare equal, which is not transitive.)
pub open spec fn orderable(tiles: Seq<TileModel>, field: Seq<char>) -> bool {
    &&& forall|i: int| 0 <= i < tiles.len() ==> orderable_value(field_of(#[trigger] tiles[i], field))
    &&& forall|i: int, j: int|
        0 <= i < tiles.len() && 0 <= j < tiles.len() ==> same_kind(
            field_of(#[trigger] tiles[i], field),
            field_of(#[trigger] tiles[j], field),
        )
}

// ---------------------------------------------------------------------------
// Laws of the comparison
// ---------------------------------------------------------------------------

/// Swapping the arguments of the comparison reverses its outcome.
pub proof fn lemma_compare_flip(a: Option<ValueModel>, b: Option<ValueModel>)
    ensures
        compare_models(b, a) == compare_models(a, b).flip(),
{
    match (a, b) {
        (Some(ValueModel::Text(x)), Some(ValueModel::Text(y))) => {
            if lex_lt(x, y) {
                lemma_lex_asymmetric(x, y);
            }
        },
        _ => {},
    }
}

/// Swapping the arguments reverses the outcome in either direction.
pub proof fn lemma_directed_flip(desc: bool, a: Option<ValueModel>, b: Option<ValueModel>)
    ensures
        directed_order(desc, b, a) == directed_order(desc, a, b).flip(),
{
    lemma_compare_flip(a, b);
}

/// "Not after" is transitive on values that are orderable and of one variant.
pub proof fn lemma_compare_transitive(a: Option<ValueModel>, b: Option<ValueModel>, c: Option<ValueModel>)
    requires
        orderable_value(a),
        orderable_value(b),
        orderable_value(c),
        same_kind(a, b),
        same_kind(b, c),
        same_kind(a, c),
        compare_models(a, b) != Order::Greater,
        compare_models(b, c) != Order::Greater,
    ensures
        compare_models(a, c) != Order::Greater,
{
    match (a, b, c) {
        (Some(ValueModel::Text(x)), Some(ValueModel::Text(y)), Some(ValueModel::Text(z))) => {
            lemma_lex_total(x, y);
            lemma_lex_total(y, z);
            lemma_lex_total(x, z);
            if lex_lt(z, x) {
                if lex_lt(x, y) {
                    lemma_lex_transitive(z, x, y);
                    lemma_lex_asymmetric(z, y);
                } else if lex_lt(y, z) {
                    lemma_lex_transitive(y, z, x);
                    lemma_lex_asymmetric(y, x);
                }
            }
        },
        _ => {},
    }
}

/// "Not after" in the requested direction is transitive on orderable values.
pub proof fn lemma_directed_transitive(desc: bool, a: Option<ValueModel>, b: Option<ValueModel>, c: Option<ValueModel>)
    requires
        orderable_value(a),
        orderable_value(b),
        orderable_value(c),
        same_kind(a, b),
        same_kind(b, c),
        same_kind(a, c),
        directed_order(desc, a, b) != Order::Greater,
        directed_order(desc, b, c) != Order::Greater,
    ensures
        directed_order(desc, a, c) != Order::Greater,
{
    if desc {
        lemma_compare_transitive(c, b, a);
    } else {
        lemma_compare_transitive(a, b, c);
    }
}

// ---------------------------------------------------------------------------
// Laws of sorting
// ---------------------------------------------------------------------------

/// A permutation of `0..n` reaches every index.
pub proof fn lemma_permutation_onto(p: Seq<int>, n: int, v: int)
    requires
        is_permutation(p, n),
        0 <= v < n,
    ensures
        exists|j: int| 0 <= j < n && p[j] == v,
    decreases n,
{
    if exists|j: int| 0 <= j < n && p[j] == n - 1 {
        if v != n - 1 {
            let j = choose|j: int| 0 <= j < n && p[j] == n - 1;
            let q = p.remove(j);
            assert forall|k: int| 0 <= k < n - 1 implies 0 <= #[trigger] q[k] < n - 1 by {
                if k < j {
                    assert(q[k] == p[k]);
                } else {
                    assert(q[k] == p[k + 1]);
                }
            }
            assert forall|a: int, b: int| 0 <= a < b < n - 1 implies #[trigger] q[a] != #[trigger] q[b] by {
                let pa = if a < j { a } else { a + 1 };
                let pb = if b < j { b } else { b + 1 };
                assert(q[a] == p[pa] && q[b] == p[pb]);
            }
            lemma_permutation_onto(q, n - 1, v);
            let i = choose|i: int| 0 <= i < n - 1 && q[i] == v;
            if i < j {
                assert(p[i] == v);
            } else {
                assert(p[i + 1] == v);
            }
        }
    } else {
        let q = p.drop_last();
        assert forall|k: int| 0 <= k < n - 1 implies 0 <= #[trigger] q[k] < n - 1 by {
            assert(q[k] == p[k]);
            assert(p[k] != n - 1);
        }
        assert forall|a: int, b: int| 0 <= a < b < n - 1 implies #[trigger] q[a] != #[trigger] q[b] by {
            assert(q[a] == p[a] && q[b] == p[b]);
        }
        let last = p[n - 1];
        assert(last != n - 1);
        lemma_permutation_onto(q, n - 1, last);
        let i = choose|i: int| 0 <= i < n - 1 && q[i] == last;
        assert(p[i] == p[n - 1]);
    }
}

/// A stable sort of tiles that are already sorted leaves them as they are.
pub proof fn lemma_sort_of_sorted(inp: Seq<TileModel>, out: Seq<TileModel>, field: Seq<char>, desc: bool)
    requires
        is_sort_of(out, inp, field, desc),
        orderable(inp, field),
        sorted_by(inp, field, desc),
    ensures
        out == inp,
{
    let p = choose|p: Seq<int>|
        {
            &&& permuted(out, inp, p)
            &&& orderable(inp, field) ==> sorted_by(out, field, desc) && stable_by(out, p, field, desc)
        };
    let n = inp.len() as int;
    assert forall|k: int| 0 <= k < n implies #[trigger] p[k] == k by {
        lemma_permutation_fixed(inp, out, p, field, desc, k);
    }
    assert(out =~= inp);
}

/// Every index below `k` stays in place under the permutation of a stable
/// sort of sorted tiles.
proof fn lemma_permutation_fixed(inp: Seq<TileModel>, out: Seq<TileModel>, p: Seq<int>, field: Seq<char>, desc: bool, k: int)
    requires
        permuted(out, inp, p),
        sorted_by(out, field, desc),
        stable_by(out, p, field, desc),
        sorted_by(inp, field, desc),
        0 <= k < inp.len(),
    ensures
        p[k] == k,
    decreases k,
{
    let n = inp.len() as int;
    assert forall|i: int| 0 <= i < k implies #[trigger] p[i] == i by {
        lemma_permutation_fixed(inp, out, p, field, desc, i);
    }
    if p[k] < k {
        assert(p[p[k]] == p[k]);
    }
    if p[k] > k {
        lemma_permutation_onto(p, n, k);
        let j = choose|j: int| 0 <= j < n && p[j] == k;
        if j < k {
            assert(p[j] == j);
        }
        assert(j > k);
        assert(out[k] == inp[p[k]] && out[j] == inp[k]);
        lemma_directed_flip(desc, field_of(inp[k], field), field_of(inp[p[k]], field));
        assert(directed_order(desc, field_of(out[k], field), field_of(out[j], field)) == Order::Equal);
    }
}

/// The field values of a permutation of orderable tiles are orderable.
pub proof fn lemma_permuted_orderable(inp: Seq<TileModel>, out: Seq<TileModel>, p: Seq<int>, field: Seq<char>)
    requires
        permuted(out, inp, p),
        orderable(inp, field),
    ensures
        orderable(out, field),
{
    assert forall|i: int| 0 <= i < out.len() implies orderable_value(field_of(#[trigger] out[i], field)) by {
        assert(out[i] == inp[p[i]]);
    }
    assert forall|i: int, j: int| 0 <= i < out.len() && 0 <= j < out.len() implies same_kind(
        field_of(#[trigger] out[i], field),
        field_of(#[trigger] out[j], field),
    ) by {
        assert(out[i] == inp[p[i]]);
        assert(out[j] == inp[p[j]]);
    }
}

/// Sorting twice by the same field and direction gives what sorting once gives.
pub proof fn lemma_sort_idempotent(
    inp: Seq<TileModel>,
    once: Seq<TileModel>,
    twice: Seq<TileModel>,
    field: Seq<char>,
    desc: bool,
)
    requires
        is_sort_of(once, inp, field, desc),
        is_sort_of(twice, once, field, desc),
        orderable(inp, field),
    ensures
        twice == once,
{
    let p = choose|p: Seq<int>|
        {
            &&& permuted(once, inp, p)
            &&& orderable(inp, field) ==> sorted_by(once, field, desc) && stable_by(once, p, field, desc)
        };
    lemma_permuted_orderable(inp, once, p, field);
    lemma_sort_of_sorted(once, twice, field, desc);
}

// ---------------------------------------------------------------------------
// Executable code
// ---------------------------------------------------------------------------

/// How the field values of two tiles compare in the requested direction.
fn compare_tiles(a: &DataTile, b: &DataTile, field: &str, desc: bool) -> (r: Order)
    ensures
        r == directed_order(desc, field_of(a.model(), field@), field_of(b.model(), field@)),
{
    let va = a.values.get(field);
    let vb = b.values.get(field);
    assert(opt_model(va) == field_of(a.model(), field@));
    assert(opt_model(vb) == field_of(b.model(), field@));
    if desc {
        compare_values(vb, va)
    } else {
        compare_values(va, vb)
    }
}

/// Inserting index `i` at position `p` of an injective index sequence into
/// `0..i` gives an injective index sequence into `0..i + 1`.
proof fn lemma_insert_perm(old_perm: Seq<int>, p: int, i: int)
    requires
        0 <= p <= i,
        old_perm.len() == i,
        forall|k: int| 0 <= k < i ==> 0 <= #[trigger] old_perm[k] < i,
        forall|a: int, b: int| 0 <= a < b < i ==> #[trigger] old_perm[a] != #[trigger] old_perm[b],
    ensures
        ({
            let perm = old_perm.insert(p, i);
            &&& perm.len() == i + 1
            &&& forall|k: int| 0 <= k < i + 1 ==> 0 <= #[trigger] perm[k] < i + 1
            &&& forall|a: int, b: int| 0 <= a < b < i + 1 ==> #[trigger] perm[a] != #[trigger] perm[b]
            &&& forall|k: int| 0 <= k < i + 1 && k < p ==> #[trigger] perm[k] == old_perm[k]
            &&& forall|k: int| 0 <= k < i + 1 && k > p ==> #[trigger] perm[k] == old_perm[k - 1]
            &&& perm[p] == i
        }),
{
    let perm = old_perm.insert(p, i);
    assert forall|k: int| 0 <= k < i + 1 implies 0 <= #[trigger] perm[k] < i + 1 by {
        if k > p {
            assert(perm[k] == old_perm[k - 1]);
        } else if k < p {
            assert(perm[k] == old_perm[k]);
        }
    }
    assert forall|a: int, b: int| 0 <= a < b < i + 1 implies #[trigger] perm[a] != #[trigger] perm[b] by {
        let pa = if a < p { a } else { a - 1 };
        let pb = if b < p { b } else { b - 1 };
        if a != p && b != p {
            assert(perm[a] == old_perm[pa] && perm[b] == old_perm[pb]);
        } else if a == p {
            assert(perm[b] == old_perm[pb]);
        } else {
            assert(perm[a] == old_perm[pa]);
        }
    }
}

/// The field values of the tiles that a permutation picks are orderable
/// together with the next input tile.
proof fn lemma_picked_orderable(tm: Seq<TileModel>, om: Seq<TileModel>, old_perm: Seq<int>, i: int, f: Seq<char>)
    requires
        0 <= i < tm.len(),
        om.len() == i,
        old_perm.len() == i,
        forall|k: int| 0 <= k < i ==> 0 <= #[trigger] old_perm[k] < i,
        forall|k: int| 0 <= k < i ==> #[trigger] om[k] == tm[old_perm[k]],
        orderable(tm, f),
    ensures
        forall|k: int| 0 <= k < i ==> orderable_value(field_of(#[trigger] om[k], f)),
        forall|a: int, b: int| 0 <= a < i && 0 <= b < i ==> same_kind(field_of(#[trigger] om[a], f), field_of(#[trigger] om[b], f)),
        forall|k: int| 0 <= k < i ==> same_kind(field_of(#[trigger] om[k], f), field_of(tm[i], f)),
        orderable_value(field_of(tm[i], f)),
{
    assert forall|k: int| 0 <= k < i implies orderable_value(field_of(#[trigger] om[k], f)) by {
        assert(om[k] == tm[old_perm[k]]);
    }
    assert forall|a: int, b: int| 0 <= a < i && 0 <= b < i implies same_kind(field_of(#[trigger] om[a], f), field_of(#[trigger] om[b], f)) by {
        assert(om[a] == tm[old_perm[a]]);
        assert(om[b] == tm[old_perm[b]]);
    }
    assert forall|k: int| 0 <= k < i implies same_kind(field_of(#[trigger] om[k], f), field_of(tm[i], f)) by {
        assert(om[k] == tm[old_perm[k]]);
    }
}

/// Inserting the next tile after the last one that does not come after it
/// keeps orderable tiles sorted.
proof fn lemma_insert_sorted(om: Seq<TileModel>, xm: TileModel, p: int, f: Seq<char>, desc: bool)
    requires
        0 <= p <= om.len(),
        forall|k: int| 0 <= k < om.len() ==> orderable_value(field_of(#[trigger] om[k], f)),
        forall|a: int, b: int|
            0 <= a < om.len() && 0 <= b < om.len() ==> same_kind(field_of(#[trigger] om[a], f), field_of(#[trigger] om[b], f)),
        forall|k: int| 0 <= k < om.len() ==> same_kind(field_of(#[trigger] om[k], f), field_of(xm, f)),
        orderable_value(field_of(xm, f)),
        sorted_by(om, f, desc),
        forall|b: int|
            p <= b < om.len() ==> directed_order(desc, field_of(#[trigger] om[b], f), field_of(xm, f)) == Order::Greater,
        p > 0 ==> directed_order(desc, field_of(om[p - 1], f), field_of(xm, f)) != Order::Greater,
    ensures
        sorted_by(om.insert(p, xm), f, desc),
{
    let nm = om.insert(p, xm);
    assert forall|a: int, b: int| 0 <= a < b < nm.len() implies directed_order(
        desc,
        field_of(#[trigger] nm[a], f),
        field_of(#[trigger] nm[b], f),
    ) != Order::Greater by {
        if a == p {
            assert(nm[b] == om[b - 1]);
            lemma_directed_flip(desc, field_of(om[b - 1], f), field_of(xm, f));
        } else if b == p {
            assert(nm[a] == om[a]);
            if a < p - 1 {
                lemma_directed_transitive(desc, field_of(om[a], f), field_of(om[p - 1], f), field_of(xm, f));
            }
        } else {
            let pa = if a < p { a } else { a - 1 };
            let pb = if b < p { b } else { b - 1 };
            assert(nm[a] == om[pa] && nm[b] == om[pb]);
        }
    }
}

/// Inserting the tile of the largest index so far after the last one that
/// does not come after it keeps the order of equal tiles.
proof fn lemma_insert_stable(om: Seq<TileModel>, old_perm: Seq<int>, xm: TileModel, p: int, i: int, f: Seq<char>, desc: bool)
    requires
        0 <= p <= om.len(),
        om.len() == i,
        old_perm.len() == i,
        forall|k: int| 0 <= k < i ==> 0 <= #[trigger] old_perm[k] < i,
        stable_by(om, old_perm, f, desc),
        forall|b: int|
            p <= b < om.len() ==> directed_order(desc, field_of(#[trigger] om[b], f), field_of(xm, f)) == Order::Greater,
    ensures
        stable_by(om.insert(p, xm), old_perm.insert(p, i), f, desc),
{
    let nm = om.insert(p, xm);
    let perm = old_perm.insert(p, i);
    assert forall|a: int, b: int| 0 <= a < b < i + 1 && directed_order(
        desc,
        field_of(#[trigger] nm[a], f),
        field_of(#[trigger] nm[b], f),
    ) == Order::Equal implies perm[a] < perm[b] by {
        if a == p {
            assert(nm[b] == om[b - 1]);
            lemma_directed_flip(desc, field_of(om[b - 1], f), field_of(xm, f));
        } else if b == p {
            assert(perm[a] == old_perm[a]);
        } else {
            let pa = if a < p { a } else { a - 1 };
            let pb = if b < p { b } else { b - 1 };
            assert(nm[a] == om[pa] && nm[b] == om[pb]);
            assert(perm[a] == old_perm[pa] && perm[b] == old_perm[pb]);
        }
    }
}

/// The tiles in a stable order by the value of `field` (see [`directed_order`]).
fn sorted_copies(tiles: &[DataTile], field: &str, desc: bool) -> (out: Vec<DataTile>)
    ensures
        is_sort_of(tiles_model(out@), tiles_model(tiles@), field@, desc),
{
    let ghost tm = tiles_model(tiles@);
    let ghost f = field@;
    let n = tiles.len();
    let mut out: Vec<DataTile> = Vec::new();
    let ghost mut perm: Seq<int> = Seq::empty();
    let mut i: usize = 0;
    while i < n
        invariant
            n == tiles@.len() == tm.len(),
            tm == tiles_model(tiles@),
            f == field@,
            i <= n,
            out@.len() == i,
            perm.len() == i,
            forall|k: int| 0 <= k < i ==> 0 <= #[trigger] perm[k] < i,
            forall|a: int, b: int| 0 <= a < b < i ==> #[trigger] perm[a] != #[trigger] perm[b],
            forall|k: int| 0 <= k < i ==> #[trigger] tiles_model(out@)[k] == tm[perm[k]],
            orderable(tm, f) ==> sorted_by(tiles_model(out@), f, desc) && stable_by(tiles_model(out@), perm, f, desc),
        decreases n - i,
    {
        let x = tiles[i].copy();
        let ghost xm = x.model();
        assert(xm == tm[i as int]);
        let mut p = out.len();
        while p > 0 && compare_tiles(&out[p - 1], &x, field, desc) == Order::Greater
            invariant
                p <= out@.len() == i,
                xm == x.model(),
                forall|b: int|
                    p <= b < i ==> directed_order(desc, field_of(#[trigger] tiles_model(out@)[b], f), field_of(xm, f))
                        == Order::Greater,
                f == field@,
            decreases p,
        {
            p -= 1;
        }
        let ghost om = tiles_model(out@);
        let ghost old_perm = perm;
        proof {
            if p > 0 {
                assert(directed_order(desc, field_of(om[p - 1], f), field_of(xm, f)) != Order::Greater);
            }
        }
        out.insert(p, x);
        proof {
            assert(tiles_model(out@) =~= om.insert(p as int, xm));
            lemma_insert_perm(old_perm, p as int, i as int);
            if orderable(tm, f) {
                lemma_picked_orderable(tm, om, old_perm, i as int, f);
                lemma_insert_sorted(om, xm, p as int, f, desc);
                lemma_insert_stable(om, old_perm, xm, p as int, i as int, f, desc);
            }
            perm = old_perm.insert(p as int, i as int);
            let nm = om.insert(p as int, xm);
            assert forall|k: int| 0 <= k < i + 1 implies #[trigger] nm[k] == tm[perm[k]] by {
                if k < p {
                    assert(nm[k] == om[k]);
                } else if k > p {
                    assert(nm[k] == om[k - 1]);
                }
            }
        }
        i += 1;
    }
    proof {
        assert(permuted(tiles_model(out@), tm, perm));
        assert(is_sort_of(tiles_model(out@), tm, f, desc));
    }
    out
}

impl DataDecomposer {
    /// Sorts the tiles by the value of `field`, in place, and returns the
    /// sorted tiles; `desc` sorts in descending order. The sort is stable.
    /// Missing values come first (last when descending); see [`compare_models`].
    pub fn sort(tiles: &mut [DataTile], field: &str, desc: bool) -> (out: Vec<DataTile>)
        ensures
            tiles_model(final(tiles)@) == tiles_model(out@),
            is_sort_of(tiles_model(out@), tiles_model(old(tiles)@), field@, desc),
    {
        let sorted = sorted_copies(tiles, field, desc);
        let n = tiles.len();
        let mut i: usize = 0;
        while i < n
            invariant
                n == tiles@.len() == sorted@.len(),
                i <= n,
                is_sort_of(tiles_model(sorted@), tiles_model(old(tiles)@), field@, desc),
                forall|k: int| 0 <= k < i ==> #[trigger] tiles@[k].model() == sorted@[k].model(),
            decreases n - i,
        {
            tiles[i] = sorted[i].copy();
            i += 1;
        }
        assert(tiles_model(tiles@) =~= tiles_model(sorted@));
        sorted
    }
}

// ---------------------------------------------------------------------------
// What sorting by a text or number field gives
// ---------------------------------------------------------------------------

/// Sorting by a field that every tile holds as a text puts the texts in
/// lexicographic (`str`) order: ascending, no text is followed by one that
/// comes before it; descending, none is followed by one that comes after it.
/// The order does not depend on the texts' lengths.
pub proof fn lemma_sort_texts_lexicographic(out: Seq<TileModel>, inp: Seq<TileModel>, field: Seq<char>, desc: bool)
    requires
        is_sort_of(out, inp, field, desc),
        forall|i: int| 0 <= i < inp.len() ==> #[trigger] field_of(inp[i], field) matches Some(ValueModel::Text(_)),
    ensures
        out.len() == inp.len(),
        forall|a: int, b: int|
            0 <= a < b < out.len() ==> {
                let x = field_of(#[trigger] out[a], field)->0->Text_0;
                let y = field_of(#[trigger] out[b], field)->0->Text_0;
                &&& field_of(out[a], field) matches Some(ValueModel::Text(_))
                &&& field_of(out[b], field) matches Some(ValueModel::Text(_))
                &&& if desc {
                    !lex_lt(x, y)
                } else {
                    !lex_lt(y, x)
                }
            },
{
    let p = choose|p: Seq<int>|
        {
            &&& permuted(out, inp, p)
            &&& orderable(inp, field) ==> sorted_by(out, field, desc) && stable_by(out, p, field, desc)
        };
    assert(orderable(inp, field)) by {
        assert forall|i: int, j: int| 0 <= i < inp.len() && 0 <= j < inp.len() implies same_kind(
            field_of(#[trigger] inp[i], field),
            field_of(#[trigger] inp[j], field),
        ) by {}
    }
    assert forall|a: int, b: int| 0 <= a < b < out.len() implies {
        let x = field_of(#[trigger] out[a], field)->0->Text_0;
        let y = field_of(#[trigger] out[b], field)->0->Text_0;
        &&& field_of(out[a], field) matches Some(ValueModel::Text(_))
        &&& field_of(out[b], field) matches Some(ValueModel::Text(_))
        &&& if desc {
            !lex_lt(x, y)
        } else {
            !lex_lt(y, x)
        }
    } by {
        assert(out[a] == inp[p[a]]);
        assert(out[b] == inp[p[b]]);
        assert(field_of(inp[p[a]], field) matches Some(ValueModel::Text(_)));
        assert(field_of(inp[p[b]], field) matches Some(ValueModel::Text(_)));
        let x = field_of(out[a], field)->0->Text_0;
        let y = field_of(out[b], field)->0->Text_0;
        assert(directed_order(desc, field_of(out[a], field), field_of(out[b], field)) != Order::Greater);
        if lex_lt(x, y) {
            lemma_lex_asymmetric(x, y);
        }
        if lex_lt(y, x) {
            lemma_lex_asymmetric(y, x);
        }
    }
}

/// Sorting by a field that every tile holds as a number other than NaN puts
/// the numbers in float order: ascending, no number is followed by a smaller
/// one; descending, none is followed by a larger one.
pub proof fn lemma_sort_numbers_ordered(out: Seq<TileModel>, inp: Seq<TileModel>, field: Seq<char>, desc: bool)
    requires
        is_sort_of(out, inp, field, desc),
        forall|i: int|
            0 <= i < inp.len() ==> (#[trigger] field_of(inp[i], field) matches Some(ValueModel::Number(n)) && !f64_is_nan(n)),
    ensures
        out.len() == inp.len(),
        forall|a: int, b: int|
            0 <= a < b < out.len() ==> {
                let x = field_of(#[trigger] out[a], field)->0->Number_0;
                let y = field_of(#[trigger] out[b], field)->0->Number_0;
                &&& field_of(out[a], field) matches Some(ValueModel::Number(_))
                &&& field_of(out[b], field) matches Some(ValueModel::Number(_))
                &&& if desc {
                    !f64_lt(x, y)
                } else {
                    !f64_lt(y, x)
                }
            },
{
    let p = choose|p: Seq<int>|
        {
            &&& permuted(out, inp, p)
            &&& orderable(inp, field) ==> sorted_by(out, field, desc) && stable_by(out, p, field, desc)
        };
    assert(orderable(inp, field)) by {
        assert forall|i: int, j: int| 0 <= i < inp.len() && 0 <= j < inp.len() implies same_kind(
            field_of(#[trigger] inp[i], field),
            field_of(#[trigger] inp[j], field),
        ) by {}
    }
    assert forall|a: int, b: int| 0 <= a < b < out.len() implies {
        let x = field_of(#[trigger] out[a], field)->0->Number_0;
        let y = field_of(#[trigger] out[b], field)->0->Number_0;
        &&& field_of(out[a], field) matches Some(ValueModel::Number(_))
        &&& field_of(out[b], field) matches Some(ValueModel::Number(_))
        &&& if desc {
            !f64_lt(x, y)
        } else {
            !f64_lt(y, x)
        }
    } by {
        assert(out[a] == inp[p[a]]);
        assert(out[b] == inp[p[b]]);
        assert(field_of(inp[p[a]], field) matches Some(ValueModel::Number(_)));
        assert(field_of(inp[p[b]], field) matches Some(ValueModel::Number(_)));
        assert(directed_order(desc, field_of(out[a], field), field_of(out[b], field)) != Order::Greater);
    }
}

/// Sorting puts the tiles that lack the field first when ascending and last
/// when descending: where the field values are orderable, no tile lacking
/// the field follows (ascending) or precedes (descending) one holding it.
pub proof fn lemma_sort_missing_placed(out: Seq<TileModel>, inp: Seq<TileModel>, field: Seq<char>, desc: bool)
    requires
        is_sort_of(out, inp, field, desc),
        orderable(inp, field),
    ensures
        forall|a: int, b: int|
            0 <= a < b < out.len() ==> if desc {
                field_of(#[trigger] out[a], field) is None ==> field_of(#[trigger] out[b], field) is None
            } else {
                field_of(#[trigger] out[b], field) is None ==> field_of(#[trigger] out[a], field) is None
            },
{
    let p = choose|p: Seq<int>|
        {
            &&& permuted(out, inp, p)
            &&& orderable(inp, field) ==> sorted_by(out, field, desc) && stable_by(out, p, field, desc)
        };
    assert forall|a: int, b: int| 0 <= a < b < out.len() implies if desc {
        field_of(#[trigger] out[a], field) is None ==> field_of(#[trigger] out[b], field) is None
    } else {
        field_of(#[trigger] out[b], field) is None ==> field_of(#[trigger] out[a], field) is None
    } by {
        assert(directed_order(desc, field_of(out[a], field), field_of(out[b], field)) != Order::Greater);
    }
}

} // verus!
