//! Queries over sets of tiles: filtering by a field and collecting the
//! numbers of a field.
use vstd::prelude::*;

use crate::decompose::DataDecomposer;
use crate::text::{
    chars_equal, chars_of, contains_chars, contains_seq, eq_ignore_ascii_case,
    equal_ignoring_ascii_case, lex_lt, text_less,
};
use crate::tile::{tiles_model, DataTile, TileModel};
use crate::value::{
    f64_less, f64_lt, opt_model, reads_as, word_false, word_null, word_true, Value, ValueModel,
};

verus! {

// ---------------------------------------------------------------------------
// Specifications
// ---------------------------------------------------------------------------

/// The operation name `eq`.
pub open spec fn op_eq() -> Seq<char> {
    seq!['e', 'q']
}

/// The operation name `gt`.
pub open spec fn op_gt() -> Seq<char> {
    seq!['g', 't']
}

/// The operation name `lt`.
pub open spec fn op_lt() -> Seq<char> {
    seq!['l', 't']
}

/// The operation name `contains`.
pub open spec fn op_contains() -> Seq<char> {
    seq!['c', 'o', 'n', 't', 'a', 'i', 'n', 's']
}

/// Equality of a value with the target text: texts are equal; a number is
/// when the target reads as a float and the two are within machine epsilon
/// (`near`); a boolean when the target is `true`/`false` in any ASCII case;
/// null when the target is empty or `null` in any ASCII case.
pub open spec fn matches_eq(v: ValueModel, target: Seq<char>, parsed: Option<u64>, near: bool) -> bool {
    match v {
        ValueModel::Text(s) => s == target,
        ValueModel::Number(_) => parsed is Some && near,
        ValueModel::Bool(b) => eq_ignore_ascii_case(target, if b { word_true() } else { word_false() }),
        ValueModel::Null => target.len() == 0 || eq_ignore_ascii_case(target, word_null()),
        _ => false,
    }
}

/// A number greater than the target as a float, or a text after it.
pub open spec fn matches_gt(v: ValueModel, target: Seq<char>, parsed: Option<u64>) -> bool {
    match v {
        ValueModel::Number(n) => parsed matches Some(t) && f64_lt(t, n),
        ValueModel::Text(s) => lex_lt(target, s),
        _ => false,
    }
}

/// A number less than the target as a float, or a text before it.
pub open spec fn matches_lt(v: ValueModel, target: Seq<char>, parsed: Option<u64>) -> bool {
    match v {
        ValueModel::Number(n) => parsed matches Some(t) && f64_lt(n, t),
        ValueModel::Text(s) => lex_lt(s, target),
        _ => false,
    }
}

/// Whether a tile whose field holds `cell` is kept for operation `op` and
/// target `target`, where `parsed` is the target read as a float and `near`
/// tells whether a number held is within machine epsilon of it.
pub open spec fn keeps(
    cell: Option<ValueModel>,
    op: Seq<char>,
    target: Seq<char>,
    parsed: Option<u64>,
    near: bool,
) -> bool {
    match cell {
        None => false,
        Some(v) => if op == op_eq() {
            matches_eq(v, target, parsed, near)
        } else if op == op_gt() {
            matches_gt(v, target, parsed)
        } else if op == op_lt() {
            matches_lt(v, target, parsed)
        } else if op == op_contains() {
            v matches ValueModel::Text(s) && contains_seq(s, target)
        } else {
            false
        },
    }
}

/// `near` is what `close_to` says of the number held and the target, where
/// the decision rests on it.
pub open spec fn near_given<E: Fn(u64, u64) -> bool>(
    close_to: E,
    cell: Option<ValueModel>,
    op: Seq<char>,
    parsed: Option<u64>,
    near: bool,
) -> bool {
    match (cell, parsed) {
        (Some(ValueModel::Number(n)), Some(t)) => op == op_eq() ==> close_to.ensures((n, t), near),
        _ => true,
    }
}

/// The elements of `s` whose flag is set, in order.
pub open spec fn select<T>(s: Seq<T>, keep: Seq<bool>) -> Seq<T>
    decreases s.len(),
{
    if s.len() == 0 {
        Seq::<T>::empty()
    } else {
        let rest = select(s.drop_last(), keep);
        if keep[s.len() - 1] {
            rest.push(s.last())
        } else {
            rest
        }
    }
}

/// The value a tile holds under `field`, if any.
pub open spec fn field_of(t: TileModel, field: Seq<char>) -> Option<ValueModel> {
    crate::value::entry_get(t.values, field)
}

/// `out` is what filtering `tiles` gives, with `parsed` the target read as a
/// float and `near[j]` the closeness test for tile `j`.
pub open spec fn filtered<E: Fn(u64, u64) -> bool>(
    close_to: E,
    tiles: Seq<TileModel>,
    field: Seq<char>,
    op: Seq<char>,
    target: Seq<char>,
    parsed: Option<u64>,
    near: Seq<bool>,
    out: Seq<TileModel>,
) -> bool {
    &&& near.len() == tiles.len()
    &&& forall|j: int|
        0 <= j < tiles.len() ==> near_given(close_to, field_of(#[trigger] tiles[j], field), op, parsed, near[j])
    &&& out == select(
        tiles,
        Seq::new(tiles.len(), |j: int| keeps(field_of(tiles[j], field), op, target, parsed, near[j])),
    )
}

pub proof fn lemma_select_push<T>(s: Seq<T>, keep: Seq<bool>, x: T, b: bool)
    requires
        keep.len() == s.len(),
    ensures
        select(s.push(x), keep.push(b)) == if b { select(s, keep).push(x) } else { select(s, keep) },
{
    lemma_select_prefix(s, keep, keep.push(b));
    assert(s.push(x).drop_last() =~= s);
}

/// Filtering keeps a subsequence: no more elements than there were, each
/// one of the input.
pub proof fn lemma_select_subsequence<T>(s: Seq<T>, keep: Seq<bool>)
    ensures
        select(s, keep).len() <= s.len(),
        forall|i: int| 0 <= i < select(s, keep).len() ==> s.contains(#[trigger] select(s, keep)[i]),
    decreases s.len(),
{
    if s.len() > 0 {
        let init = s.drop_last();
        lemma_select_subsequence(init, keep);
        let r = select(init, keep);
        assert forall|i: int| 0 <= i < select(s, keep).len() implies s.contains(#[trigger] select(s, keep)[i]) by {
            if i < r.len() {
                assert(select(s, keep)[i] == r[i]);
                let j = choose|j: int| 0 <= j < init.len() && init[j] == r[i];
                assert(s[j] == r[i]);
            } else {
                assert(select(s, keep)[i] == s.last());
                assert(s[s.len() - 1] == s.last());
            }
        }
    }
}

/// Each element that `select` keeps is an element whose flag is set.
pub proof fn lemma_select_elem<T>(s: Seq<T>, keep: Seq<bool>, i: int)
    requires
        keep.len() >= s.len(),
        0 <= i < select(s, keep).len(),
    ensures
        exists|j: int| 0 <= j < s.len() && keep[j] && select(s, keep)[i] == #[trigger] s[j],
    decreases s.len(),
{
    let init = s.drop_last();
    let r = select(init, keep);
    let n = s.len() - 1;
    if i < r.len() {
        lemma_select_elem(init, keep, i);
        let j = choose|j: int| 0 <= j < init.len() && keep[j] && r[i] == #[trigger] init[j];
        assert(s[j] == init[j]);
    } else {
        assert(keep[n]);
        assert(select(s, keep)[i] == s[n]);
    }
}

/// Each element whose flag is set is kept by `select`.
pub proof fn lemma_select_has<T>(s: Seq<T>, keep: Seq<bool>)
    requires
        keep.len() >= s.len(),
    ensures
        forall|j: int| 0 <= j < s.len() && keep[j] ==> select(s, keep).contains(#[trigger] s[j]),
    decreases s.len(),
{
    if s.len() > 0 {
        let init = s.drop_last();
        lemma_select_has(init, keep);
        let r = select(init, keep);
        let n = s.len() - 1;
        assert(s[n] == s.last());
        assert forall|j: int| 0 <= j < s.len() && keep[j] implies select(s, keep).contains(#[trigger] s[j]) by {
            if j < n {
                assert(s[j] == init[j]);
                assert(r.contains(init[j]));
                let i = choose|i: int| 0 <= i < r.len() && r[i] == init[j];
                assert(select(s, keep)[i] == r[i]);
            } else {
                assert(select(s, keep)[r.len() as int] == s.last());
            }
        }
    }
}

/// `select` reads only the flags of the elements it is given.
pub proof fn lemma_select_prefix<T>(s: Seq<T>, a: Seq<bool>, b: Seq<bool>)
    requires
        s.len() <= a.len(),
        s.len() <= b.len(),
        forall|i: int| 0 <= i < s.len() ==> a[i] == b[i],
    ensures
        select(s, a) == select(s, b),
    decreases s.len(),
{
    if s.len() > 0 {
        lemma_select_prefix(s.drop_last(), a, b);
    }
}

// ---------------------------------------------------------------------------
// Executable code
// ---------------------------------------------------------------------------

/// The operations of [`DataDecomposer::filter`].
#[derive(Clone, Copy, PartialEq, Eq, Structural, Debug)]
pub enum FilterOp {
    Eq,
    Gt,
    Lt,
    Contains,
    Unknown,
}

/// The operation that an operation name stands for.
pub open spec fn op_of(op: Seq<char>) -> FilterOp {
    if op == op_eq() {
        FilterOp::Eq
    } else if op == op_gt() {
        FilterOp::Gt
    } else if op == op_lt() {
        FilterOp::Lt
    } else if op == op_contains() {
        FilterOp::Contains
    } else {
        FilterOp::Unknown
    }
}

fn vec_of(a: &[char]) -> (v: Vec<char>)
    ensures
        v@ == a@,
{
    let mut v: Vec<char> = Vec::new();
    let mut i: usize = 0;
    while i < a.len()
        invariant
            i <= a@.len(),
            v@ == a@.take(i as int),
        decreases a@.len() - i,
    {
        v.push(a[i]);
        i += 1;
    }
    assert(a@.take(i as int) =~= a@);
    v
}

/// The operation that an operation name stands for.
pub fn parse_op(op: &Vec<char>) -> (r: FilterOp)
    ensures
        r == op_of(op@),
{
    let eq = vec_of(&['e', 'q']);
    let gt = vec_of(&['g', 't']);
    let lt = vec_of(&['l', 't']);
    let contains = vec_of(&['c', 'o', 'n', 't', 'a', 'i', 'n', 's']);
    assert(eq@ =~= op_eq());
    assert(gt@ =~= op_gt());
    assert(lt@ =~= op_lt());
    assert(contains@ =~= op_contains());
    if chars_equal(op, &eq) {
        FilterOp::Eq
    } else if chars_equal(op, &gt) {
        FilterOp::Gt
    } else if chars_equal(op, &lt) {
        FilterOp::Lt
    } else if chars_equal(op, &contains) {
        FilterOp::Contains
    } else {
        FilterOp::Unknown
    }
}

/// The decision for one tile (see [`keeps`]) and the closeness test it used.
fn decide<E: Fn(u64, u64) -> bool>(
    cell: Option<&Value>,
    op: FilterOp,
    op_text: Ghost<Seq<char>>,
    target: &Vec<char>,
    parsed: Option<u64>,
    close_to: &E,
) -> (r: (bool, Ghost<bool>))
    requires
        op == op_of(op_text@),
        forall|a: u64, b: u64| close_to.requires((a, b)),
    ensures
        r.0 == keeps(opt_model(cell), op_text@, target@, parsed, r.1@),
        near_given(*close_to, opt_model(cell), op_text@, parsed, r.1@),
{
    let v = match cell {
        None => {
            return (false, Ghost(false));
        },
        Some(v) => v,
    };
    match op {
        FilterOp::Eq => {
            match v {
                Value::Text(s) => {
                    let sv = chars_of(s.as_str());
                    (chars_equal(&sv, target), Ghost(false))
                },
                Value::Number(n) => match parsed {
                    Some(t) => {
                        let near = close_to(*n, t);
                        (near, Ghost(near))
                    },
                    None => (false, Ghost(false)),
                },
                Value::Bool(b) => {
                    let word = if *b {
                        vec_of(&['t', 'r', 'u', 'e'])
                    } else {
                        vec_of(&['f', 'a', 'l', 's', 'e'])
                    };
                    assert(word@ =~= if *b { word_true() } else { word_false() });
                    (equal_ignoring_ascii_case(target, &word), Ghost(false))
                },
                Value::Null => {
                    let word = vec_of(&['n', 'u', 'l', 'l']);
                    assert(word@ =~= word_null());
                    (target.len() == 0 || equal_ignoring_ascii_case(target, &word), Ghost(false))
                },
                _ => (false, Ghost(false)),
            }
        },
        FilterOp::Gt => match v {
            Value::Number(n) => match parsed {
                Some(t) => (f64_less(t, *n), Ghost(false)),
                None => (false, Ghost(false)),
            },
            Value::Text(s) => {
                let sv = chars_of(s.as_str());
                (text_less(target, &sv), Ghost(false))
            },
            _ => (false, Ghost(false)),
        },
        FilterOp::Lt => match v {
            Value::Number(n) => match parsed {
                Some(t) => (f64_less(*n, t), Ghost(false)),
                None => (false, Ghost(false)),
            },
            Value::Text(s) => {
                let sv = chars_of(s.as_str());
                (text_less(&sv, target), Ghost(false))
            },
            _ => (false, Ghost(false)),
        },
        FilterOp::Contains => match v {
            Value::Text(s) => {
                let sv = chars_of(s.as_str());
                (contains_chars(&sv, target), Ghost(false))
            },
            _ => (false, Ghost(false)),
        },
        FilterOp::Unknown => (false, Ghost(false)),
    }
}

impl DataDecomposer {
    /// The tiles whose field `field` compares with `value` by operation `op`
    /// (`eq`, `gt`, `lt` or `contains`; any other operation keeps nothing),
    /// in their order (see [`keeps`]).
    ///
    /// `number_bits` reads the target as a float (its bit pattern, or `None`);
    /// `close_to(n, t)` tells whether the floats with bit patterns `n` and `t`
    /// are within machine epsilon of each other.
    pub fn filter<F: Fn(&str) -> Option<u64>, E: Fn(u64, u64) -> bool>(
        tiles: &[DataTile],
        field: &str,
        op: &str,
        value: &str,
        number_bits: &F,
        close_to: &E,
    ) -> (out: Vec<DataTile>)
        requires
            forall|s: &str| number_bits.requires((s,)),
            forall|a: u64, b: u64| close_to.requires((a, b)),
        ensures
            exists|parsed: Option<u64>, near: Seq<bool>|
                {
                    &&& reads_as(*number_bits, value@, parsed)
                    &&& filtered(
                        *close_to,
                        tiles_model(tiles@),
                        field@,
                        op@,
                        value@,
                        parsed,
                        near,
                        tiles_model(out@),
                    )
                },
    {
        let opv = chars_of(op);
        let fop = parse_op(&opv);
        let target = chars_of(value);
        let parsed = number_bits(value);
        let ghost tm = tiles_model(tiles@);
        let ghost mut near: Seq<bool> = Seq::empty();
        let mut out: Vec<DataTile> = Vec::new();
        let mut j: usize = 0;
        assert(tm.take(0) =~= Seq::<TileModel>::empty());
        while j < tiles.len()
            invariant
                j <= tiles@.len(),
                tm == tiles_model(tiles@),
                fop == op_of(op@),
                target@ == value@,
                forall|a: u64, b: u64| close_to.requires((a, b)),
                near.len() == j,
                forall|q: int|
                    0 <= q < j ==> near_given(*close_to, field_of(#[trigger] tm[q], field@), op@, parsed, near[q]),
                tiles_model(out@) == select(
                    tm.take(j as int),
                    Seq::new(j as nat, |q: int| keeps(field_of(tm[q], field@), op@, value@, parsed, near[q])),
                ),
            decreases tiles@.len() - j,
        {
            let cell = tiles[j].values.get(field);
            assert(opt_model(cell) == field_of(tm[j as int], field@));
            let (keep, nj) = decide(cell, fop, Ghost(op@), &target, parsed, close_to);
            let ghost old_near = near;
            let ghost before = out@;
            proof {
                near = near.push(nj@);
                let flags = Seq::new(j as nat, |q: int| keeps(field_of(tm[q], field@), op@, value@, parsed, old_near[q]));
                let flags2 = Seq::new((j + 1) as nat, |q: int| keeps(field_of(tm[q], field@), op@, value@, parsed, near[q]));
                assert(flags2 =~= flags.push(keep));
                lemma_select_push(tm.take(j as int), flags, tm[j as int], keep);
                assert(tm.take(j + 1) =~= tm.take(j as int).push(tm[j as int]));
                assert forall|q: int| 0 <= q < j + 1 implies near_given(*close_to, field_of(#[trigger] tm[q], field@), op@, parsed, near[q]) by {
                    if q < j {
                        assert(near[q] == old_near[q]);
                    }
                }
            }
            if keep {
                out.push(tiles[j].copy());
                assert(tiles_model(out@) =~= tiles_model(before).push(tm[j as int]));
            }
            j += 1;
        }
        assert(tm.take(j as int) =~= tm);
        assert(reads_as(*number_bits, value@, parsed));
        assert(filtered(*close_to, tm, field@, op@, value@, parsed, near, tiles_model(out@)));
        out
    }
}


// ---------------------------------------------------------------------------
// Aggregation inputs
// ---------------------------------------------------------------------------

/// The aggregations of a numeric field.
#[derive(Clone, Copy, PartialEq, Eq, Structural, Debug)]
pub enum Aggregation {
    Sum,
    Mean,
    Min,
    Max,
    Count,
    Unknown,
}

/// The aggregation that an operation name stands for.
pub open spec fn aggregation_of(op: Seq<char>) -> Aggregation {
    if op == seq!['s', 'u', 'm'] {
        Aggregation::Sum
    } else if op == seq!['m', 'e', 'a', 'n'] {
        Aggregation::Mean
    } else if op == seq!['m', 'i', 'n'] {
        Aggregation::Min
    } else if op == seq!['m', 'a', 'x'] {
        Aggregation::Max
    } else if op == seq!['c', 'o', 'u', 'n', 't'] {
        Aggregation::Count
    } else {
        Aggregation::Unknown
    }
}

/// The number a field value contributes to an aggregation: a number itself,
/// a text that reads as a float (`parsed`), nothing otherwise.
pub open spec fn operand_of(cell: Option<ValueModel>, parsed: Option<u64>) -> Option<u64> {
    match cell {
        Some(ValueModel::Number(n)) => Some(n),
        Some(ValueModel::Text(_)) => parsed,
        _ => None,
    }
}

/// The numbers the cells contribute, in order.
pub open spec fn collect_operands(cells: Seq<Option<ValueModel>>, parsed: Seq<Option<u64>>) -> Seq<u64>
    decreases cells.len(),
{
    if cells.len() == 0 {
        Seq::<u64>::empty()
    } else {
        let rest = collect_operands(cells.drop_last(), parsed);
        match operand_of(cells.last(), parsed[cells.len() - 1]) {
            Some(n) => rest.push(n),
            None => rest,
        }
    }
}

/// `collect_operands` reads only the parses of the cells it is given.
pub proof fn lemma_collect_prefix(cells: Seq<Option<ValueModel>>, a: Seq<Option<u64>>, b: Seq<Option<u64>>)
    requires
        cells.len() <= a.len(),
        cells.len() <= b.len(),
        forall|i: int| 0 <= i < cells.len() ==> a[i] == b[i],
    ensures
        collect_operands(cells, a) == collect_operands(cells, b),
    decreases cells.len(),
{
    if cells.len() > 0 {
        lemma_collect_prefix(cells.drop_last(), a, b);
    }
}

/// The field values of the tiles.
pub open spec fn field_cells(tiles: Seq<TileModel>, field: Seq<char>) -> Seq<Option<ValueModel>> {
    Seq::new(tiles.len(), |j: int| field_of(tiles[j], field))
}

/// `parsed[j]` is what reading tile `j`'s text (where it holds one) as a float gave.
pub open spec fn texts_read<F: Fn(&str) -> Option<u64>>(number_bits: F, cells: Seq<Option<ValueModel>>, parsed: Seq<Option<u64>>) -> bool {
    &&& parsed.len() == cells.len()
    &&& forall|j: int|
        0 <= j < cells.len() ==> (#[trigger] cells[j] matches Some(ValueModel::Text(s)) ==> reads_as(number_bits, s, parsed[j]))
}

fn is_op(op: &Vec<char>, name: &[char]) -> (b: bool)
    ensures
        b == (op@ == name@),
{
    let v = vec_of(name);
    chars_equal(op, &v)
}

impl DataDecomposer {
    /// The aggregation that an operation name (`sum`, `mean`, `min`, `max`,
    /// `count`) stands for.
    pub fn aggregation(op: &str) -> (a: Aggregation)
        ensures
            a == aggregation_of(op@),
    {
        let v = chars_of(op);
        let sum = ['s', 'u', 'm'];
        let mean = ['m', 'e', 'a', 'n'];
        let min = ['m', 'i', 'n'];
        let max = ['m', 'a', 'x'];
        let count = ['c', 'o', 'u', 'n', 't'];
        assert(sum@ =~= seq!['s', 'u', 'm']);
        assert(mean@ =~= seq!['m', 'e', 'a', 'n']);
        assert(min@ =~= seq!['m', 'i', 'n']);
        assert(max@ =~= seq!['m', 'a', 'x']);
        assert(count@ =~= seq!['c', 'o', 'u', 'n', 't']);
        if is_op(&v, &sum) {
            Aggregation::Sum
        } else if is_op(&v, &mean) {
            Aggregation::Mean
        } else if is_op(&v, &min) {
            Aggregation::Min
        } else if is_op(&v, &max) {
            Aggregation::Max
        } else if is_op(&v, &count) {
            Aggregation::Count
        } else {
            Aggregation::Unknown
        }
    }

    /// The numbers that the tiles' `field` contributes to an aggregation, in
    /// tile order: each number held there, and each text held there that
    /// `number_bits` reads as a float (see [`operand_of`]).
    pub fn aggregate_operands<F: Fn(&str) -> Option<u64>>(tiles: &[DataTile], field: &str, number_bits: &F) -> (nums: Vec<u64>)
        requires
            forall|s: &str| number_bits.requires((s,)),
        ensures
            exists|parsed: Seq<Option<u64>>|
                {
                    &&& texts_read(*number_bits, field_cells(tiles_model(tiles@), field@), parsed)
                    &&& nums@ == collect_operands(field_cells(tiles_model(tiles@), field@), parsed)
                },
    {
        let ghost tm = tiles_model(tiles@);
        let ghost cells = field_cells(tm, field@);
        let ghost mut parsed: Seq<Option<u64>> = Seq::empty();
        let mut nums: Vec<u64> = Vec::new();
        let mut j: usize = 0;
        assert(cells.take(0) =~= Seq::<Option<ValueModel>>::empty());
        while j < tiles.len()
            invariant
                j <= tiles@.len(),
                tm == tiles_model(tiles@),
                cells == field_cells(tm, field@),
                forall|s: &str| number_bits.requires((s,)),
                parsed.len() == j,
                forall|q: int|
                    0 <= q < j ==> (#[trigger] cells[q] matches Some(ValueModel::Text(s)) ==> reads_as(*number_bits, s, parsed[q])),
                nums@ == collect_operands(cells.take(j as int), parsed),
            decreases tiles@.len() - j,
        {
            let cell = tiles[j].values.get(field);
            assert(opt_model(cell) == cells[j as int]);
            let p: Option<u64> = match cell {
                Some(Value::Text(s)) => {
                    let r = number_bits(s.as_str());
                    assert(reads_as(*number_bits, s@, r));
                    r
                },
                _ => None,
            };
            let ghost old_parsed = parsed;
            proof {
                parsed = parsed.push(p);
                assert(cells.take(j + 1).drop_last() =~= cells.take(j as int));
                lemma_collect_prefix(cells.take(j as int), old_parsed, parsed);
                assert forall|q: int|
                    0 <= q < j + 1 implies (#[trigger] cells[q] matches Some(ValueModel::Text(s)) ==> reads_as(*number_bits, s, parsed[q])) by {
                    if q < j {
                        assert(parsed[q] == old_parsed[q]);
                    }
                }
            }
            match cell {
                Some(Value::Number(n)) => {
                    nums.push(*n);
                },
                Some(Value::Text(_)) => {
                    match p {
                        Some(b) => {
                            nums.push(b);
                        },
                        None => {},
                    }
                },
                _ => {},
            }
            j += 1;
        }
        assert(cells.take(j as int) =~= cells);
        nums
    }
}

// ---------------------------------------------------------------------------
// What filtering by comparison keeps
// ---------------------------------------------------------------------------

/// Filtering with `gt` is strict on numbers: every tile kept that holds a
/// number holds one greater, as a float, than the target read as a float (so
/// a number equal to the target is never kept), and every tile holding a
/// number greater than the target is kept.
pub proof fn lemma_filter_gt_strict<E: Fn(u64, u64) -> bool>(
    close_to: E,
    tiles: Seq<TileModel>,
    field: Seq<char>,
    target: Seq<char>,
    parsed: Option<u64>,
    near: Seq<bool>,
    out: Seq<TileModel>,
)
    requires
        filtered(close_to, tiles, field, op_gt(), target, parsed, near, out),
    ensures
        forall|k: int|
            0 <= k < out.len() ==> ((#[trigger] field_of(out[k], field)) matches Some(ValueModel::Number(n)) ==> (
            parsed matches Some(t) && f64_lt(t, n))),
        forall|j: int|
            0 <= j < tiles.len() ==> ((#[trigger] field_of(tiles[j], field)) matches Some(ValueModel::Number(n)) && (
            parsed matches Some(t) && f64_lt(t, n)) ==> out.contains(tiles[j])),
{
    let keep = Seq::new(tiles.len(), |j: int| keeps(field_of(tiles[j], field), op_gt(), target, parsed, near[j]));
    assert(op_gt() != op_eq()) by {
        assert(op_gt()[0] != op_eq()[0]);
    }
    lemma_select_has(tiles, keep);
    assert forall|k: int| 0 <= k < out.len() implies ((#[trigger] field_of(out[k], field)) matches Some(
        ValueModel::Number(n),
    ) ==> (parsed matches Some(t) && f64_lt(t, n))) by {
        lemma_select_elem(tiles, keep, k);
        let j = choose|j: int| 0 <= j < tiles.len() && keep[j] && out[k] == #[trigger] tiles[j];
    }
    assert forall|j: int| 0 <= j < tiles.len() implies ((#[trigger] field_of(tiles[j], field)) matches Some(
        ValueModel::Number(n),
    ) && (parsed matches Some(t) && f64_lt(t, n)) ==> out.contains(tiles[j])) by {
        if field_of(tiles[j], field) matches Some(ValueModel::Number(n)) {
            assert(keep[j] == keeps(field_of(tiles[j], field), op_gt(), target, parsed, near[j]));
        }
    }
}

/// Filtering with `lt` is strict on numbers: every tile kept that holds a
/// number holds one less, as a float, than the target read as a float (so a
/// number equal to the target is never kept), and every tile holding a
/// number less than the target is kept.
pub proof fn lemma_filter_lt_strict<E: Fn(u64, u64) -> bool>(
    close_to: E,
    tiles: Seq<TileModel>,
    field: Seq<char>,
    target: Seq<char>,
    parsed: Option<u64>,
    near: Seq<bool>,
    out: Seq<TileModel>,
)
    requires
        filtered(close_to, tiles, field, op_lt(), target, parsed, near, out),
    ensures
        forall|k: int|
            0 <= k < out.len() ==> ((#[trigger] field_of(out[k], field)) matches Some(ValueModel::Number(n)) ==> (
            parsed matches Some(t) && f64_lt(n, t))),
        forall|j: int|
            0 <= j < tiles.len() ==> ((#[trigger] field_of(tiles[j], field)) matches Some(ValueModel::Number(n)) && (
            parsed matches Some(t) && f64_lt(n, t)) ==> out.contains(tiles[j])),
{
    let keep = Seq::new(tiles.len(), |j: int| keeps(field_of(tiles[j], field), op_lt(), target, parsed, near[j]));
    assert(op_lt() != op_eq()) by {
        assert(op_lt()[0] != op_eq()[0]);
    }
    assert(op_lt() != op_gt()) by {
        assert(op_lt()[0] != op_gt()[0]);
    }
    lemma_select_has(tiles, keep);
    assert forall|k: int| 0 <= k < out.len() implies ((#[trigger] field_of(out[k], field)) matches Some(
        ValueModel::Number(n),
    ) ==> (parsed matches Some(t) && f64_lt(n, t))) by {
        lemma_select_elem(tiles, keep, k);
        let j = choose|j: int| 0 <= j < tiles.len() && keep[j] && out[k] == #[trigger] tiles[j];
    }
    assert forall|j: int| 0 <= j < tiles.len() implies ((#[trigger] field_of(tiles[j], field)) matches Some(
        ValueModel::Number(n),
    ) && (parsed matches Some(t) && f64_lt(n, t)) ==> out.contains(tiles[j])) by {
        if field_of(tiles[j], field) matches Some(ValueModel::Number(n)) {
            assert(keep[j] == keeps(field_of(tiles[j], field), op_lt(), target, parsed, near[j]));
        }
    }
}

// ---------------------------------------------------------------------------
// Which cells give aggregation operands
// ---------------------------------------------------------------------------

/// The number of cells that hold a number, or a text whose reading as a
/// float gave one.
pub open spec fn numeric_cells(cells: Seq<Option<ValueModel>>, parsed: Seq<Option<u64>>) -> nat
    decreases cells.len(),
{
    if cells.len() == 0 {
        0
    } else {
        let c = cells.last();
        numeric_cells(cells.drop_last(), parsed) + if (c matches Some(ValueModel::Number(_))) || ((c matches Some(
            ValueModel::Text(_),
        )) && parsed[cells.len() - 1] is Some) {
            1nat
        } else {
            0nat
        }
    }
}

/// A cell that is missing, null, a boolean, an array or an object, or a
/// text that does not read as a float, adds no operand; a number adds
/// itself at the end; a text that reads as a float adds that float at the
/// end. So the operands are as many as the cells holding a number or a
/// float-readable text.
pub proof fn lemma_operands_of_cells(cells: Seq<Option<ValueModel>>, parsed: Seq<Option<u64>>)
    requires
        parsed.len() >= cells.len(),
    ensures
        collect_operands(cells, parsed).len() == numeric_cells(cells, parsed),
        cells.len() > 0 ==> {
            let c = cells.last();
            let rest = collect_operands(cells.drop_last(), parsed);
            &&& (c matches Some(ValueModel::Number(n)) ==> collect_operands(cells, parsed) == rest.push(n))
            &&& (c matches Some(ValueModel::Text(_)) ==> collect_operands(cells, parsed) == match parsed[cells.len() - 1] {
                Some(b) => rest.push(b),
                None => rest,
            })
            &&& ((c is None || (c matches Some(ValueModel::Null)) || (c matches Some(ValueModel::Bool(_))) || (
            c matches Some(ValueModel::Array(_))) || (c matches Some(ValueModel::Object(_))))
                ==> collect_operands(cells, parsed) == rest)
        },
    decreases cells.len(),
{
    if cells.len() > 0 {
        lemma_operands_of_cells(cells.drop_last(), parsed);
    }
}

/// Filtering with `contains` keeps exactly the tiles whose field holds a
/// text containing the target: every tile kept holds such a text, and every
/// tile holding one is kept.
pub proof fn lemma_filter_contains<E: Fn(u64, u64) -> bool>(
    close_to: E,
    tiles: Seq<TileModel>,
    field: Seq<char>,
    target: Seq<char>,
    parsed: Option<u64>,
    near: Seq<bool>,
    out: Seq<TileModel>,
)
    requires
        filtered(close_to, tiles, field, op_contains(), target, parsed, near, out),
    ensures
        forall|k: int|
            0 <= k < out.len() ==> ((#[trigger] field_of(out[k], field)) matches Some(ValueModel::Text(s)) && contains_seq(
                s,
                target,
            )),
        forall|j: int|
            0 <= j < tiles.len() ==> ((#[trigger] field_of(tiles[j], field)) matches Some(ValueModel::Text(s))
                && contains_seq(s, target) ==> out.contains(tiles[j])),
{
    let keep = Seq::new(
        tiles.len(),
        |j: int| keeps(field_of(tiles[j], field), op_contains(), target, parsed, near[j]),
    );
    assert(op_contains() != op_eq() && op_contains() != op_gt() && op_contains() != op_lt()) by {
        assert(op_contains().len() != op_eq().len());
    }
    lemma_select_has(tiles, keep);
    assert forall|k: int| 0 <= k < out.len() implies ((#[trigger] field_of(out[k], field)) matches Some(
        ValueModel::Text(s),
    ) && contains_seq(s, target)) by {
        lemma_select_elem(tiles, keep, k);
        let j = choose|j: int| 0 <= j < tiles.len() && keep[j] && out[k] == #[trigger] tiles[j];
    }
    assert forall|j: int| 0 <= j < tiles.len() implies ((#[trigger] field_of(tiles[j], field)) matches Some(
        ValueModel::Text(s),
    ) && contains_seq(s, target) ==> out.contains(tiles[j])) by {
        assert(keep[j] == keeps(field_of(tiles[j], field), op_contains(), target, parsed, near[j]));
    }
}

/// Filtering with `eq` keeps a tile holding a text exactly when the text is
/// the target, and never keeps a tile lacking the field, or holding an array
/// or an object.
pub proof fn lemma_filter_eq_texts<E: Fn(u64, u64) -> bool>(
    close_to: E,
    tiles: Seq<TileModel>,
    field: Seq<char>,
    target: Seq<char>,
    parsed: Option<u64>,
    near: Seq<bool>,
    out: Seq<TileModel>,
)
    requires
        filtered(close_to, tiles, field, op_eq(), target, parsed, near, out),
    ensures
        forall|k: int|
            0 <= k < out.len() ==> {
                &&& (#[trigger] field_of(out[k], field)) is Some
                &&& !(field_of(out[k], field) matches Some(ValueModel::Array(_)))
                &&& !(field_of(out[k], field) matches Some(ValueModel::Object(_)))
                &&& (field_of(out[k], field) matches Some(ValueModel::Text(s)) ==> s == target)
            },
        forall|j: int|
            0 <= j < tiles.len() ==> (#[trigger] field_of(tiles[j], field) == Some(ValueModel::Text(target))
                ==> out.contains(tiles[j])),
{
    let keep = Seq::new(tiles.len(), |j: int| keeps(field_of(tiles[j], field), op_eq(), target, parsed, near[j]));
    lemma_select_has(tiles, keep);
    assert forall|k: int| 0 <= k < out.len() implies {
        &&& (#[trigger] field_of(out[k], field)) is Some
        &&& !(field_of(out[k], field) matches Some(ValueModel::Array(_)))
        &&& !(field_of(out[k], field) matches Some(ValueModel::Object(_)))
        &&& (field_of(out[k], field) matches Some(ValueModel::Text(s)) ==> s == target)
    } by {
        lemma_select_elem(tiles, keep, k);
        let j = choose|j: int| 0 <= j < tiles.len() && keep[j] && out[k] == #[trigger] tiles[j];
    }
    assert forall|j: int| 0 <= j < tiles.len() implies (#[trigger] field_of(tiles[j], field) == Some(
        ValueModel::Text(target),
    ) ==> out.contains(tiles[j])) by {
        assert(keep[j] == keeps(field_of(tiles[j], field), op_eq(), target, parsed, near[j]));
    }
}

} // verus!
