//! Cell values, their mathematical model, field maps, the order of values and
//! the classification of a raw cell text.
use vstd::prelude::*;

use crate::text::{
    chars_of, eq_ignore_ascii_case, equal_ignoring_ascii_case, lex_lt, string_of,
    text_less, trim, trim_range,
};

verus! {

broadcast use vstd::std_specs::vec::group_vec_axioms;

/// A cell value.
///
/// A number is held as the bit pattern of an IEEE-754 binary64 value
/// (`f64::to_bits`), so that it is kept exactly and ordered as the float is.
#[derive(Debug)]
pub enum Value {
    Text(String),
    Number(u64),
    Bool(bool),
    Null,
    Array(Vec<Value>),
    Object(FieldMap),
}

/// A map from field names to values; no name occurs twice.
#[derive(Debug)]
pub struct FieldMap {
    entries: Vec<(String, Value)>,
}

/// The mathematical model of a [`Value`].
pub ghost enum ValueModel {
    Text(Seq<char>),
    Number(u64),
    Bool(bool),
    Null,
    Array(Seq<ValueModel>),
    Object(Seq<(Seq<char>, ValueModel)>),
}

impl Value {
    /// The model of this value.
    pub open spec fn model(self) -> ValueModel
        decreases self,
    {
        match self {
            Value::Text(s) => ValueModel::Text(s@),
            Value::Number(b) => ValueModel::Number(b),
            Value::Bool(b) => ValueModel::Bool(b),
            Value::Null => ValueModel::Null,
            Value::Array(items) => ValueModel::Array(values_model(items@)),
            Value::Object(m) => ValueModel::Object(m.model()),
        }
    }
}

/// The models of a sequence of values.
pub open spec fn values_model(s: Seq<Value>) -> Seq<ValueModel>
    decreases s,
{
    if s.len() == 0 {
        Seq::<ValueModel>::empty()
    } else {
        values_model(s.drop_last()).push(s.last().model())
    }
}

/// The models of a sequence of entries.
pub open spec fn entries_model(s: Seq<(String, Value)>) -> Seq<(Seq<char>, ValueModel)>
    decreases s,
{
    if s.len() == 0 {
        Seq::<(Seq<char>, ValueModel)>::empty()
    } else {
        entries_model(s.drop_last()).push((s.last().0@, s.last().1.model()))
    }
}

/// The keys of a sequence of entries.
pub open spec fn entry_keys(m: Seq<(Seq<char>, ValueModel)>) -> Seq<Seq<char>> {
    m.map_values(|e: (Seq<char>, ValueModel)| e.0)
}

/// No key occurs twice.
pub open spec fn keys_unique(m: Seq<(Seq<char>, ValueModel)>) -> bool {
    forall|i: int, j: int| 0 <= i < j < m.len() ==> (#[trigger] m[i]).0 != (#[trigger] m[j]).0
}

/// The value stored under `k`, if any.
pub open spec fn entry_get(m: Seq<(Seq<char>, ValueModel)>, k: Seq<char>) -> Option<ValueModel>
    decreases m.len(),
{
    if m.len() == 0 {
        None
    } else if m[0].0 == k {
        Some(m[0].1)
    } else {
        entry_get(m.drop_first(), k)
    }
}

/// The entries after storing `v` under `k`: the entry of `k` is replaced
/// where there is one, and a new entry is added at the end otherwise.
pub open spec fn entry_insert(m: Seq<(Seq<char>, ValueModel)>, k: Seq<char>, v: ValueModel) -> Seq<
    (Seq<char>, ValueModel),
>
    decreases m.len(),
{
    if m.len() == 0 {
        seq![(k, v)]
    } else if m[0].0 == k {
        m.update(0, (k, v))
    } else {
        seq![m[0]] + entry_insert(m.drop_first(), k, v)
    }
}

/// Reading a key after storing a value under it gives that value, and
/// storing leaves every other key as it was.
pub proof fn lemma_insert_then_get(m: Seq<(Seq<char>, ValueModel)>, k: Seq<char>, v: ValueModel, q: Seq<char>)
    ensures
        entry_get(entry_insert(m, k, v), q) == if q == k {
            Some(v)
        } else {
            entry_get(m, q)
        },
    decreases m.len(),
{
    if m.len() == 0 {
        let r = entry_insert(m, k, v);
        assert(r == seq![(k, v)]);
        assert(r.drop_first() =~= Seq::<(Seq<char>, ValueModel)>::empty());
        assert(entry_get(r.drop_first(), q) is None);
    } else {
        let r = entry_insert(m, k, v);
        if m[0].0 == k {
            assert(r[0] == (k, v));
            assert(r.drop_first() =~= m.drop_first());
        } else {
            lemma_insert_then_get(m.drop_first(), k, v, q);
            assert(r[0] == m[0]);
            assert(r.drop_first() =~= entry_insert(m.drop_first(), k, v));
        }
    }
}

pub proof fn lemma_values_model_len(s: Seq<Value>)
    ensures
        values_model(s).len() == s.len(),
        forall|i: int| 0 <= i < s.len() ==> (#[trigger] values_model(s)[i]) == s[i].model(),
    decreases s.len(),
{
    if s.len() > 0 {
        lemma_values_model_len(s.drop_last());
    }
}

pub proof fn lemma_entries_model_len(s: Seq<(String, Value)>)
    ensures
        entries_model(s).len() == s.len(),
        forall|i: int|
            0 <= i < s.len() ==> (#[trigger] entries_model(s)[i]) == (s[i].0@, s[i].1.model()),
    decreases s.len(),
{
    if s.len() > 0 {
        lemma_entries_model_len(s.drop_last());
    }
}

/// Looking up a key is finding the entry that holds it.
pub proof fn lemma_entry_get_index(m: Seq<(Seq<char>, ValueModel)>, k: Seq<char>)
    requires
        keys_unique(m),
    ensures
        entry_get(m, k) is None <==> (forall|i: int| 0 <= i < m.len() ==> (#[trigger] m[i]).0 != k),
        forall|i: int| 0 <= i < m.len() && (#[trigger] m[i]).0 == k ==> entry_get(m, k) == Some(m[i].1),
    decreases m.len(),
{
    if m.len() > 0 {
        let t = m.drop_first();
        assert forall|i: int, j: int| 0 <= i < j < t.len() implies (#[trigger] t[i]).0 != (#[trigger] t[j]).0 by {
            assert(t[i] == m[i + 1] && t[j] == m[j + 1]);
        }
        lemma_entry_get_index(t, k);
        assert forall|i: int| 0 <= i < m.len() && (#[trigger] m[i]).0 == k implies entry_get(m, k) == Some(m[i].1) by {
            if i > 0 {
                assert(m[i] == t[i - 1]);
            }
        }
        if entry_get(m, k) is None {
            assert forall|i: int| 0 <= i < m.len() implies (#[trigger] m[i]).0 != k by {
                if i > 0 {
                    assert(m[i] == t[i - 1]);
                }
            }
        }
    }
}

/// What inserting does to the entries, index by index.
pub proof fn lemma_entry_insert(m: Seq<(Seq<char>, ValueModel)>, k: Seq<char>, v: ValueModel)
    requires
        keys_unique(m),
    ensures
        keys_unique(entry_insert(m, k, v)),
        (forall|i: int| 0 <= i < m.len() ==> (#[trigger] m[i]).0 != k) ==> entry_insert(m, k, v)
            == m.push((k, v)),
        forall|i: int|
            0 <= i < m.len() && (#[trigger] m[i]).0 == k ==> entry_insert(m, k, v) == m.update(
                i,
                (k, v),
            ),
    decreases m.len(),
{
    if m.len() > 0 {
        let t = m.drop_first();
        assert forall|i: int, j: int| 0 <= i < j < t.len() implies (#[trigger] t[i]).0 != (#[trigger] t[j]).0 by {
            assert(t[i] == m[i + 1] && t[j] == m[j + 1]);
        }
        lemma_entry_insert(t, k, v);
        if m[0].0 == k {
            assert forall|i: int| 0 <= i < m.len() && (#[trigger] m[i]).0 == k implies entry_insert(m, k, v) == m.update(i, (k, v)) by {
                if i > 0 {
                    assert(m[i] == t[i - 1]);
                }
            }
        } else {
            if forall|i: int| 0 <= i < m.len() ==> (#[trigger] m[i]).0 != k {
                assert forall|i: int| 0 <= i < t.len() implies (#[trigger] t[i]).0 != k by {
                    assert(t[i] == m[i + 1]);
                }
                assert(entry_insert(m, k, v) =~= m.push((k, v)));
            }
            assert forall|i: int| 0 <= i < m.len() && (#[trigger] m[i]).0 == k implies entry_insert(m, k, v) == m.update(i, (k, v)) by {
                assert(m[i] == t[i - 1]);
                assert(entry_insert(m, k, v) =~= m.update(i, (k, v)));
            }
        }
        let r = entry_insert(m, k, v);
        assert forall|i: int, j: int| 0 <= i < j < r.len() implies (#[trigger] r[i]).0 != (#[trigger] r[j]).0 by {
            if m[0].0 == k {
                assert(r == m.update(0, (k, v)));
            } else {
                let rt = entry_insert(t, k, v);
                assert(r =~= seq![m[0]] + rt);
                if i == 0 {
                    assert(r[j] == rt[j - 1]);
                    if forall|q: int| 0 <= q < t.len() ==> (#[trigger] t[q]).0 != k {
                        assert(rt == t.push((k, v)));
                        if j - 1 < t.len() {
                            assert(t[j - 1] == m[j]);
                        }
                    } else {
                        let q = choose|q: int| 0 <= q < t.len() && (#[trigger] t[q]).0 == k;
                        assert(rt == t.update(q, (k, v)));
                        if j - 1 != q {
                            assert(t[j - 1] == m[j]);
                        }
                    }
                } else {
                    assert(r[i] == rt[i - 1] && r[j] == rt[j - 1]);
                }
            }
        }
    }
}

impl FieldMap {
    /// The entries of the map, in the order in which their keys were first stored.
    pub closed spec fn model(self) -> Seq<(Seq<char>, ValueModel)>
        decreases self,
    {
        entries_model(self.entries@)
    }

    /// The invariant of every map: no key occurs twice.
    #[verifier::type_invariant]
    pub closed spec fn unique_keys(self) -> bool {
        keys_unique(entries_model(self.entries@))
    }

    /// The value stored under `k`, if any.
    pub open spec fn lookup(self, k: Seq<char>) -> Option<ValueModel> {
        entry_get(self.model(), k)
    }

    /// No key occurs twice in a map.
    pub proof fn lemma_unique(self)
        requires
            self.unique_keys(),
        ensures
            keys_unique(self.model()),
    {
    }

    /// An empty map.
    pub fn new() -> (m: Self)
        ensures
            m.model() == Seq::<(Seq<char>, ValueModel)>::empty(),
    {
        let m = FieldMap { entries: Vec::new() };
        assert(entries_model(m.entries@) =~= Seq::<(Seq<char>, ValueModel)>::empty());
        m
    }

    /// The number of entries.
    pub fn len(&self) -> (n: usize)
        ensures
            n == self.model().len(),
    {
        proof {
            lemma_entries_model_len(self.entries@);
        }
        self.entries.len()
    }

    /// Whether the map is empty.
    pub fn is_empty(&self) -> (b: bool)
        ensures
            b == (self.model().len() == 0),
    {
        self.len() == 0
    }

    /// The key of the entry at position `i`.
    pub fn key_at(&self, i: usize) -> (k: &String)
        requires
            i < self.model().len(),
        ensures
            k@ == self.model()[i as int].0,
    {
        proof {
            lemma_entries_model_len(self.entries@);
        }
        &self.entries[i].0
    }

    /// The value of the entry at position `i`.
    pub fn value_at(&self, i: usize) -> (v: &Value)
        requires
            i < self.model().len(),
        ensures
            v.model() == self.model()[i as int].1,
    {
        proof {
            lemma_entries_model_len(self.entries@);
        }
        &self.entries[i].1
    }

    /// The position of the entry of `key`, if there is one.
    pub fn position(&self, key: &Vec<char>) -> (p: Option<usize>)
        ensures
            p is None <==> (forall|i: int| 0 <= i < self.model().len() ==> (#[trigger] self.model()[i]).0 != key@),
            p matches Some(i) ==> i < self.model().len() && self.model()[i as int].0 == key@,
    {
        proof {
            lemma_entries_model_len(self.entries@);
        }
        let mut i: usize = 0;
        while i < self.entries.len()
            invariant
                i <= self.entries@.len() == self.model().len(),
                self.model() == entries_model(self.entries@),
                forall|q: int| 0 <= q < self.entries@.len() ==> (#[trigger] self.model()[q]).0 == self.entries@[q].0@,
                forall|q: int| 0 <= q < i ==> (#[trigger] self.model()[q]).0 != key@,
            decreases self.entries@.len() - i,
        {
            let k = chars_of(self.entries[i].0.as_str());
            if crate::text::chars_equal(&k, key) {
                assert(self.model()[i as int].0 == key@);
                return Some(i);
            }
            i += 1;
        }
        None
    }

    /// The value stored under `key`, if any (`HashMap::get`).
    pub fn get(&self, key: &str) -> (r: Option<&Value>)
        ensures
            r is None <==> self.lookup(key@) is None,
            r matches Some(v) ==> self.lookup(key@) == Some(v.model()),
    {
        proof {
            use_type_invariant(self);
            lemma_entry_get_index(self.model(), key@);
        }
        let k = chars_of(key);
        match self.position(&k) {
            Some(i) => Some(self.value_at(i)),
            None => None,
        }
    }

    /// Stores `value` under `key`, replacing what was stored there
    /// (`HashMap::insert`).
    pub fn insert(&mut self, key: String, value: Value)
        ensures
            final(self).model() == entry_insert(old(self).model(), key@, value.model()),
    {
        proof {
            use_type_invariant(&*self);
            lemma_entries_model_len(self.entries@);
            lemma_entry_insert(self.model(), key@, value.model());
        }
        let k = chars_of(key.as_str());
        let ghost km = key@;
        let ghost vm = value.model();
        match self.position(&k) {
            Some(i) => {
                let mut entries = Vec::new();
                std::mem::swap(&mut entries, &mut self.entries);
                let ghost before = entries@;
                entries.set(i, (key, value));
                proof {
                    lemma_entries_model_len(before);
                    lemma_entries_model_len(entries@);
                    assert(entries_model(entries@) =~= entries_model(before).update(i as int, (km, vm)));
                }
                self.entries = entries;
            },
            None => {
                let mut entries = Vec::new();
                std::mem::swap(&mut entries, &mut self.entries);
                let ghost before = entries@;
                entries.push((key, value));
                proof {
                    assert(entries@.drop_last() =~= before);
                }
                self.entries = entries;
            },
        }
    }

    /// A copy of the map.
    pub fn copy(&self) -> (c: Self)
        ensures
            c.model() == self.model(),
        decreases self,
    {
        proof {
            use_type_invariant(self);
            lemma_entries_model_len(self.entries@);
        }
        let mut entries: Vec<(String, Value)> = Vec::new();
        let mut i: usize = 0;
        while i < self.entries.len()
            invariant
                i <= self.entries@.len(),
                entries_model(entries@) == entries_model(self.entries@.take(i as int)),
            decreases self.entries@.len() - i,
        {
            let k = self.entries[i].0.clone();
            let v = self.entries[i].1.copy();
            let ghost before = entries@;
            entries.push((k, v));
            proof {
                assert(entries@.drop_last() =~= before);
                assert(self.entries@.take(i + 1).drop_last() =~= self.entries@.take(i as int));
            }
            i += 1;
        }
        assert(self.entries@.take(i as int) =~= self.entries@);
        FieldMap { entries }
    }
}

/// Copies of a sequence of values.
pub fn copy_values(items: &Vec<Value>) -> (out: Vec<Value>)
    ensures
        values_model(out@) == values_model(items@),
    decreases items,
{
    let mut out: Vec<Value> = Vec::new();
    let mut i: usize = 0;
    while i < items.len()
        invariant
            i <= items@.len(),
            values_model(out@) == values_model(items@.take(i as int)),
        decreases items@.len() - i,
    {
        let ghost before = out@;
        proof {
            assert(decreases_to!(items => items@[i as int]));
        }
        out.push(items[i].copy());
        proof {
            assert(out@.drop_last() =~= before);
            assert(items@.take(i + 1).drop_last() =~= items@.take(i as int));
        }
        i += 1;
    }
    assert(items@.take(i as int) =~= items@);
    out
}

impl Value {
    /// A copy of the value.
    pub fn copy(&self) -> (c: Self)
        ensures
            c.model() == self.model(),
        decreases self,
    {
        match self {
            Value::Text(s) => Value::Text(s.clone()),
            Value::Number(b) => Value::Number(*b),
            Value::Bool(b) => Value::Bool(*b),
            Value::Null => Value::Null,
            Value::Array(items) => Value::Array(copy_values(items)),
            Value::Object(m) => Value::Object(m.copy()),
        }
    }
}

} // verus!

verus! {

// ---------------------------------------------------------------------------
// Numbers: the order of IEEE-754 binary64 values, read from their bit patterns
// ---------------------------------------------------------------------------

/// The bit pattern is a NaN: all exponent bits set and a nonzero fraction.
pub open spec fn f64_is_nan(b: u64) -> bool {
    (b >> 52u64) & 0x7ffu64 == 0x7ffu64 && b & 0xf_ffff_ffff_ffffu64 != 0
}

/// The position of a non-NaN value on the number line: the encoding orders
/// magnitudes like integers, and the sign bit negates; both zeros map to 0.
pub open spec fn f64_key(b: u64) -> int {
    let mag = b & 0x7fff_ffff_ffff_ffffu64;
    if b >> 63u64 == 1 {
        -(mag as int)
    } else {
        mag as int
    }
}

/// `<` on the binary64 values with these bit patterns (false when either is NaN).
pub open spec fn f64_lt(a: u64, b: u64) -> bool {
    !f64_is_nan(a) && !f64_is_nan(b) && f64_key(a) < f64_key(b)
}

/// Whether the bit pattern is a NaN.
pub fn is_nan_bits(b: u64) -> (r: bool)
    ensures
        r == f64_is_nan(b),
{
    (b >> 52u64) & 0x7ffu64 == 0x7ffu64 && b & 0xf_ffff_ffff_ffffu64 != 0
}

/// `<` on binary64 values given by their bit patterns.
pub fn f64_less(a: u64, b: u64) -> (r: bool)
    ensures
        r == f64_lt(a, b),
{
    if is_nan_bits(a) || is_nan_bits(b) {
        return false;
    }
    let ma = a & 0x7fff_ffff_ffff_ffffu64;
    let mb = b & 0x7fff_ffff_ffff_ffffu64;
    let na = a >> 63u64 == 1;
    let nb = b >> 63u64 == 1;
    if na && nb {
        ma > mb
    } else if na {
        !(ma == 0 && mb == 0)
    } else if nb {
        false
    } else {
        ma < mb
    }
}

// ---------------------------------------------------------------------------
// The order of values
// ---------------------------------------------------------------------------

/// The outcome of comparing two values.
#[derive(Clone, Copy, PartialEq, Eq, Structural, Debug)]
pub enum Order {
    Less,
    Equal,
    Greater,
}

impl Order {
    /// The opposite outcome (`Ordering::reverse`).
    pub open spec fn flip(self) -> Order {
        match self {
            Order::Less => Order::Greater,
            Order::Equal => Order::Equal,
            Order::Greater => Order::Less,
        }
    }

    /// The opposite outcome.
    pub fn reverse(self) -> (r: Order)
        ensures
            r == self.flip(),
    {
        match self {
            Order::Less => Order::Greater,
            Order::Equal => Order::Equal,
            Order::Greater => Order::Less,
        }
    }
}

/// The outcome of `<` tests in both directions.
pub open spec fn order_from(lt: bool, gt: bool) -> Order {
    if lt {
        Order::Less
    } else if gt {
        Order::Greater
    } else {
        Order::Equal
    }
}

/// How two (possibly missing) field values compare: a missing value comes
/// first; numbers compare as floats (NaN against anything is equal); texts
/// lexicographically; `false` before `true`; values of different kinds are equal.
pub open spec fn compare_models(a: Option<ValueModel>, b: Option<ValueModel>) -> Order {
    match (a, b) {
        (None, None) => Order::Equal,
        (None, _) => Order::Less,
        (_, None) => Order::Greater,
        (Some(ValueModel::Number(x)), Some(ValueModel::Number(y))) => order_from(f64_lt(x, y), f64_lt(y, x)),
        (Some(ValueModel::Text(x)), Some(ValueModel::Text(y))) => order_from(lex_lt(x, y), lex_lt(y, x)),
        (Some(ValueModel::Bool(x)), Some(ValueModel::Bool(y))) => order_from(!x && y, x && !y),
        _ => Order::Equal,
    }
}

/// The model of an optional value.
pub open spec fn opt_model(v: Option<&Value>) -> Option<ValueModel> {
    match v {
        Some(x) => Some(x.model()),
        None => None,
    }
}

/// How two (possibly missing) field values compare (see [`compare_models`]).
pub fn compare_values(a: Option<&Value>, b: Option<&Value>) -> (r: Order)
    ensures
        r == compare_models(opt_model(a), opt_model(b)),
{
    match (a, b) {
        (None, None) => Order::Equal,
        (None, _) => Order::Less,
        (_, None) => Order::Greater,
        (Some(Value::Number(x)), Some(Value::Number(y))) => {
            if f64_less(*x, *y) {
                Order::Less
            } else if f64_less(*y, *x) {
                Order::Greater
            } else {
                Order::Equal
            }
        },
        (Some(Value::Text(x)), Some(Value::Text(y))) => {
            let xs = chars_of(x.as_str());
            let ys = chars_of(y.as_str());
            if text_less(&xs, &ys) {
                Order::Less
            } else if text_less(&ys, &xs) {
                Order::Greater
            } else {
                Order::Equal
            }
        },
        (Some(Value::Bool(x)), Some(Value::Bool(y))) => {
            if !*x && *y {
                Order::Less
            } else if *x && !*y {
                Order::Greater
            } else {
                Order::Equal
            }
        },
        _ => Order::Equal,
    }
}

// ---------------------------------------------------------------------------
// Classifying a raw cell
// ---------------------------------------------------------------------------

/// The text `true`.
pub open spec fn word_true() -> Seq<char> {
    seq!['t', 'r', 'u', 'e']
}

/// The text `false`.
pub open spec fn word_false() -> Seq<char> {
    seq!['f', 'a', 'l', 's', 'e']
}

/// The text `null`.
pub open spec fn word_null() -> Seq<char> {
    seq!['n', 'u', 'l', 'l']
}

/// The value a trimmed cell text stands for without reading it as a number:
/// empty is null, `true` and `false` (in any ASCII case) are booleans.
pub open spec fn keyword_value(t: Seq<char>) -> Option<ValueModel> {
    if t.len() == 0 {
        Some(ValueModel::Null)
    } else if eq_ignore_ascii_case(t, word_true()) {
        Some(ValueModel::Bool(true))
    } else if eq_ignore_ascii_case(t, word_false()) {
        Some(ValueModel::Bool(false))
    } else {
        None
    }
}

/// The value of a trimmed cell text, given what reading it as a float gave.
pub open spec fn cell_value(t: Seq<char>, parsed: Option<u64>) -> ValueModel {
    match keyword_value(t) {
        Some(v) => v,
        None => match parsed {
            Some(b) => ValueModel::Number(b),
            None => ValueModel::Text(t),
        },
    }
}

/// `number_bits` can give `parsed` for the text `t`.
pub open spec fn reads_as<F: Fn(&str) -> Option<u64>>(number_bits: F, t: Seq<char>, parsed: Option<
    u64,
>) -> bool {
    exists|s: &str| s@ == t && number_bits.ensures((s,), parsed)
}

/// `v` is what the raw cell text `raw` stands for, where `number_bits` reads
/// a text as a float (giving its bit pattern, or `None` where it is no float).
pub open spec fn cell_parsed<F: Fn(&str) -> Option<u64>>(number_bits: F, raw: Seq<char>, v: ValueModel) -> bool {
    let t = trim(raw);
    match keyword_value(t) {
        Some(k) => v == k,
        None => exists|p: Option<u64>| reads_as(number_bits, t, p) && v == cell_value(t, p),
    }
}

/// Whether the text equals one of the lowercase keywords in any ASCII case.
fn is_word(t: &Vec<char>, word: &[char]) -> (r: bool)
    ensures
        r == eq_ignore_ascii_case(t@, word@),
{
    let mut w: Vec<char> = Vec::new();
    let mut i: usize = 0;
    while i < word.len()
        invariant
            i <= word@.len(),
            w@ == word@.take(i as int),
        decreases word@.len() - i,
    {
        w.push(word[i]);
        i += 1;
    }
    assert(word@.take(i as int) =~= word@);
    equal_ignoring_ascii_case(t, &w)
}

/// The keyword value of a trimmed cell text (see [`keyword_value`]).
pub fn keyword_of(t: &Vec<char>) -> (r: Option<Value>)
    ensures
        opt_owned_model(r) == keyword_value(t@),
{
    if t.len() == 0 {
        return Some(Value::Null);
    }
    let tw = ['t', 'r', 'u', 'e'];
    let fw = ['f', 'a', 'l', 's', 'e'];
    assert(tw@ =~= word_true());
    assert(fw@ =~= word_false());
    if is_word(t, &tw) {
        Some(Value::Bool(true))
    } else if is_word(t, &fw) {
        Some(Value::Bool(false))
    } else {
        None
    }
}

/// The model of an optional owned value.
pub open spec fn opt_owned_model(v: Option<Value>) -> Option<ValueModel> {
    match v {
        Some(x) => Some(x.model()),
        None => None,
    }
}

/// The value that the raw cell text `v[lo..hi]` stands for: trimmed, empty
/// is null, `true`/`false` in any ASCII case are booleans, a text that
/// `number_bits` reads as a float is that number, anything else is the text.
pub fn parse_value_range<F: Fn(&str) -> Option<u64>>(
    v: &Vec<char>,
    lo: usize,
    hi: usize,
    number_bits: &F,
) -> (r: Value)
    requires
        lo <= hi <= v@.len(),
        forall|s: &str| number_bits.requires((s,)),
    ensures
        cell_parsed(*number_bits, v@.subrange(lo as int, hi as int), r.model()),
{
    let (a, b) = trim_range(v, lo, hi);
    let ghost t = trim(v@.subrange(lo as int, hi as int));
    let mut tv: Vec<char> = Vec::new();
    let mut i = a;
    while i < b
        invariant
            a <= i <= b <= v@.len(),
            tv@ == v@.subrange(a as int, i as int),
        decreases b - i,
    {
        tv.push(v[i]);
        i += 1;
        assert(tv@ =~= v@.subrange(a as int, i as int));
    }
    assert(tv@ == t);
    match keyword_of(&tv) {
        Some(k) => k,
        None => {
            let s = string_of(v, a, b);
            let p = number_bits(s.as_str());
            proof {
                assert(reads_as(*number_bits, t, p));
            }
            let r = match p {
                Some(bits) => Value::Number(bits),
                None => Value::Text(s),
            };
            assert(r.model() == cell_value(t, p));
            r
        },
    }
}

/// The value that a raw cell text stands for (see [`parse_value_range`]).
pub fn parse_value<F: Fn(&str) -> Option<u64>>(raw: &str, number_bits: &F) -> (r: Value)
    requires
        forall|s: &str| number_bits.requires((s,)),
    ensures
        cell_parsed(*number_bits, raw@, r.model()),
{
    let v = chars_of(raw);
    assert(v@.subrange(0, v@.len() as int) =~= v@);
    parse_value_range(&v, 0, v.len(), number_bits)
}

} // verus!
