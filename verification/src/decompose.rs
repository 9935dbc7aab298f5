//! Decomposition of CSV and TSV text into tiles, and format detection.
use vstd::prelude::*;

use crate::csv::{csv_fields, split_csv_range, string_views};
use crate::text::{
    chars_of, is_whitespace, is_ws, join, join_strings, line_ranges, lines, range_texts,
    ranges_within, split_on, split_ranges, string_of, trim, trim_range, trim_start,
    lemma_trim_start_skip,
};
use crate::tile::{new_tile_id, DataKind, DataTile, TextMap, TileModel};
use crate::value::{
    cell_parsed, entry_insert, parse_value_range, FieldMap, Value, ValueModel,
};

verus! {

/// The entry point of the library: decomposition of text into tiles and the
/// operations on sets of tiles.
pub struct DataDecomposer;

// ---------------------------------------------------------------------------
// Specifications
// ---------------------------------------------------------------------------

/// The format that a text looks like: JSON when it starts (after leading
/// whitespace) with `{` or `[`; TSV when it holds a tab and its first line
/// holds a tab but no comma; CSV otherwise.
pub open spec fn detected_kind(input: Seq<char>) -> DataKind {
    let t = trim_start(input);
    if t.len() > 0 && (t[0] == '{' || t[0] == '[') {
        DataKind::JsonNode
    } else if t.contains('\t') {
        let first = if lines(t).len() > 0 {
            lines(t)[0]
        } else {
            Seq::<char>::empty()
        };
        if first.contains('\t') && !first.contains(',') {
            DataKind::TsvRow
        } else {
            DataKind::CsvRow
        }
    } else {
        DataKind::CsvRow
    }
}

/// A line holds something besides whitespace.
pub open spec fn not_blank() -> spec_fn(Seq<char>) -> bool {
    |l: Seq<char>| trim(l).len() > 0
}

/// The lines of a text that hold something besides whitespace.
pub open spec fn content_lines(s: Seq<char>) -> Seq<Seq<char>> {
    lines(s).filter(not_blank())
}

/// The cell of a row under column `j`: empty where the row is short.
pub open spec fn cell_at(cells: Seq<Seq<char>>, j: int) -> Seq<char> {
    if 0 <= j < cells.len() {
        cells[j]
    } else {
        Seq::<char>::empty()
    }
}

/// The entries after storing `vals[j]` under `keys[j]` for `j < n`, in order.
pub open spec fn insert_all(keys: Seq<Seq<char>>, vals: Seq<ValueModel>, n: nat) -> Seq<
    (Seq<char>, ValueModel),
>
    decreases n,
{
    if n == 0 {
        Seq::<(Seq<char>, ValueModel)>::empty()
    } else {
        entry_insert(
            insert_all(keys, vals, (n - 1) as nat),
            keys[n - 1],
            vals[n - 1],
        )
    }
}

/// `m` holds, for each header in order, the value of the row's cell under
/// it (a later header of the same name overrides an earlier one).
pub open spec fn row_built<F: Fn(&str) -> Option<u64>>(
    number_bits: F,
    headers: Seq<Seq<char>>,
    cells: Seq<Seq<char>>,
    m: Seq<(Seq<char>, ValueModel)>,
) -> bool {
    exists|vals: Seq<ValueModel>|
        {
            &&& vals.len() == headers.len()
            &&& forall|j: int|
                0 <= j < headers.len() ==> cell_parsed(number_bits, cell_at(cells, j), #[trigger] vals[j])
            &&& m == insert_all(headers, vals, headers.len())
        }
}

/// The text `,`.
pub open spec fn comma() -> Seq<char> {
    seq![',']
}

/// The text of a tab.
pub open spec fn tab() -> Seq<char> {
    seq!['\t']
}

/// `t` is the tile of data line number `i` of a CSV text with these headers.
pub open spec fn csv_tile<F: Fn(&str) -> Option<u64>>(
    number_bits: F,
    t: TileModel,
    headers: Seq<Seq<char>>,
    line: Seq<char>,
    i: int,
) -> bool {
    &&& t.kind == DataKind::CsvRow
    &&& t.index == i
    &&& t.schema_key == join(headers, comma())
    &&& t.meta.len() == 0
    &&& row_built(number_bits, headers, csv_fields(line), t.values)
}

/// The column names of a TSV header line.
pub open spec fn tsv_headers(line: Seq<char>) -> Seq<Seq<char>> {
    split_on(line, '\t').map_values(|p: Seq<char>| trim(p))
}

/// `t` is the tile of data line number `i` of a TSV text with these headers.
pub open spec fn tsv_tile<F: Fn(&str) -> Option<u64>>(
    number_bits: F,
    t: TileModel,
    headers: Seq<Seq<char>>,
    line: Seq<char>,
    i: int,
) -> bool {
    &&& t.kind == DataKind::TsvRow
    &&& t.index == i
    &&& t.schema_key == join(headers, tab())
    &&& t.meta.len() == 0
    &&& row_built(number_bits, headers, split_on(line, '\t'), t.values)
}

// ---------------------------------------------------------------------------
// Helpers
// ---------------------------------------------------------------------------

/// Whether `v[lo..hi]` holds `c`.
fn range_contains(v: &Vec<char>, lo: usize, hi: usize, c: char) -> (b: bool)
    requires
        lo <= hi <= v@.len(),
    ensures
        b == v@.subrange(lo as int, hi as int).contains(c),
{
    let ghost s = v@.subrange(lo as int, hi as int);
    let mut i = lo;
    while i < hi
        invariant
            lo <= i <= hi <= v@.len(),
            s == v@.subrange(lo as int, hi as int),
            forall|k: int| 0 <= k < i - lo ==> s[k] != c,
        decreases hi - i,
    {
        if v[i] == c {
            assert(s[i - lo] == c);
            return true;
        }
        i += 1;
    }
    false
}

/// The ranges of the lines of `v` that hold something besides whitespace.
fn content_ranges(v: &Vec<char>) -> (r: Vec<(usize, usize)>)
    ensures
        range_texts(v@, r@) == content_lines(v@),
        ranges_within(r@, 0, v@.len() as int),
{
    let all = line_ranges(v);
    let ghost ls = lines(v@);
    let mut r: Vec<(usize, usize)> = Vec::new();
    let mut k: usize = 0;
    assert(ls.take(0) =~= Seq::<Seq<char>>::empty());
    assert(range_texts(v@, r@) =~= Seq::<Seq<char>>::empty());
    while k < all.len()
        invariant
            k <= all@.len(),
            range_texts(v@, all@) == ls,
            ranges_within(all@, 0, v@.len() as int),
            ranges_within(r@, 0, v@.len() as int),
            range_texts(v@, r@) == ls.take(k as int).filter(not_blank()),
        decreases all@.len() - k,
    {
        let (lo, hi) = all[k];
        assert(ls[k as int] == v@.subrange(lo as int, hi as int));
        let (a, b) = trim_range(v, lo, hi);
        assert(ls.take(k + 1).drop_last() =~= ls.take(k as int));
        let ghost before = r@;
        proof {
            let l = ls.take(k + 1);
            assert(l.last() == ls[k as int]);
            assert(trim(ls[k as int]).len() == b - a);
            assert(l =~= ls.take(k as int).push(ls[k as int]));
            ls.take(k as int).lemma_filter_push(ls[k as int], not_blank());
        }
        if a < b {
            r.push((lo, hi));
            assert(range_texts(v@, r@) =~= range_texts(v@, before).push(ls[k as int]));
        }
        k += 1;
    }
    assert(ls.take(k as int) =~= ls);
    r
}

/// Builds the field map of one row: under each header, the value of the
/// row's cell in the same column (a missing cell is null).
fn build_row<F: Fn(&str) -> Option<u64>>(headers: &Vec<String>, cells: &Vec<String>, number_bits: &F) -> (m: FieldMap)
    requires
        forall|s: &str| number_bits.requires((s,)),
    ensures
        row_built(*number_bits, string_views(headers@), string_views(cells@), m.model()),
{
    let ghost hs = string_views(headers@);
    let ghost cs = string_views(cells@);
    let mut m = FieldMap::new();
    let ghost mut vals: Seq<ValueModel> = Seq::empty();
    let mut j: usize = 0;
    while j < headers.len()
        invariant
            j <= headers@.len(),
            hs == string_views(headers@),
            cs == string_views(cells@),
            forall|s: &str| number_bits.requires((s,)),
            vals.len() == j,
            forall|q: int| 0 <= q < j ==> cell_parsed(*number_bits, cell_at(cs, q), #[trigger] vals[q]),
            m.model() == insert_all(hs, vals, j as nat),
        decreases headers@.len() - j,
    {
        let v = if j < cells.len() {
            let cv = chars_of(cells[j].as_str());
            assert(cv@.subrange(0, cv@.len() as int) =~= cv@);
            parse_value_range(&cv, 0, cv.len(), number_bits)
        } else {
            proof {
                assert(trim(Seq::<char>::empty()) == Seq::<char>::empty());
            }
            Value::Null
        };
        let ghost old_vals = vals;
        proof {
            vals = vals.push(v.model());
            assert forall|q: int| 0 <= q < j + 1 implies cell_parsed(*number_bits, cell_at(cs, q), #[trigger] vals[q]) by {
                if q < j {
                    assert(vals[q] == old_vals[q]);
                }
            }
            assert(insert_all(hs, vals, j as nat) == insert_all(hs, old_vals, j as nat)) by {
                lemma_insert_all_prefix(hs, old_vals, vals, j as nat);
            }
        }
        m.insert(headers[j].clone(), v);
        j += 1;
    }
    m
}

/// `insert_all` only reads the first `n` keys and values.
pub proof fn lemma_insert_all_prefix(keys: Seq<Seq<char>>, a: Seq<ValueModel>, b: Seq<ValueModel>, n: nat)
    requires
        n <= a.len(),
        n <= b.len(),
        forall|q: int| 0 <= q < n ==> a[q] == b[q],
    ensures
        insert_all(keys, a, n) == insert_all(keys, b, n),
    decreases n,
{
    if n > 0 {
        lemma_insert_all_prefix(keys, a, b, (n - 1) as nat);
    }
}

/// The index of the first non-whitespace character of `v` (its length if none).
fn first_content(v: &Vec<char>) -> (a: usize)
    ensures
        a <= v@.len(),
        v@.skip(a as int) == trim_start(v@),
{
    let mut a: usize = 0;
    while a < v.len() && is_whitespace(v[a])
        invariant
            a <= v@.len(),
            forall|k: int| 0 <= k < a ==> is_ws(#[trigger] v@[k]),
        decreases v@.len() - a,
    {
        a += 1;
    }
    proof {
        lemma_trim_start_skip(v@, a as int);
        let t = v@.skip(a as int);
        if t.len() > 0 {
            assert(t[0] == v@[a as int]);
        }
        assert(trim_start(t) == t);
    }
    a
}

impl DataDecomposer {
    /// Detects the data format from the first characters of the input (see
    /// [`detected_kind`]).
    pub fn detect_format(input: &str) -> (k: DataKind)
        ensures
            k == detected_kind(input@),
    {
        let v = chars_of(input);
        let a = first_content(&v);
        let n = v.len();
        let ghost t = v@.skip(a as int);
        if a < n && (v[a] == '{' || v[a] == '[') {
            return DataKind::JsonNode;
        }
        assert(v@.subrange(a as int, n as int) =~= t);
        if !range_contains(&v, a, n, '\t') {
            return DataKind::CsvRow;
        }
        let tv = {
            let mut tv: Vec<char> = Vec::new();
            let mut i = a;
            while i < n
                invariant
                    a <= i <= n == v@.len(),
                    tv@ == v@.subrange(a as int, i as int),
                decreases n - i,
            {
                tv.push(v[i]);
                i += 1;
                assert(tv@ =~= v@.subrange(a as int, i as int));
            }
            tv
        };
        assert(tv@ == t);
        let lr = line_ranges(&tv);
        let (lo, hi) = if lr.len() > 0 {
            lr[0]
        } else {
            (0, 0)
        };
        proof {
            if lr@.len() > 0 {
                assert(range_texts(tv@, lr@)[0] == tv@.subrange(lo as int, hi as int));
            } else {
                assert(tv@.subrange(0, 0) =~= Seq::<char>::empty());
            }
        }
        if range_contains(&tv, lo, hi, '\t') && !range_contains(&tv, lo, hi, ',') {
            DataKind::TsvRow
        } else {
            DataKind::CsvRow
        }
    }

    /// Parses CSV text into tiles: the first line that is not blank names the
    /// columns, every later line that is not blank becomes a tile whose
    /// values are its cells under those names (see [`csv_tile`]).
    ///
    /// `number_bits` reads a cell text as a float: the bit pattern of the value
    /// (`f64::to_bits`), or `None` where the text is no float.
    pub fn parse_csv<F: Fn(&str) -> Option<u64>>(input: &str, number_bits: &F) -> (tiles: Vec<DataTile>)
        requires
            forall|s: &str| number_bits.requires((s,)),
        ensures
            content_lines(input@).len() == 0 ==> tiles@.len() == 0,
            content_lines(input@).len() > 0 ==> {
                &&& tiles@.len() == content_lines(input@).len() - 1
                &&& forall|i: int|
                    0 <= i < tiles@.len() ==> csv_tile(
                        *number_bits,
                        (#[trigger] tiles@[i]).model(),
                        csv_fields(content_lines(input@)[0]),
                        content_lines(input@)[i + 1],
                        i,
                    )
            },
    {
        let v = chars_of(input);
        let rows = content_ranges(&v);
        let mut tiles: Vec<DataTile> = Vec::new();
        if rows.len() == 0 {
            return tiles;
        }
        let ghost cl = content_lines(input@);
        let (hlo, hhi) = rows[0];
        assert(cl[0] == v@.subrange(hlo as int, hhi as int));
        let headers = split_csv_range(&v, hlo, hhi);
        let ghost hs = string_views(headers@);
        let schema_key = join_strings(&headers, ",");
        proof {
            reveal_strlit(",");
            assert(","@ =~= comma());
            assert(headers@.map_values(|p: String| p@) == hs);
        }
        let mut k: usize = 1;
        while k < rows.len()
            invariant
                1 <= k <= rows@.len(),
                cl == content_lines(input@),
                range_texts(v@, rows@) == cl,
                ranges_within(rows@, 0, v@.len() as int),
                hs == string_views(headers@),
                hs == csv_fields(cl[0]),
                schema_key@ == join(hs, comma()),
                forall|s: &str| number_bits.requires((s,)),
                tiles@.len() == k - 1,
                forall|i: int|
                    0 <= i < tiles@.len() ==> csv_tile(
                        *number_bits,
                        (#[trigger] tiles@[i]).model(),
                        hs,
                        cl[i + 1],
                        i,
                    ),
            decreases rows@.len() - k,
        {
            let (lo, hi) = rows[k];
            assert(cl[k as int] == v@.subrange(lo as int, hi as int));
            let cells = split_csv_range(&v, lo, hi);
            let values = build_row(&headers, &cells, number_bits);
            let tile = DataTile {
                id: new_tile_id(),
                kind: DataKind::CsvRow,
                values,
                index: (k - 1) as u64,
                schema_key: schema_key.clone(),
                meta: TextMap::new(),
            };
            assert(tile.model().meta =~= Seq::<(Seq<char>, Seq<char>)>::empty());
            tiles.push(tile);
            k += 1;
        }
        tiles
    }

    /// Parses TSV text into tiles: like [`DataDecomposer::parse_csv`], with
    /// tab-separated cells, no quoting, and trimmed header names (see [`tsv_tile`]).
    pub fn parse_tsv<F: Fn(&str) -> Option<u64>>(input: &str, number_bits: &F) -> (tiles: Vec<DataTile>)
        requires
            forall|s: &str| number_bits.requires((s,)),
        ensures
            content_lines(input@).len() == 0 ==> tiles@.len() == 0,
            content_lines(input@).len() > 0 ==> {
                &&& tiles@.len() == content_lines(input@).len() - 1
                &&& forall|i: int|
                    0 <= i < tiles@.len() ==> tsv_tile(
                        *number_bits,
                        (#[trigger] tiles@[i]).model(),
                        tsv_headers(content_lines(input@)[0]),
                        content_lines(input@)[i + 1],
                        i,
                    )
            },
    {
        let v = chars_of(input);
        let rows = content_ranges(&v);
        let mut tiles: Vec<DataTile> = Vec::new();
        if rows.len() == 0 {
            return tiles;
        }
        let ghost cl = content_lines(input@);
        let (hlo, hhi) = rows[0];
        assert(cl[0] == v@.subrange(hlo as int, hhi as int));
        let pieces = split_ranges(&v, hlo, hhi, '\t');
        let mut headers: Vec<String> = Vec::new();
        let mut j: usize = 0;
        while j < pieces.len()
            invariant
                j <= pieces@.len(),
                range_texts(v@, pieces@) == split_on(cl[0], '\t'),
                ranges_within(pieces@, hlo as int, hhi as int),
                hhi <= v@.len(),
                string_views(headers@) == split_on(cl[0], '\t').take(j as int).map_values(
                    |p: Seq<char>| trim(p),
                ),
            decreases pieces@.len() - j,
        {
            let (plo, phi) = pieces[j];
            assert(range_texts(v@, pieces@)[j as int] == v@.subrange(plo as int, phi as int));
            let (a, b) = trim_range(&v, plo, phi);
            let ghost before = headers@;
            headers.push(string_of(&v, a, b));
            assert(string_views(headers@) =~= split_on(cl[0], '\t').take(j + 1).map_values(
                |p: Seq<char>| trim(p),
            )) by {
                let hp = split_on(cl[0], '\t');
                assert(string_views(before).len() == j);
                assert forall|q: int| 0 <= q < j + 1 implies string_views(headers@)[q] == hp.take(j + 1).map_values(|p: Seq<char>| trim(p))[q] by {
                    if q < j {
                        assert(headers@[q] == before[q]);
                        assert(string_views(before)[q] == hp.take(j as int).map_values(|p: Seq<char>| trim(p))[q]);
                    } else {
                        assert(hp[j as int] == v@.subrange(plo as int, phi as int));
                    }
                }
            }
            j += 1;
        }
        let ghost hs = string_views(headers@);
        assert(hs =~= tsv_headers(cl[0])) by {
            assert(split_on(cl[0], '\t').take(j as int) =~= split_on(cl[0], '\t'));
        }
        let schema_key = join_strings(&headers, "\t");
        proof {
            reveal_strlit("\t");
            assert("\t"@ =~= tab());
            assert(headers@.map_values(|p: String| p@) == hs);
        }
        let mut k: usize = 1;
        while k < rows.len()
            invariant
                1 <= k <= rows@.len(),
                cl == content_lines(input@),
                range_texts(v@, rows@) == cl,
                ranges_within(rows@, 0, v@.len() as int),
                hs == string_views(headers@),
                hs == tsv_headers(cl[0]),
                schema_key@ == join(hs, tab()),
                forall|s: &str| number_bits.requires((s,)),
                tiles@.len() == k - 1,
                forall|i: int|
                    0 <= i < tiles@.len() ==> tsv_tile(
                        *number_bits,
                        (#[trigger] tiles@[i]).model(),
                        hs,
                        cl[i + 1],
                        i,
                    ),
            decreases rows@.len() - k,
        {
            let (lo, hi) = rows[k];
            assert(cl[k as int] == v@.subrange(lo as int, hi as int));
            let parts = split_ranges(&v, lo, hi, '\t');
            let mut cells: Vec<String> = Vec::new();
            let mut q: usize = 0;
            while q < parts.len()
                invariant
                    q <= parts@.len(),
                    range_texts(v@, parts@) == split_on(cl[k as int], '\t'),
                    ranges_within(parts@, lo as int, hi as int),
                    hi <= v@.len(),
                    string_views(cells@) == split_on(cl[k as int], '\t').take(q as int),
                decreases parts@.len() - q,
            {
                let (plo, phi) = parts[q];
                assert(range_texts(v@, parts@)[q as int] == v@.subrange(plo as int, phi as int));
                let ghost before = cells@;
                cells.push(string_of(&v, plo, phi));
                assert(string_views(cells@) =~= split_on(cl[k as int], '\t').take(q + 1)) by {
                    assert(string_views(before).len() == q);
                }
                q += 1;
            }
            assert(split_on(cl[k as int], '\t').take(q as int) =~= split_on(cl[k as int], '\t'));
            let values = build_row(&headers, &cells, number_bits);
            let tile = DataTile {
                id: new_tile_id(),
                kind: DataKind::TsvRow,
                values,
                index: (k - 1) as u64,
                schema_key: schema_key.clone(),
                meta: TextMap::new(),
            };
            assert(tile.model().meta =~= Seq::<(Seq<char>, Seq<char>)>::empty());
            tiles.push(tile);
            k += 1;
        }
        tiles
    }
}

// ---------------------------------------------------------------------------
// What format detection decides
// ---------------------------------------------------------------------------

/// The text's first character that is not whitespace is an opening brace
/// or bracket.
pub open spec fn opens_json(s: Seq<char>) -> bool {
    exists|i: int|
        0 <= i < s.len() && (s[i] == '{' || s[i] == '[') && forall|k: int| 0 <= k < i ==> is_ws(#[trigger] s[k])
}

/// Leading whitespace skipped, a text starts with `{` or `[` exactly when
/// its first character that is not whitespace is one of them.
proof fn lemma_trim_start_opens(s: Seq<char>)
    ensures
        (trim_start(s).len() > 0 && (trim_start(s)[0] == '{' || trim_start(s)[0] == '[')) <==> opens_json(s),
    decreases s.len(),
{
    if s.len() > 0 {
        if is_ws(s[0]) {
            let t = s.drop_first();
            lemma_trim_start_opens(t);
            if opens_json(s) {
                let i = choose|i: int|
                    0 <= i < s.len() && (s[i] == '{' || s[i] == '[') && forall|k: int| 0 <= k < i ==> is_ws(#[trigger] s[k]);
                assert(i > 0);
                assert(t[i - 1] == s[i]);
                assert forall|k: int| 0 <= k < i - 1 implies is_ws(#[trigger] t[k]) by {
                    assert(t[k] == s[k + 1]);
                }
            }
            if opens_json(t) {
                let i = choose|i: int|
                    0 <= i < t.len() && (t[i] == '{' || t[i] == '[') && forall|k: int| 0 <= k < i ==> is_ws(#[trigger] t[k]);
                assert(s[i + 1] == t[i]);
                assert forall|k: int| 0 <= k < i + 1 implies is_ws(#[trigger] s[k]) by {
                    if k > 0 {
                        assert(s[k] == t[k - 1]);
                    }
                }
            }
        } else {
            if opens_json(s) {
                let i = choose|i: int|
                    0 <= i < s.len() && (s[i] == '{' || s[i] == '[') && forall|k: int| 0 <= k < i ==> is_ws(#[trigger] s[k]);
                if i > 0 {
                    assert(is_ws(s[0]));
                }
            }
            if s[0] == '{' || s[0] == '[' {
                assert(opens_json(s));
            }
        }
    }
}

/// Every character left after skipping leading whitespace is one of the text's.
proof fn lemma_trim_start_within(s: Seq<char>, c: char)
    ensures
        trim_start(s).contains(c) ==> s.contains(c),
    decreases s.len(),
{
    if s.len() > 0 && is_ws(s[0]) {
        let t = s.drop_first();
        lemma_trim_start_within(t, c);
        if t.contains(c) {
            let i = choose|i: int| 0 <= i < t.len() && t[i] == c;
            assert(s[i + 1] == c);
        }
    }
}

/// A text is detected as JSON exactly when its first character that is
/// not whitespace is `{` or `[`; in particular a text that opens with a
/// quote, a letter or a digit is never JSON.
pub proof fn lemma_detect_json(s: Seq<char>)
    ensures
        detected_kind(s) == DataKind::JsonNode <==> opens_json(s),
{
    lemma_trim_start_opens(s);
}

/// A text that holds no tab and whose first character that is not
/// whitespace is neither `{` nor `[` is detected as CSV.
pub proof fn lemma_detect_csv(s: Seq<char>)
    requires
        !s.contains('\t'),
        !opens_json(s),
    ensures
        detected_kind(s) == DataKind::CsvRow,
{
    lemma_trim_start_opens(s);
    lemma_trim_start_within(s, '\t');
}

} // verus!
