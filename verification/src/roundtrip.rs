//! Reading written CSV back: tiles whose cells are plain values are written
//! by the CSV writer and read by the CSV reader as the same tiles.
use vstd::prelude::*;

use crate::csv::{csv_escape, csv_fields, escaped_row, needs_quotes};
use crate::decompose::{cell_at, comma, content_lines, csv_tile, insert_all};
use crate::output::{
    cell_written, csv_document, csv_written, lemma_csv_document_read_back, plain_cell_text,
    ends_with_cr, lemma_trimmed_no_cr, plain_name, rows_written,
};
use crate::query::field_of;
use crate::summary::{all_keys, is_schema, lemma_sorted_unique, strictly_sorted};
use crate::text::{is_ws, join, lemma_lex_irreflexive, trim, trim_end, trim_start};
use crate::tile::{DataKind, TileModel};
use crate::value::{
    cell_parsed, cell_value, entry_get, keyword_value, lemma_insert_then_get, reads_as,
    word_false, word_true, Value, ValueModel,
};

verus! {

// ---------------------------------------------------------------------------
// Text facts
// ---------------------------------------------------------------------------

/// A text that neither starts nor ends with whitespace is its own trim.
proof fn lemma_trim_fixed(s: Seq<char>)
    requires
        s.len() == 0 || (!is_ws(s[0]) && !is_ws(s.last())),
    ensures
        trim(s) == s,
{
    assert(trim_start(s) == s);
    assert(trim_end(s) == s);
}

/// Trimming from the front stops at the first character that is no whitespace.
proof fn lemma_trim_start_stops(s: Seq<char>, i: int)
    requires
        0 <= i < s.len(),
        !is_ws(s[i]),
    ensures
        trim_start(s).len() > 0,
        !is_ws(trim_start(s)[0]),
    decreases s.len(),
{
    if is_ws(s[0]) {
        assert(s.drop_first()[i - 1] == s[i]);
        lemma_trim_start_stops(s.drop_first(), i - 1);
    }
}

/// Trimming from the back keeps a first character that is no whitespace.
proof fn lemma_trim_end_keeps(t: Seq<char>)
    requires
        t.len() > 0,
        !is_ws(t[0]),
    ensures
        trim_end(t).len() > 0,
    decreases t.len(),
{
    if is_ws(t.last()) {
        if t.len() == 1 {
            assert(t.last() == t[0]);
        } else {
            assert(t.drop_last()[0] == t[0]);
            lemma_trim_end_keeps(t.drop_last());
        }
    }
}

/// A text holding a character that is no whitespace does not trim to nothing.
proof fn lemma_trim_nonempty(s: Seq<char>, i: int)
    requires
        0 <= i < s.len(),
        !is_ws(s[i]),
    ensures
        trim(s).len() > 0,
{
    lemma_trim_start_stops(s, i);
    lemma_trim_end_keeps(trim_start(s));
}

/// Two or more pieces joined by commas hold a comma, so they do not trim to
/// nothing.
proof fn lemma_join_commas_nonblank(parts: Seq<Seq<char>>)
    requires
        parts.len() >= 2,
    ensures
        trim(join(parts, comma())).len() > 0,
{
    let a = join(parts.drop_last(), comma());
    let whole = join(parts, comma());
    assert(whole == a + comma() + parts.last());
    assert(whole[a.len() as int] == ',');
    lemma_trim_nonempty(whole, a.len() as int);
}

/// The words `true` and `false` need no quoting and are their own trim.
proof fn lemma_word_plain(w: Seq<char>)
    requires
        w == word_true() || w == word_false(),
    ensures
        !needs_quotes(w),
        trim(w) == w,
{
    assert forall|i: int| 0 <= i < w.len() implies {
        let c = #[trigger] w[i];
        c != ',' && c != '"' && c != '\n'
    } by {
        if w == word_true() {
            assert(i == 0 || i == 1 || i == 2 || i == 3);
        } else {
            assert(i == 0 || i == 1 || i == 2 || i == 3 || i == 4);
        }
    }
    lemma_trim_fixed(w);
}

// ---------------------------------------------------------------------------
// Cells
// ---------------------------------------------------------------------------

/// `t` is a text that `show` writes for the number `b` and that is read back
/// as that number: it needs no quoting, is its own trim, is no keyword, and `number_bits` reads it as `b` only.
pub open spec fn number_text_reads_back<F: Fn(&str) -> Option<u64>>(number_bits: F, t: Seq<char>, b: u64) -> bool {
    &&& !needs_quotes(t)
    &&& trim(t) == t
    &&& keyword_value(t) is None
    &&& forall|p: Option<u64>| #[trigger] reads_as(number_bits, t, p) ==> p == Some(b)
}

/// The cell value `v` is written as a CSV cell that reads back as `v`: a
/// boolean or null; a text that is its own trim, is no keyword, holds no
/// line break and does not read as a number; or a number whose every
/// written text reads back as it (see [`number_text_reads_back`]).
pub open spec fn cell_reads_back<F: Fn(&str) -> Option<u64>, S: Fn(&Value) -> String>(
    number_bits: F,
    show: S,
    v: ValueModel,
) -> bool {
    match v {
        ValueModel::Text(s) => {
            &&& trim(s) == s
            &&& keyword_value(s) is None
            &&& !s.contains('\n')
            &&& forall|p: Option<u64>| #[trigger] reads_as(number_bits, s, p) ==> p is None
        },
        ValueModel::Number(b) => forall|x: &Value, w: String|
            x.model() == ValueModel::Number(b) && #[trigger] show.ensures((x,), w) ==> number_text_reads_back(
                number_bits,
                w@,
                b,
            ),
        ValueModel::Bool(_) => true,
        ValueModel::Null => true,
        _ => false,
    }
}

/// The text a written cell stands for before CSV quoting: the text of a
/// text value, the cell itself otherwise.
pub open spec fn unescaped(v: ValueModel, cell: Seq<char>) -> Seq<char> {
    match v {
        ValueModel::Text(s) => s,
        _ => cell,
    }
}

/// A written cell of a value that reads back is the quoting of its text, the
/// text holds no line break and is its own trim, and reading it gives the
/// value.
proof fn lemma_cell_read_back<F: Fn(&str) -> Option<u64>, S: Fn(&Value) -> String>(
    number_bits: F,
    show: S,
    v: ValueModel,
    cell: Seq<char>,
)
    requires
        cell_reads_back(number_bits, show, v),
        cell_written(show, Some(v), cell),
    ensures
        csv_escape(unescaped(v, cell)) == cell,
        !unescaped(v, cell).contains('\n'),
        !ends_with_cr(unescaped(v, cell)),
        trim(unescaped(v, cell)) == unescaped(v, cell),
        forall|w: ValueModel| cell_parsed(number_bits, unescaped(v, cell), w) ==> w == v,
{
    let t = unescaped(v, cell);
    match v {
        ValueModel::Text(s) => {
            assert(plain_cell_text(Some(v)) == Some(csv_escape(s)));
            assert forall|w: ValueModel| cell_parsed(number_bits, t, w) implies w == v by {
                let p = choose|p: Option<u64>| reads_as(number_bits, s, p) && w == cell_value(s, p);
                assert(p is None);
            }
        },
        ValueModel::Number(b) => {
            assert(plain_cell_text(Some(v)) is None);
            let (x, ws) = choose|x: &Value, ws: String|
                x.model() == v && show.ensures((x,), ws) && ws@ == cell;
            assert(number_text_reads_back(number_bits, ws@, b));
            assert forall|w: ValueModel| cell_parsed(number_bits, t, w) implies w == v by {
                let p = choose|p: Option<u64>| reads_as(number_bits, t, p) && w == cell_value(t, p);
                assert(p == Some(b));
            }
        },
        ValueModel::Bool(b) => {
            lemma_word_plain(cell);
            if b {
                assert(keyword_value(word_true()) == Some(ValueModel::Bool(true)));
            } else {
                assert(keyword_value(word_false()) == Some(ValueModel::Bool(false)));
            }
        },
        ValueModel::Null => {
            assert(cell.len() == 0);
            assert(trim(cell) =~= cell);
        },
        _ => {},
    }
    lemma_trimmed_no_cr(t);
}

// ---------------------------------------------------------------------------
// Maps built from distinct names
// ---------------------------------------------------------------------------

/// Storing values under distinct names one after the other: each name reads
/// back its value, and any other name reads nothing.
proof fn lemma_insert_all_lookup(keys: Seq<Seq<char>>, vals: Seq<ValueModel>, n: nat, k: Seq<char>)
    requires
        n <= keys.len(),
        n <= vals.len(),
        forall|a: int, b: int| 0 <= a < b < n ==> keys[a] != keys[b],
    ensures
        forall|j: int| 0 <= j < n && keys[j] == k ==> entry_get(insert_all(keys, vals, n), k) == Some(vals[j]),
        (forall|j: int| 0 <= j < n ==> keys[j] != k) ==> entry_get(insert_all(keys, vals, n), k) is None,
    decreases n,
{
    if n > 0 {
        lemma_insert_all_lookup(keys, vals, (n - 1) as nat, k);
        lemma_insert_then_get(insert_all(keys, vals, (n - 1) as nat), keys[n - 1], vals[n - 1], k);
    }
}

/// A name that reads a value is the name of one of the entries.
proof fn lemma_entry_get_found(m: Seq<(Seq<char>, ValueModel)>, k: Seq<char>)
    requires
        entry_get(m, k) is Some,
    ensures
        exists|j: int| 0 <= j < m.len() && (#[trigger] m[j]).0 == k,
    decreases m.len(),
{
    if m[0].0 != k {
        lemma_entry_get_found(m.drop_first(), k);
        let j = choose|j: int| 0 <= j < m.drop_first().len() && (#[trigger] m.drop_first()[j]).0 == k;
        assert(m[j + 1] == m.drop_first()[j]);
    }
}

/// The names of a strictly sorted sequence are distinct.
proof fn lemma_sorted_distinct(fields: Seq<Seq<char>>)
    requires
        strictly_sorted(fields),
    ensures
        forall|a: int, b: int| 0 <= a < b < fields.len() ==> fields[a] != fields[b],
{
    assert forall|a: int, b: int| 0 <= a < b < fields.len() implies fields[a] != fields[b] by {
        assert(crate::text::lex_lt(fields[a], fields[b]));
        lemma_lex_irreflexive(fields[a]);
    }
}

// ---------------------------------------------------------------------------
// Tiles
// ---------------------------------------------------------------------------

/// A data line whose cells are the texts of a tile's values, under headers
/// that are the tile's field names, is read as a tile with the same values.
proof fn lemma_tile_read_back<F: Fn(&str) -> Option<u64>>(
    number_bits: F,
    tile: TileModel,
    fields: Seq<Seq<char>>,
    texts: Seq<Seq<char>>,
    line: Seq<char>,
    back: TileModel,
    i: int,
)
    requires
        strictly_sorted(fields),
        texts.len() == fields.len(),
        forall|j: int| 0 <= j < fields.len() ==> trim(#[trigger] texts[j]) == texts[j],
        forall|j: int, w: ValueModel|
            0 <= j < fields.len() && #[trigger] cell_parsed(number_bits, texts[j], w) ==> Some(w) == field_of(
                tile,
                fields[j],
            ),
        forall|k: Seq<char>| #[trigger] field_of(tile, k) is Some ==> fields.contains(k),
        csv_fields(line) == texts.map_values(|t: Seq<char>| trim(t)),
        csv_tile(number_bits, back, fields, line, i),
    ensures
        back.kind == DataKind::CsvRow,
        back.index == i,
        forall|k: Seq<char>| #[trigger] field_of(back, k) == field_of(tile, k),
{
    let cells = csv_fields(line);
    let vals = choose|vals: Seq<ValueModel>|
        {
            &&& vals.len() == fields.len()
            &&& forall|j: int|
                0 <= j < fields.len() ==> cell_parsed(number_bits, cell_at(cells, j), #[trigger] vals[j])
            &&& back.values == insert_all(fields, vals, fields.len())
        };
    lemma_sorted_distinct(fields);
    assert forall|k: Seq<char>| #[trigger] field_of(back, k) == field_of(tile, k) by {
        lemma_insert_all_lookup(fields, vals, fields.len(), k);
        if fields.contains(k) {
            let j = choose|j: int| 0 <= j < fields.len() && fields[j] == k;
            assert(cell_at(cells, j) == texts[j]);
            assert(cell_parsed(number_bits, texts[j], vals[j]));
        } else {
            assert(field_of(tile, k) is None);
        }
    }
}

/// What the CSV writer produces, the CSV reader reads back as the same
/// tiles: for tiles with at least two field names, where no name needs
/// quoting or trims to something else, and every
/// tile has a value for every name that is written and read back as itself
/// (see [`cell_reads_back`]), the tiles read from the written text are as
/// many as the tiles, the `i`-th is a CSV row at position `i`, and each name
/// reads the same value in it as in the `i`-th tile.
pub proof fn lemma_csv_tiles_read_back<F: Fn(&str) -> Option<u64>, S: Fn(&Value) -> String>(
    number_bits: F,
    show: S,
    tiles: Seq<TileModel>,
    fields: Seq<Seq<char>>,
    doc: Seq<char>,
    back: Seq<TileModel>,
)
    requires
        is_schema(fields, tiles),
        fields.len() >= 2,
        forall|j: int| 0 <= j < fields.len() ==> plain_name(#[trigger] fields[j]),
        forall|i: int, j: int|
            0 <= i < tiles.len() && 0 <= j < fields.len() ==> ((#[trigger] field_of(tiles[i], fields[j])) matches Some(
                v,
            ) && cell_reads_back(number_bits, show, v)),
        csv_written(show, tiles, doc),
        content_lines(doc).len() == 0 ==> back.len() == 0,
        content_lines(doc).len() > 0 ==> {
            &&& back.len() == content_lines(doc).len() - 1
            &&& forall|i: int|
                0 <= i < back.len() ==> csv_tile(
                    number_bits,
                    #[trigger] back[i],
                    csv_fields(content_lines(doc)[0]),
                    content_lines(doc)[i + 1],
                    i,
                )
        },
    ensures
        back.len() == tiles.len(),
        forall|i: int| 0 <= i < back.len() ==> (#[trigger] back[i]).kind == DataKind::CsvRow && back[i].index == i,
        forall|i: int, k: Seq<char>| 0 <= i < back.len() ==> #[trigger] field_of(back[i], k) == field_of(tiles[i], k),
{
    // there are tiles, since there are field names
    assert(fields.to_set().contains(fields[0]));
    assert(tiles.len() > 0);
    let (fields2, cells) = choose|fields2: Seq<Seq<char>>, cells: Seq<Seq<Seq<char>>>|
        {
            &&& is_schema(fields2, tiles)
            &&& rows_written(show, tiles, fields2, cells)
            &&& doc == csv_document(fields2, cells)
        };
    lemma_sorted_unique(fields2, fields);
    let n = fields.len();
    let texts = Seq::new(
        tiles.len(),
        |i: int| Seq::new(n, |j: int| unescaped(field_of(tiles[i], fields[j])->0, cells[i][j])),
    );
    assert forall|i: int, j: int| 0 <= i < tiles.len() && 0 <= j < n implies {
        &&& csv_escape(#[trigger] texts[i][j]) == cells[i][j]
        &&& !texts[i][j].contains('\n')
        &&& !ends_with_cr(texts[i][j])
        &&& trim(texts[i][j]) == texts[i][j]
        &&& forall|w: ValueModel|
            cell_parsed(number_bits, texts[i][j], w) ==> Some(w) == field_of(tiles[i], fields[j])
    } by {
        let v = field_of(tiles[i], fields[j])->0;
        assert(cell_written(show, field_of(tiles[i], fields[j]), cells[i][j]));
        lemma_cell_read_back(number_bits, show, v, cells[i][j]);
    }
    let escaped = texts.map_values(|row: Seq<Seq<char>>| row.map_values(|t: Seq<char>| csv_escape(t)));
    assert(escaped =~= cells) by {
        assert forall|i: int| 0 <= i < tiles.len() implies #[trigger] escaped[i] == cells[i] by {
            assert(escaped[i] =~= cells[i]);
        }
    }
    lemma_join_commas_nonblank(fields);
    assert forall|i: int| 0 <= i < texts.len() implies trim(escaped_row(#[trigger] texts[i])).len() > 0 by {
        assert(escaped_row(texts[i]) == join(texts[i].map_values(|f: Seq<char>| csv_escape(f)), comma()));
        lemma_join_commas_nonblank(texts[i].map_values(|f: Seq<char>| csv_escape(f)));
    }
    lemma_csv_document_read_back(fields, texts);
    let cl = content_lines(doc);
    assert(csv_fields(cl[0]) == fields);
    assert forall|i: int| 0 <= i < back.len() implies (#[trigger] back[i]).kind == DataKind::CsvRow
        && back[i].index == i && forall|k: Seq<char>| #[trigger] field_of(back[i], k) == field_of(tiles[i], k) by {
        assert(csv_fields(cl[i + 1]) == texts[i].map_values(|t: Seq<char>| trim(t)));
        assert forall|k: Seq<char>| #[trigger] field_of(tiles[i], k) is Some implies fields.contains(k) by {
            lemma_entry_get_found(tiles[i].values, k);
            let j = choose|j: int| 0 <= j < tiles[i].values.len() && (#[trigger] tiles[i].values[j]).0 == k;
            assert(all_keys(tiles).contains(k));
            assert(fields.to_set().contains(k));
        }
        lemma_tile_read_back(number_bits, tiles[i], fields, texts[i], cl[i + 1], back[i], i);
    }
}

} // verus!
