//! Writing tiles back out as CSV text.
use vstd::prelude::*;

use crate::csv::{
    csv_escape, csv_fields, double_quotes, escape_csv_field, escaped_row, lemma_csv_row_roundtrip,
    needs_quotes, string_views,
};
use crate::decompose::{comma, content_lines, not_blank, DataDecomposer};
use crate::query::field_of;
use crate::summary::is_schema;
use crate::text::{is_ws, join, join_strings, lemma_lines_join, lines, push_char, trim, trim_end, trim_start};
use crate::tile::{tiles_model, DataTile, TileModel};
use crate::value::{opt_model, word_false, word_true, Value, ValueModel};

verus! {

/// The CSV text of a cell whose text does not depend on how numbers are
/// written: a missing value and null are empty, a text is quoted as CSV
/// needs, a boolean is `true` or `false`. `None` for numbers, arrays and objects.
pub open spec fn plain_cell_text(v: Option<ValueModel>) -> Option<Seq<char>> {
    match v {
        None => Some(Seq::<char>::empty()),
        Some(ValueModel::Text(s)) => Some(csv_escape(s)),
        Some(ValueModel::Bool(b)) => Some(if b { word_true() } else { word_false() }),
        Some(ValueModel::Null) => Some(Seq::<char>::empty()),
        _ => None,
    }
}

/// `text` is the CSV text of a cell holding `v`, where `show` writes numbers,
/// arrays and objects.
pub open spec fn cell_written<S: Fn(&Value) -> String>(show: S, v: Option<ValueModel>, text: Seq<char>) -> bool {
    match plain_cell_text(v) {
        Some(t) => text == t,
        None => exists|x: &Value, s: String| x.model() == v->0 && show.ensures((x,), s) && s@ == text,
    }
}

/// The text of a newline.
pub open spec fn newline() -> Seq<char> {
    seq!['\n']
}

/// `out` is the CSV text of the tiles: a header line with the schema, then one
/// line per tile with its cells under those names, joined by newlines; empty
/// when there are no tiles.
pub open spec fn csv_written<S: Fn(&Value) -> String>(show: S, tiles: Seq<TileModel>, out: Seq<char>) -> bool {
    if tiles.len() == 0 {
        out.len() == 0
    } else {
        exists|fields: Seq<Seq<char>>, cells: Seq<Seq<Seq<char>>>|
            {
                &&& is_schema(fields, tiles)
                &&& rows_written(show, tiles, fields, cells)
                &&& out == csv_document(fields, cells)
            }
    }
}

/// `cells[i][j]` is the CSV text of field `fields[j]` of tile `i`.
pub open spec fn rows_written<S: Fn(&Value) -> String>(
    show: S,
    tiles: Seq<TileModel>,
    fields: Seq<Seq<char>>,
    cells: Seq<Seq<Seq<char>>>,
) -> bool {
    &&& cells.len() == tiles.len()
    &&& forall|i: int| 0 <= i < tiles.len() ==> (#[trigger] cells[i]).len() == fields.len()
    &&& forall|i: int, j: int|
        0 <= i < tiles.len() && 0 <= j < fields.len() ==> cell_written(show, field_of(tiles[i], fields[j]), #[trigger] cells[i][j])
}

/// The header line and the rows, joined by newlines.
pub open spec fn csv_document(fields: Seq<Seq<char>>, cells: Seq<Seq<Seq<char>>>) -> Seq<char> {
    join(seq![join(fields, comma())] + cells.map_values(|row: Seq<Seq<char>>| join(row, comma())), newline())
}

// ---------------------------------------------------------------------------
// Reading written CSV back
// ---------------------------------------------------------------------------

/// Joining pieces that do not hold `c` with a separator that is not `c`
/// gives a text that does not hold `c`.
proof fn lemma_join_lacks(parts: Seq<Seq<char>>, sep: char, c: char)
    requires
        sep != c,
        forall|i: int| 0 <= i < parts.len() ==> !(#[trigger] parts[i]).contains(c),
    ensures
        !join(parts, seq![sep]).contains(c),
    decreases parts.len(),
{
    if parts.len() > 1 {
        let init = parts.drop_last();
        lemma_join_lacks(init, sep, c);
        let a = join(init, seq![sep]);
        let whole = a + seq![sep] + parts.last();
        assert(parts[parts.len() - 1] == parts.last());
        if whole.contains(c) {
            let i = choose|i: int| 0 <= i < whole.len() && whole[i] == c;
            if i < a.len() {
                assert(a[i] == c);
            } else if i == a.len() {
                assert(whole[i] == sep);
            } else {
                assert(parts.last()[i - a.len() - 1] == c);
            }
        }
    } else if parts.len() == 1 {
        assert(join(parts, seq![sep]) == parts[0]);
    }
}

/// Doubling quotes adds no other character.
proof fn lemma_double_quotes_lacks(t: Seq<char>, c: char)
    requires
        c != '"',
        !t.contains(c),
    ensures
        !double_quotes(t).contains(c),
    decreases t.len(),
{
    if t.len() > 0 {
        let init = t.drop_last();
        assert(!init.contains(c)) by {
            if init.contains(c) {
                let i = choose|i: int| 0 <= i < init.len() && init[i] == c;
                assert(t[i] == c);
            }
        }
        assert(t[t.len() - 1] == t.last());
        lemma_double_quotes_lacks(init, c);
        let d = double_quotes(init);
        let piece = if t.last() == '"' { seq!['"', '"'] } else { seq![t.last()] };
        if (d + piece).contains(c) {
            let i = choose|i: int| 0 <= i < (d + piece).len() && (d + piece)[i] == c;
            if i < d.len() {
                assert(d[i] == c);
            } else {
                assert(piece[i - d.len()] == c);
            }
        }
    }
}

/// Escaping adds no character other than quotes.
proof fn lemma_escape_lacks(t: Seq<char>, c: char)
    requires
        c != '"',
        !t.contains(c),
    ensures
        !csv_escape(t).contains(c),
{
    if needs_quotes(t) {
        lemma_double_quotes_lacks(t, c);
        let d = double_quotes(t);
        let e = seq!['"'] + d + seq!['"'];
        if e.contains(c) {
            let i = choose|i: int| 0 <= i < e.len() && e[i] == c;
            if 0 < i && i < e.len() - 1 {
                assert(d[i - 1] == c);
            }
        }
    }
}

/// A written row does not hold `c` where its texts do not and `c` is no
/// comma or quote.
proof fn lemma_row_lacks(texts: Seq<Seq<char>>, c: char)
    requires
        c != '"',
        c != ',',
        forall|j: int| 0 <= j < texts.len() ==> !(#[trigger] texts[j]).contains(c),
    ensures
        !escaped_row(texts).contains(c),
{
    let escs = texts.map_values(|t: Seq<char>| csv_escape(t));
    assert forall|j: int| 0 <= j < escs.len() implies !(#[trigger] escs[j]).contains(c) by {
        lemma_escape_lacks(texts[j], c);
    }
    lemma_join_lacks(escs, ',', c);
}

/// A field name that is written as it is and read back as it is.
pub open spec fn plain_name(f: Seq<char>) -> bool {
    !needs_quotes(f) && trim(f) == f
}

/// The text ends with a carriage return.
pub open spec fn ends_with_cr(t: Seq<char>) -> bool {
    t.len() > 0 && t.last() == '\r'
}

/// Trimming leaves no whitespace at the end.
proof fn lemma_trim_end_last(s: Seq<char>)
    ensures
        trim_end(s).len() > 0 ==> !is_ws(trim_end(s).last()),
    decreases s.len(),
{
    if s.len() > 0 && is_ws(s.last()) {
        lemma_trim_end_last(s.drop_last());
    }
}

/// A text that is its own trim does not end with a carriage return.
pub proof fn lemma_trimmed_no_cr(t: Seq<char>)
    requires
        trim(t) == t,
    ensures
        !ends_with_cr(t),
{
    lemma_trim_end_last(trim_start(t));
}

/// Pieces that do not end with a carriage return, joined by a separator
/// that is none, give a text that does not end with one.
proof fn lemma_join_no_cr(parts: Seq<Seq<char>>, sep: char)
    requires
        sep != '\r',
        forall|i: int| 0 <= i < parts.len() ==> !ends_with_cr(#[trigger] parts[i]),
    ensures
        !ends_with_cr(join(parts, seq![sep])),
{
    if parts.len() > 1 {
        let a = join(parts.drop_last(), seq![sep]);
        let whole = a + seq![sep] + parts.last();
        assert(join(parts, seq![sep]) == whole);
        assert(parts[parts.len() - 1] == parts.last());
        if parts.last().len() > 0 {
            assert(whole.last() == parts.last().last());
        } else {
            assert(whole.last() == sep);
        }
    } else if parts.len() == 1 {
        assert(join(parts, seq![sep]) == parts[0]);
    }
}

/// Quoting keeps a text from ending with a carriage return.
proof fn lemma_escape_no_cr(t: Seq<char>)
    requires
        !ends_with_cr(t),
    ensures
        !ends_with_cr(csv_escape(t)),
{
}

/// What the CSV writer produces is read back by the CSV reader: for a
/// document whose column names need no quoting and are their own trim, and
/// whose cells are texts written with [`csv_escape`] that hold no newline and
/// do not end with a carriage return, the reader finds the
/// header line and one line per row, the column names, and each row's texts
/// (trimmed), provided no line is blank.
pub proof fn lemma_csv_document_read_back(fields: Seq<Seq<char>>, texts: Seq<Seq<Seq<char>>>)
    requires
        fields.len() >= 1,
        forall|j: int| 0 <= j < fields.len() ==> plain_name(#[trigger] fields[j]),
        trim(join(fields, comma())).len() > 0,
        forall|i: int| 0 <= i < texts.len() ==> (#[trigger] texts[i]).len() == fields.len(),
        forall|i: int, j: int|
            0 <= i < texts.len() && 0 <= j < fields.len() ==> !(#[trigger] texts[i][j]).contains('\n')
                && !ends_with_cr(texts[i][j]),
        forall|i: int| 0 <= i < texts.len() ==> trim(escaped_row(#[trigger] texts[i])).len() > 0,
    ensures
        ({
            let doc = csv_document(fields, texts.map_values(|row: Seq<Seq<char>>| row.map_values(|t: Seq<char>| csv_escape(t))));
            &&& content_lines(doc).len() == texts.len() + 1
            &&& csv_fields(content_lines(doc)[0]) == fields
            &&& forall|i: int|
                0 <= i < texts.len() ==> csv_fields(#[trigger] content_lines(doc)[i + 1]) == texts[i].map_values(
                    |t: Seq<char>| trim(t),
                )
        }),
{
    let cells = texts.map_values(|row: Seq<Seq<char>>| row.map_values(|t: Seq<char>| csv_escape(t)));
    let header = join(fields, comma());
    let rows = cells.map_values(|row: Seq<Seq<char>>| join(row, comma()));
    let ls = seq![header] + rows;
    // the header reads back as the names
    assert(fields.map_values(|t: Seq<char>| csv_escape(t)) =~= fields);
    assert(escaped_row(fields) == header);
    lemma_csv_row_roundtrip(fields);
    assert(fields.map_values(|t: Seq<char>| trim(t)) =~= fields);
    // each row is a written row of its texts
    assert forall|i: int| 0 <= i < texts.len() implies #[trigger] rows[i] == escaped_row(texts[i]) by {
        assert(cells[i] == texts[i].map_values(|t: Seq<char>| csv_escape(t)));
    }
    // no line holds a line break or ends with a carriage return
    assert forall|k: int| 0 <= k < ls.len() implies !(#[trigger] ls[k]).contains('\n') && (ls[k].len() == 0 || ls[k].last() != '\r') by {
        if k == 0 {
            lemma_join_lacks(fields, ',', '\n');
            assert forall|j: int| 0 <= j < fields.len() implies !ends_with_cr(#[trigger] fields[j]) by {
                lemma_trimmed_no_cr(fields[j]);
            }
            lemma_join_no_cr(fields, ',');
            assert(ls[0] == header);
        } else {
            let i = k - 1;
            assert(ls[k] == rows[i]);
            assert forall|j: int| 0 <= j < texts[i].len() implies !(#[trigger] texts[i][j]).contains('\n') by {}
            lemma_row_lacks(texts[i], '\n');
            let escs = texts[i].map_values(|t: Seq<char>| csv_escape(t));
            assert forall|j: int| 0 <= j < escs.len() implies !ends_with_cr(#[trigger] escs[j]) by {
                lemma_escape_no_cr(texts[i][j]);
            }
            lemma_join_no_cr(escs, ',');
        }
    }
    assert(ls.last().len() > 0) by {
        if texts.len() > 0 {
            assert(ls.last() == rows[texts.len() - 1]);
            let r = rows[texts.len() - 1];
            if r.len() == 0 {
                assert(trim(r) =~= r);
            }
        } else {
            assert(ls.last() == header);
            if header.len() == 0 {
                assert(trim(header) =~= header);
            }
        }
    }
    let doc = join(ls, newline());
    assert(doc == csv_document(fields, cells));
    lemma_lines_join(ls);
    // no line is blank, so all are content lines
    assert forall|k: int| 0 <= k < ls.len() implies (not_blank())(#[trigger] ls[k]) by {
        if k > 0 {
            assert(ls[k] == rows[k - 1]);
        }
    }
    lemma_filter_all(ls, not_blank());
    assert(content_lines(doc) == ls);
    assert(ls[0] == header);
    assert forall|i: int| 0 <= i < texts.len() implies csv_fields(#[trigger] content_lines(doc)[i + 1]) == texts[i].map_values(
        |t: Seq<char>| trim(t),
    ) by {
        assert(ls[i + 1] == rows[i]);
        lemma_csv_row_roundtrip(texts[i]);
    }
}

/// Filtering by a predicate that holds of every element keeps them all.
proof fn lemma_filter_all<T>(s: Seq<T>, p: spec_fn(T) -> bool)
    requires
        forall|k: int| 0 <= k < s.len() ==> p(#[trigger] s[k]),
    ensures
        s.filter(p) == s,
    decreases s.len(),
{
    if s.len() > 0 {
        let init = s.drop_last();
        assert forall|k: int| 0 <= k < init.len() implies p(#[trigger] init[k]) by {
            assert(init[k] == s[k]);
        }
        lemma_filter_all(init, p);
        assert(s[s.len() - 1] == s.last());
        assert(s =~= init.push(s.last()));
        init.lemma_filter_push(s.last(), p);
    } else {
        reveal(Seq::filter);
    }
}

/// A string made of these characters.
fn string_from(cs: &[char]) -> (s: String)
    ensures
        s@ == cs@,
{
    let mut s = String::new();
    let mut i: usize = 0;
    while i < cs.len()
        invariant
            i <= cs@.len(),
            s@ == cs@.take(i as int),
        decreases cs@.len() - i,
    {
        push_char(&mut s, cs[i]);
        i += 1;
        assert(s@ =~= cs@.take(i as int));
    }
    assert(cs@.take(i as int) =~= cs@);
    s
}

/// The CSV text of a cell (see [`cell_written`]).
fn cell_text<S: Fn(&Value) -> String>(v: Option<&Value>, show: &S) -> (t: String)
    requires
        forall|x: &Value| show.requires((x,)),
    ensures
        cell_written(*show, opt_model(v), t@),
{
    match v {
        None => String::new(),
        Some(Value::Text(s)) => escape_csv_field(s),
        Some(Value::Bool(b)) => {
            if *b {
                let s = string_from(&['t', 'r', 'u', 'e']);
                assert(s@ =~= word_true());
                s
            } else {
                let s = string_from(&['f', 'a', 'l', 's', 'e']);
                assert(s@ =~= word_false());
                s
            }
        },
        Some(Value::Null) => String::new(),
        Some(x) => {
            let s = show(x);
            assert(show.ensures((x,), s));
            s
        },
    }
}

impl DataDecomposer {
    /// Writes the tiles as CSV text (see [`csv_written`]).
    ///
    /// `show` writes a number, an array or an object as the text of its cell.
    pub fn reconstruct_csv<S: Fn(&Value) -> String>(tiles: &[DataTile], show: &S) -> (out: String)
        requires
            forall|x: &Value| show.requires((x,)),
        ensures
            csv_written(*show, tiles_model(tiles@), out@),
    {
        if tiles.len() == 0 {
            return String::new();
        }
        let ghost tm = tiles_model(tiles@);
        let fields = Self::schema(tiles);
        let ghost fs = string_views(fields@);
        let mut lines: Vec<String> = Vec::new();
        lines.push(join_strings(&fields, ","));
        proof {
            reveal_strlit(",");
            assert(","@ =~= comma());
            assert(fields@.map_values(|p: String| p@) == fs);
        }
        let ghost mut cells: Seq<Seq<Seq<char>>> = Seq::empty();
        let mut i: usize = 0;
        assert(string_views(lines@) =~= seq![join(fs, comma())] + cells.map_values(|row: Seq<Seq<char>>| join(row, comma())));
        while i < tiles.len()
            invariant
                i <= tiles@.len(),
                tm == tiles_model(tiles@),
                fs == string_views(fields@),
                forall|x: &Value| show.requires((x,)),
                cells.len() == i,
                forall|a: int| 0 <= a < i ==> (#[trigger] cells[a]).len() == fs.len(),
                forall|a: int, j: int|
                    0 <= a < i && 0 <= j < fs.len() ==> cell_written(*show, field_of(tm[a], fs[j]), #[trigger] cells[a][j]),
                string_views(lines@) == seq![join(fs, comma())] + cells.map_values(|row: Seq<Seq<char>>| join(row, comma())),
            decreases tiles@.len() - i,
        {
            let mut row: Vec<String> = Vec::new();
            let mut j: usize = 0;
            while j < fields.len()
                invariant
                    i < tiles@.len(),
                    j <= fields@.len(),
                    tm == tiles_model(tiles@),
                    fs == string_views(fields@),
                    forall|x: &Value| show.requires((x,)),
                    row@.len() == j,
                    forall|q: int| 0 <= q < j ==> cell_written(*show, field_of(tm[i as int], fs[q]), #[trigger] string_views(row@)[q]),
                decreases fields@.len() - j,
            {
                let v = tiles[i].values.get(fields[j].as_str());
                assert(opt_model(v) == field_of(tm[i as int], fs[j as int]));
                let ghost before = row@;
                row.push(cell_text(v, show));
                assert forall|q: int| 0 <= q < j + 1 implies cell_written(*show, field_of(tm[i as int], fs[q]), #[trigger] string_views(row@)[q]) by {
                    if q < j {
                        assert(row@[q] == before[q]);
                        assert(string_views(row@)[q] == string_views(before)[q]);
                    }
                }
                j += 1;
            }
            let line = join_strings(&row, ",");
            proof {
                reveal_strlit(",");
                assert(","@ =~= comma());
            }
            let ghost rv = string_views(row@);
            let ghost old_cells = cells;
            let ghost before = lines@;
            lines.push(line);
            proof {
                assert(row@.map_values(|p: String| p@) == rv);
                cells = cells.push(rv);
                assert forall|a: int, q: int|
                    0 <= a < i + 1 && 0 <= q < fs.len() implies cell_written(*show, field_of(tm[a], fs[q]), #[trigger] cells[a][q]) by {
                    if a < i {
                        assert(cells[a] == old_cells[a]);
                    }
                }
                assert(string_views(lines@) =~= seq![join(fs, comma())] + cells.map_values(|r: Seq<Seq<char>>| join(r, comma()))) by {
                    assert(line@ == join(rv, comma()));
                    assert(string_views(lines@) =~= string_views(before).push(join(rv, comma())));
                }
            }
            i += 1;
        }
        let out = join_strings(&lines, "\n");
        proof {
            reveal_strlit("\n");
            assert("\n"@ =~= newline());
            assert(lines@.map_values(|p: String| p@) == string_views(lines@));
            assert(rows_written(*show, tm, fs, cells));
            assert(out@ == csv_document(fs, cells));
        }
        out
    }
}

} // verus!
