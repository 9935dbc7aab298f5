//! The CSV row grammar: splitting a row into fields (with double-quoted
//! fields and doubled quotes inside them) and quoting a field for output.
use vstd::prelude::*;

use crate::text::{chars_of, join, push_char, string_of, trim, trim_range};

verus! {

/// Where the scanner of a CSV row stands with respect to quotes.
#[derive(Clone, Copy, PartialEq, Eq, Structural, Debug)]
pub enum QuoteMode {
    /// Outside any quoted section.
    Outside,
    /// Inside a quoted section.
    Inside,
    /// Just after a quote that was read inside a quoted section: a second quote
    /// makes a literal quote, anything else continues outside the section.
    AfterQuote,
}

/// What the scanner has seen: the finished fields, the field being read, the mode.
pub type CsvState = (Seq<Seq<char>>, Seq<char>, QuoteMode);

/// One character read outside a quoted section.
pub open spec fn unquoted_step(fields: Seq<Seq<char>>, cur: Seq<char>, c: char) -> CsvState {
    if c == '"' {
        (fields, cur, QuoteMode::Inside)
    } else if c == ',' {
        (fields.push(trim(cur)), Seq::<char>::empty(), QuoteMode::Outside)
    } else {
        (fields, cur.push(c), QuoteMode::Outside)
    }
}

/// One character read by the scanner.
pub open spec fn csv_step(st: CsvState, c: char) -> CsvState {
    match st.2 {
        QuoteMode::Inside => if c == '"' {
            (st.0, st.1, QuoteMode::AfterQuote)
        } else {
            (st.0, st.1.push(c), QuoteMode::Inside)
        },
        QuoteMode::AfterQuote => if c == '"' {
            (st.0, st.1.push('"'), QuoteMode::Inside)
        } else {
            unquoted_step(st.0, st.1, c)
        },
        QuoteMode::Outside => unquoted_step(st.0, st.1, c),
    }
}

/// The scanner's state after reading `s` from `st`.
pub open spec fn csv_scan_from(st: CsvState, s: Seq<char>) -> CsvState
    decreases s.len(),
{
    if s.len() == 0 {
        st
    } else {
        csv_step(csv_scan_from(st, s.drop_last()), s.last())
    }
}

/// The state in which a row starts.
pub open spec fn csv_start() -> CsvState {
    (Seq::<Seq<char>>::empty(), Seq::<char>::empty(), QuoteMode::Outside)
}

/// The fields of a CSV row, each trimmed of surrounding whitespace.
pub open spec fn csv_fields(row: Seq<char>) -> Seq<Seq<char>> {
    let st = csv_scan_from(csv_start(), row);
    st.0.push(trim(st.1))
}

/// The text with each quote doubled.
pub open spec fn double_quotes(s: Seq<char>) -> Seq<char>
    decreases s.len(),
{
    if s.len() == 0 {
        Seq::<char>::empty()
    } else {
        double_quotes(s.drop_last()) + if s.last() == '"' {
            seq!['"', '"']
        } else {
            seq![s.last()]
        }
    }
}

/// Whether a field must be quoted in CSV output.
pub open spec fn needs_quotes(s: Seq<char>) -> bool {
    s.contains(',') || s.contains('"') || s.contains('\n')
}

/// A text as a CSV field: quoted, with doubled quotes, where it holds a comma,
/// a quote or a newline; as it is otherwise.
pub open spec fn csv_escape(s: Seq<char>) -> Seq<char> {
    if needs_quotes(s) {
        seq!['"'] + double_quotes(s) + seq!['"']
    } else {
        s
    }
}

/// The views of a sequence of strings.
pub open spec fn string_views(v: Seq<String>) -> Seq<Seq<char>> {
    v.map_values(|s: String| s@)
}

/// A row written as CSV: each field escaped (see [`csv_escape`]), separated by commas.
pub open spec fn escaped_row(fields: Seq<Seq<char>>) -> Seq<char> {
    join(fields.map_values(|f: Seq<char>| csv_escape(f)), seq![','])
}

// ---------------------------------------------------------------------------
// Laws
// ---------------------------------------------------------------------------

/// Scanning two texts one after the other is scanning their concatenation.
pub proof fn lemma_scan_concat(st: CsvState, a: Seq<char>, b: Seq<char>)
    ensures
        csv_scan_from(st, a + b) == csv_scan_from(csv_scan_from(st, a), b),
    decreases b.len(),
{
    if b.len() == 0 {
        assert(a + b =~= a);
    } else {
        lemma_scan_concat(st, a, b.drop_last());
        assert((a + b).drop_last() =~= a + b.drop_last());
        assert((a + b).last() == b.last());
    }
}

/// Scanning one character is one step.
proof fn lemma_scan_one(st: CsvState, x: char)
    ensures
        csv_scan_from(st, seq![x]) == csv_step(st, x),
{
    assert(csv_scan_from(st, Seq::<char>::empty()) == st);
    assert(seq![x].drop_last() =~= Seq::<char>::empty());
    assert(seq![x].last() == x);
}

/// A text without commas and quotes is read into the current field as it is.
proof fn lemma_scan_plain(f: Seq<Seq<char>>, c: Seq<char>, t: Seq<char>)
    requires
        !t.contains(','),
        !t.contains('"'),
    ensures
        csv_scan_from((f, c, QuoteMode::Outside), t) == (f, c + t, QuoteMode::Outside),
    decreases t.len(),
{
    if t.len() == 0 {
        assert(c + t =~= c);
    } else {
        let init = t.drop_last();
        assert(!init.contains(',')) by {
            if init.contains(',') {
                let i = choose|i: int| 0 <= i < init.len() && init[i] == ',';
                assert(t[i] == ',');
            }
        }
        assert(!init.contains('"')) by {
            if init.contains('"') {
                let i = choose|i: int| 0 <= i < init.len() && init[i] == '"';
                assert(t[i] == '"');
            }
        }
        assert(t[t.len() - 1] == t.last());
        lemma_scan_plain(f, c, init);
        assert(c + t =~= (c + init).push(t.last()));
    }
}

/// Inside quotes, a text with its quotes doubled is read as the text.
proof fn lemma_scan_doubled(f: Seq<Seq<char>>, c: Seq<char>, t: Seq<char>)
    ensures
        csv_scan_from((f, c, QuoteMode::Inside), double_quotes(t)) == (f, c + t, QuoteMode::Inside),
    decreases t.len(),
{
    if t.len() == 0 {
        assert(c + t =~= c);
    } else {
        let init = t.drop_last();
        let x = t.last();
        let piece = if x == '"' {
            seq!['"', '"']
        } else {
            seq![x]
        };
        lemma_scan_doubled(f, c, init);
        lemma_scan_concat((f, c, QuoteMode::Inside), double_quotes(init), piece);
        let st = (f, c + init, QuoteMode::Inside);
        if x == '"' {
            assert(piece =~= seq!['"'] + seq!['"']);
            lemma_scan_concat(st, seq!['"'], seq!['"']);
            lemma_scan_one(st, '"');
            lemma_scan_one((f, c + init, QuoteMode::AfterQuote), '"');
        } else {
            lemma_scan_one(st, x);
        }
        assert(c + t =~= (c + init).push(x));
    }
}

/// An escaped field is read into the current field as the text, and the
/// scanner ends outside quotes or just after the closing quote.
proof fn lemma_scan_field(f: Seq<Seq<char>>, t: Seq<char>)
    ensures
        ({
            let st = csv_scan_from((f, Seq::<char>::empty(), QuoteMode::Outside), csv_escape(t));
            st.0 == f && st.1 == t && (st.2 == QuoteMode::Outside || st.2 == QuoteMode::AfterQuote)
        }),
{
    let e = Seq::<char>::empty();
    if needs_quotes(t) {
        let open = seq!['"'];
        let body = double_quotes(t);
        lemma_scan_concat((f, e, QuoteMode::Outside), open + body, seq!['"']);
        lemma_scan_concat((f, e, QuoteMode::Outside), open, body);
        lemma_scan_one((f, e, QuoteMode::Outside), '"');
        lemma_scan_doubled(f, e, t);
        assert(e + t =~= t);
        lemma_scan_one((f, t, QuoteMode::Inside), '"');
    } else {
        lemma_scan_plain(f, e, t);
        assert(e + t =~= t);
    }
}

/// After the escaped fields of a row, the scanner holds all but the last
/// field, trimmed, and reads the last one.
proof fn lemma_scan_row(fields: Seq<Seq<char>>)
    requires
        fields.len() >= 1,
    ensures
        ({
            let st = csv_scan_from(csv_start(), escaped_row(fields));
            &&& st.0 == fields.drop_last().map_values(|f: Seq<char>| trim(f))
            &&& st.1 == fields.last()
            &&& st.2 == QuoteMode::Outside || st.2 == QuoteMode::AfterQuote
        }),
    decreases fields.len(),
{
    let escs = fields.map_values(|f: Seq<char>| csv_escape(f));
    if fields.len() == 1 {
        assert(escaped_row(fields) == escs[0]);
        lemma_scan_field(Seq::<Seq<char>>::empty(), fields[0]);
        assert(fields.drop_last().map_values(|f: Seq<char>| trim(f)) =~= Seq::<Seq<char>>::empty());
    } else {
        let init = fields.drop_last();
        lemma_scan_row(init);
        assert(escs.drop_last() =~= init.map_values(|f: Seq<char>| csv_escape(f)));
        let prefix = escaped_row(init);
        assert(escaped_row(fields) == prefix + seq![','] + escs.last());
        let st1 = csv_scan_from(csv_start(), prefix);
        lemma_scan_concat(csv_start(), prefix + seq![','], escs.last());
        lemma_scan_concat(csv_start(), prefix, seq![',']);
        lemma_scan_one(st1, ',');
        let done = init.map_values(|f: Seq<char>| trim(f));
        assert(st1.0.push(trim(st1.1)) =~= done);
        assert(csv_scan_from(st1, seq![',']) == (done, Seq::<char>::empty(), QuoteMode::Outside));
        lemma_scan_field(done, fields.last());
        assert(fields.drop_last().map_values(|f: Seq<char>| trim(f)) == done);
    }
}

/// Splitting a row written as CSV gives back its fields, trimmed: what
/// [`csv_escape`] writes, [`csv_fields`] reads back.
pub proof fn lemma_csv_row_roundtrip(fields: Seq<Seq<char>>)
    requires
        fields.len() >= 1,
    ensures
        csv_fields(escaped_row(fields)) == fields.map_values(|f: Seq<char>| trim(f)),
{
    lemma_scan_row(fields);
    let st = csv_scan_from(csv_start(), escaped_row(fields));
    assert(st.0.push(trim(st.1)) =~= fields.map_values(|f: Seq<char>| trim(f)));
}

// ---------------------------------------------------------------------------
// Executable code
// ---------------------------------------------------------------------------

/// Pushes the trimmed text of `cur` as a finished field.
fn push_trimmed(fields: &mut Vec<String>, cur: &Vec<char>)
    ensures
        string_views(final(fields)@) == string_views(old(fields)@).push(trim(cur@)),
{
    let (a, b) = trim_range(cur, 0, cur.len());
    assert(cur@.subrange(0, cur@.len() as int) =~= cur@);
    let s = string_of(cur, a, b);
    fields.push(s);
    assert(string_views(fields@) =~= string_views(old(fields)@).push(trim(cur@)));
}

/// The fields of the CSV row `v[lo..hi]`.
pub fn split_csv_range(v: &Vec<char>, lo: usize, hi: usize) -> (fields: Vec<String>)
    requires
        lo <= hi <= v@.len(),
    ensures
        string_views(fields@) == csv_fields(v@.subrange(lo as int, hi as int)),
{
    let ghost row = v@.subrange(lo as int, hi as int);
    let mut fields: Vec<String> = Vec::new();
    let mut cur: Vec<char> = Vec::new();
    let mut mode = QuoteMode::Outside;
    let mut i = lo;
    assert(row.take(0) =~= Seq::<char>::empty());
    assert(string_views(fields@) =~= Seq::<Seq<char>>::empty());
    while i < hi
        invariant
            lo <= i <= hi <= v@.len(),
            row == v@.subrange(lo as int, hi as int),
            csv_scan_from(csv_start(), row.take(i - lo)) == (string_views(fields@), cur@, mode),
        decreases hi - i,
    {
        let c = v[i];
        proof {
            assert(row.take(i + 1 - lo).drop_last() =~= row.take(i - lo));
            assert(row.take(i + 1 - lo).last() == c);
        }
        match mode {
            QuoteMode::Inside => {
                if c == '"' {
                    mode = QuoteMode::AfterQuote;
                } else {
                    cur.push(c);
                }
            },
            QuoteMode::AfterQuote => {
                if c == '"' {
                    cur.push('"');
                    mode = QuoteMode::Inside;
                } else if c == ',' {
                    push_trimmed(&mut fields, &cur);
                    cur = Vec::new();
                    mode = QuoteMode::Outside;
                } else {
                    cur.push(c);
                    mode = QuoteMode::Outside;
                }
            },
            QuoteMode::Outside => {
                if c == '"' {
                    mode = QuoteMode::Inside;
                } else if c == ',' {
                    push_trimmed(&mut fields, &cur);
                    cur = Vec::new();
                } else {
                    cur.push(c);
                }
            },
        }
        assert(csv_scan_from(csv_start(), row.take(i + 1 - lo)) =~= (string_views(fields@), cur@, mode));
        i += 1;
    }
    assert(row.take(hi - lo) =~= row);
    push_trimmed(&mut fields, &cur);
    fields
}

/// The fields of a CSV row: commas separate fields, double quotes enclose
/// sections in which commas are literal, and two quotes inside such a section
/// stand for one; each field is trimmed of surrounding whitespace.
pub fn split_csv_row(line: &str) -> (fields: Vec<String>)
    ensures
        string_views(fields@) == csv_fields(line@),
{
    let v = chars_of(line);
    assert(v@.subrange(0, v@.len() as int) =~= v@);
    split_csv_range(&v, 0, v.len())
}

/// Whether a text must be quoted as a CSV field.
fn must_quote(v: &Vec<char>) -> (b: bool)
    ensures
        b == needs_quotes(v@),
{
    let mut i: usize = 0;
    while i < v.len()
        invariant
            i <= v@.len(),
            forall|k: int| 0 <= k < i ==> v@[k] != ',' && v@[k] != '"' && v@[k] != '\n',
        decreases v@.len() - i,
    {
        if v[i] == ',' || v[i] == '"' || v[i] == '\n' {
            assert(v@.contains(v@[i as int]));
            return true;
        }
        i += 1;
    }
    false
}

/// A text as a CSV field (see [`csv_escape`]).
pub fn escape_csv_field(s: &String) -> (out: String)
    ensures
        out@ == csv_escape(s@),
{
    let v = chars_of(s.as_str());
    if !must_quote(&v) {
        return s.clone();
    }
    let mut out = String::new();
    push_char(&mut out, '"');
    let mut i: usize = 0;
    assert(v@.take(0) =~= Seq::<char>::empty());
    while i < v.len()
        invariant
            i <= v@.len(),
            out@ == seq!['"'] + double_quotes(v@.take(i as int)),
        decreases v@.len() - i,
    {
        assert(v@.take(i + 1).drop_last() =~= v@.take(i as int));
        if v[i] == '"' {
            push_char(&mut out, '"');
            push_char(&mut out, '"');
        } else {
            push_char(&mut out, v[i]);
        }
        assert(out@ =~= seq!['"'] + double_quotes(v@.take(i + 1)));
        i += 1;
    }
    assert(v@.take(i as int) =~= v@);
    push_char(&mut out, '"');
    out
}

} // verus!
