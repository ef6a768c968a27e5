//! The table codec: a rectangular table of numeric values travels as one
//! message whose payload is a structured text document.
//!
//! The document is the canonical rendering of one object with one field,
//! `data`, holding an array of rows; each row is an array of strings, and
//! each string is the decimal-exponential text of one value, for example
//! `{"data":[["1e0","2e0"],["3e0","4e0"]]}`.  Values travel as text, so a
//! cell here is the byte string of one number; turning machine numbers
//! into such text and back is the caller's side of the boundary.

use vstd::prelude::*;

use crate::codec::{
    encode_spec, frame_spec, lemma_message_round_trip, lemma_no_esc_round_trip_safe, line_taken,
    round_trip_safe, LF,
};
use crate::comm::{
    received_ok, stream_stalled, CommError, Communicator,
};

verus! {

/// Double quote, the string delimiter of the document.
pub const QUOTE: u8 = 34;
/// Comma, the list separator of the document.
pub const COMMA: u8 = 44;
/// Opening bracket of an array.
pub const LBRACKET: u8 = 91;
/// Closing bracket of an array.
pub const RBRACKET: u8 = 93;
/// Opening brace of the object.
pub const LBRACE: u8 = 123;
/// Closing brace of the object.
pub const RBRACE: u8 = 125;
/// Colon, between the field name and its value.
pub const COLON: u8 = 58;
/// Backslash, which never occurs in a numeric cell.
pub const BACKSLASH: u8 = 92;

/// A byte that may stand inside a cell string without escaping: printable
/// seven-bit text that is neither a quote nor a backslash.  Numeric text
/// uses nothing else.
pub open spec fn cell_byte(b: u8) -> bool {
    32 <= b < 127 && b != QUOTE && b != BACKSLASH
}

/// Every byte of the cell is a plain printable byte.
pub open spec fn wf_cell(c: Seq<u8>) -> bool {
    forall|i: int| 0 <= i < c.len() ==> cell_byte(#[trigger] c[i])
}

/// Every cell of the table is a plain printable byte string.
pub open spec fn wf_table(t: Seq<Seq<Seq<u8>>>) -> bool {
    forall|i: int, j: int|
        0 <= i < t.len() && 0 <= j < t[i].len() ==> wf_cell(#[trigger] t[i][j])
}

/// The document bytes of one cell: the string in quotes.
pub open spec fn cell_doc(c: Seq<u8>) -> Seq<u8> {
    seq![QUOTE] + c + seq![QUOTE]
}

/// The document bytes of a non-empty list of cells: the cells, separated
/// by commas.
pub open spec fn cells_doc(r: Seq<Seq<u8>>) -> Seq<u8>
    decreases r.len(),
{
    if r.len() == 0 {
        Seq::empty()
    } else if r.len() == 1 {
        cell_doc(r[0])
    } else {
        cell_doc(r[0]) + seq![COMMA] + cells_doc(r.skip(1))
    }
}

/// The document bytes of one row: its cells in brackets.
pub open spec fn row_doc(r: Seq<Seq<u8>>) -> Seq<u8> {
    if r.len() == 0 {
        seq![LBRACKET, RBRACKET]
    } else {
        seq![LBRACKET] + cells_doc(r) + seq![RBRACKET]
    }
}

/// The document bytes of a non-empty list of rows: the rows, separated by
/// commas.
pub open spec fn rows_doc(t: Seq<Seq<Seq<u8>>>) -> Seq<u8>
    decreases t.len(),
{
    if t.len() == 0 {
        Seq::empty()
    } else if t.len() == 1 {
        row_doc(t[0])
    } else {
        row_doc(t[0]) + seq![COMMA] + rows_doc(t.skip(1))
    }
}

/// The nine bytes `{"data":[` that open every table document.
pub open spec fn table_header() -> Seq<u8> {
    seq![LBRACE, QUOTE, 100u8, 97u8, 116u8, 97u8, QUOTE, COLON, LBRACKET]
}

/// The whole document for a table.
pub open spec fn table_doc(t: Seq<Seq<Seq<u8>>>) -> Seq<u8> {
    table_header() + rows_doc(t) + seq![RBRACKET, RBRACE]
}

// ---------------------------------------------------------------------
// The parser.  It accepts exactly the canonical documents that the
// renderer above produces: both ends of a connection speak this library's
// own rendering, so nothing looser is ever on the wire.
// ---------------------------------------------------------------------

/// Parse the remainder of a cell string, the opening quote already
/// consumed: the value runs to the closing quote.
pub open spec fn parse_cell_tail(s: Seq<u8>, pos: int) -> Option<(Seq<u8>, int)>
    decreases s.len() - pos,
{
    if pos < 0 || pos >= s.len() {
        None
    } else if s[pos] == QUOTE {
        Some((Seq::empty(), pos + 1))
    } else if cell_byte(s[pos]) {
        match parse_cell_tail(s, pos + 1) {
            Some((c, j)) => Some((seq![s[pos]] + c, j)),
            None => None,
        }
    } else {
        None
    }
}

/// Parse one quoted cell string starting at `pos`.
pub open spec fn parse_cell(s: Seq<u8>, pos: int) -> Option<(Seq<u8>, int)> {
    if 0 <= pos < s.len() && s[pos] == QUOTE {
        parse_cell_tail(s, pos + 1)
    } else {
        None
    }
}

/// Parse a non-empty comma-separated list of cells and the bracket that
/// closes it.
pub open spec fn parse_cells(s: Seq<u8>, pos: int) -> Option<(Seq<Seq<u8>>, int)>
    decreases s.len() - pos,
{
    match parse_cell(s, pos) {
        Some((c, j)) => {
            if j <= pos || j >= s.len() {
                None
            } else if s[j] == COMMA {
                match parse_cells(s, j + 1) {
                    Some((cs, k)) => Some((seq![c] + cs, k)),
                    None => None,
                }
            } else if s[j] == RBRACKET {
                Some((seq![c], j + 1))
            } else {
                None
            }
        },
        None => None,
    }
}

/// Parse one row: a bracketed, possibly empty list of cells.
pub open spec fn parse_row(s: Seq<u8>, pos: int) -> Option<(Seq<Seq<u8>>, int)> {
    if 0 <= pos && pos + 1 < s.len() && s[pos] == LBRACKET {
        if s[pos + 1] == RBRACKET {
            Some((Seq::empty(), pos + 2))
        } else {
            parse_cells(s, pos + 1)
        }
    } else {
        None
    }
}

/// Parse a non-empty comma-separated list of rows and the bracket that
/// closes it.
pub open spec fn parse_rows(s: Seq<u8>, pos: int) -> Option<(Seq<Seq<Seq<u8>>>, int)>
    decreases s.len() - pos,
{
    match parse_row(s, pos) {
        Some((r, j)) => {
            if j <= pos || j >= s.len() {
                None
            } else if s[j] == COMMA {
                match parse_rows(s, j + 1) {
                    Some((rs, k)) => Some((seq![r] + rs, k)),
                    None => None,
                }
            } else if s[j] == RBRACKET {
                Some((seq![r], j + 1))
            } else {
                None
            }
        },
        None => None,
    }
}

/// Parse a whole table document, or nothing if the bytes are not the
/// canonical rendering of some table.
pub open spec fn parse_table(s: Seq<u8>) -> Option<Seq<Seq<Seq<u8>>>> {
    if s.len() >= 11 && s.subrange(0, 9) == table_header() {
        if s[9] == RBRACKET {
            if s.len() == 11 && s[10] == RBRACE {
                Some(Seq::empty())
            } else {
                None
            }
        } else {
            match parse_rows(s, 9) {
                Some((rs, j)) => {
                    if j + 1 == s.len() && s[j] == RBRACE {
                        Some(rs)
                    } else {
                        None
                    }
                },
                None => None,
            }
        }
    } else {
        None
    }
}

// ---------------------------------------------------------------------
// Round trip: the parser inverts the renderer.
// ---------------------------------------------------------------------

proof fn lemma_parse_cell_tail_round(c: Seq<u8>, s: Seq<u8>, pos: int)
    requires
        wf_cell(c),
        0 <= pos,
        pos + c.len() + 1 <= s.len(),
        forall|k: int| 0 <= k < c.len() ==> s[pos + k] == #[trigger] c[k],
        s[pos + c.len()] == QUOTE,
    ensures
        parse_cell_tail(s, pos) == Some((c, pos + c.len() + 1)),
    decreases c.len(),
{
    if c.len() == 0 {
        assert(s[pos] == QUOTE);
        assert(c =~= Seq::<u8>::empty());
    } else {
        assert(s[pos] == c[0]);
        assert(cell_byte(c[0]));
        assert forall|k: int| 0 <= k < c.skip(1).len() implies s[pos + 1 + k] == #[trigger] c.skip(
            1,
        )[k] by {
            assert(c.skip(1)[k] == c[1 + k]);
        }
        assert(s[pos + 1 + c.skip(1).len()] == QUOTE);
        lemma_parse_cell_tail_round(c.skip(1), s, pos + 1);
        assert(parse_cell_tail(s, pos + 1) == Some((c.skip(1), pos + c.len() + 1)));
        assert(seq![c[0]] + c.skip(1) =~= c);
    }
}

proof fn lemma_parse_cell_round(c: Seq<u8>, s: Seq<u8>, pos: int)
    requires
        wf_cell(c),
        0 <= pos,
        pos + c.len() + 2 <= s.len(),
        forall|k: int| 0 <= k < cell_doc(c).len() ==> s[pos + k] == #[trigger] cell_doc(c)[k],
    ensures
        parse_cell(s, pos) == Some((c, pos + c.len() + 2)),
{
    let doc = cell_doc(c);
    assert(doc.len() == c.len() + 2);
    assert(s[pos] == doc[0] && doc[0] == QUOTE);
    assert forall|k: int| 0 <= k < c.len() implies s[pos + 1 + k] == #[trigger] c[k] by {
        assert(doc[1 + k] == c[k]);
        assert(s[pos + (1 + k)] == doc[1 + k]);
    }
    assert(doc[1 + c.len() as int] == QUOTE);
    assert(s[pos + (1 + c.len() as int)] == doc[1 + c.len() as int]);
    lemma_parse_cell_tail_round(c, s, pos + 1);
}

proof fn lemma_parse_cells_round(r: Seq<Seq<u8>>, s: Seq<u8>, pos: int)
    requires
        r.len() >= 1,
        forall|q: int| 0 <= q < r.len() ==> wf_cell(#[trigger] r[q]),
        0 <= pos,
        pos + cells_doc(r).len() + 1 <= s.len(),
        forall|k: int| 0 <= k < cells_doc(r).len() ==> s[pos + k] == #[trigger] cells_doc(r)[k],
        s[pos + cells_doc(r).len()] == RBRACKET,
    ensures
        parse_cells(s, pos) == Some((r, pos + cells_doc(r).len() + 1)),
    decreases r.len(),
{
    let doc = cells_doc(r);
    let c0 = cell_doc(r[0]);
    assert(wf_cell(r[0]));
    if r.len() == 1 {
        assert(doc == c0);
        assert forall|k: int| 0 <= k < c0.len() implies s[pos + k] == #[trigger] c0[k] by {
            assert(doc[k] == c0[k]);
        }
        lemma_parse_cell_round(r[0], s, pos);
        let j = pos + r[0].len() + 2;
        assert(j == pos + doc.len());
        assert(s[j] == RBRACKET);
        assert(seq![r[0]] =~= r);
    } else {
        assert(doc == c0 + seq![COMMA] + cells_doc(r.skip(1)));
        let rest = cells_doc(r.skip(1));
        assert(doc.len() == c0.len() + 1 + rest.len());
        assert forall|k: int| 0 <= k < c0.len() implies s[pos + k] == #[trigger] c0[k] by {
            assert(doc[k] == c0[k]);
            assert(s[pos + k] == doc[k]);
        }
        lemma_parse_cell_round(r[0], s, pos);
        let j = pos + r[0].len() + 2;
        assert(j == pos + c0.len());
        assert(doc[c0.len() as int] == COMMA);
        assert(s[pos + c0.len() as int] == doc[c0.len() as int]);
        assert(s[j] == COMMA);
        assert forall|q: int| 0 <= q < r.skip(1).len() implies wf_cell(#[trigger] r.skip(1)[q]) by {
            assert(r.skip(1)[q] == r[1 + q]);
            assert(wf_cell(r[1 + q]));
        }
        assert forall|k: int| 0 <= k < rest.len() implies s[j + 1 + k] == #[trigger] rest[k] by {
            assert(doc[c0.len() + 1 + k] == rest[k]);
            assert(s[pos + (c0.len() + 1 + k)] == doc[c0.len() + 1 + k]);
        }
        assert(s[j + 1 + rest.len()] == RBRACKET) by {
            assert(j + 1 + rest.len() == pos + doc.len());
        }
        lemma_parse_cells_round(r.skip(1), s, j + 1);
        assert(parse_cells(s, j + 1) == Some((r.skip(1), j + 1 + rest.len() + 1)));
        assert(j + 1 + rest.len() + 1 == pos + doc.len() + 1);
        assert(seq![r[0]] + r.skip(1) =~= r);
    }
}

proof fn lemma_parse_row_round(r: Seq<Seq<u8>>, s: Seq<u8>, pos: int)
    requires
        forall|q: int| 0 <= q < r.len() ==> wf_cell(#[trigger] r[q]),
        0 <= pos,
        pos + row_doc(r).len() + 1 <= s.len(),
        forall|k: int| 0 <= k < row_doc(r).len() ==> s[pos + k] == #[trigger] row_doc(r)[k],
    ensures
        parse_row(s, pos) == Some((r, pos + row_doc(r).len())),
{
    let doc = row_doc(r);
    assert(doc[0] == LBRACKET);
    assert(s[pos + 0] == doc[0]);
    assert(s[pos] == LBRACKET);
    if r.len() == 0 {
        assert(doc[1] == RBRACKET);
        assert(s[pos + 1] == doc[1]);
        assert(r =~= Seq::<Seq<u8>>::empty());
    } else {
        let inner = cells_doc(r);
        assert(doc == seq![LBRACKET] + inner + seq![RBRACKET]);
        assert(inner[0] == cell_doc(r[0])[0]) by {
            if r.len() == 1 {
            } else {
                assert(inner == cell_doc(r[0]) + seq![COMMA] + cells_doc(r.skip(1)));
            }
            assert(cell_doc(r[0]).len() >= 1);
        }
        assert(doc[1] == inner[0] && inner[0] == QUOTE);
        assert(s[pos + 1] == doc[1]);
        assert forall|k: int| 0 <= k < inner.len() implies s[pos + 1 + k] == #[trigger] inner[k] by {
            assert(doc[1 + k] == inner[k]);
            assert(s[pos + (1 + k)] == doc[1 + k]);
        }
        assert(doc[1 + inner.len() as int] == RBRACKET);
        assert(s[pos + (1 + inner.len() as int)] == doc[1 + inner.len() as int]);
        assert(s[pos + 1 + inner.len()] == RBRACKET);
        lemma_parse_cells_round(r, s, pos + 1);
        assert(parse_cells(s, pos + 1) == Some((r, pos + 1 + inner.len() + 1)));
        assert(pos + 1 + inner.len() + 1 == pos + doc.len());
    }
}

proof fn lemma_parse_rows_round(t: Seq<Seq<Seq<u8>>>, s: Seq<u8>, pos: int)
    requires
        t.len() >= 1,
        wf_table(t),
        0 <= pos,
        pos + rows_doc(t).len() + 1 <= s.len(),
        forall|k: int| 0 <= k < rows_doc(t).len() ==> s[pos + k] == #[trigger] rows_doc(t)[k],
        s[pos + rows_doc(t).len()] == RBRACKET,
    ensures
        parse_rows(s, pos) == Some((t, pos + rows_doc(t).len() + 1)),
    decreases t.len(),
{
    let doc = rows_doc(t);
    let r0 = row_doc(t[0]);
    assert forall|q: int| 0 <= q < t[0].len() implies wf_cell(#[trigger] t[0][q]) by {
        assert(wf_cell(t[0][q]));
    }
    if t.len() == 1 {
        assert(doc == r0);
        assert forall|k: int| 0 <= k < r0.len() implies s[pos + k] == #[trigger] r0[k] by {
            assert(doc[k] == r0[k]);
        }
        lemma_parse_row_round(t[0], s, pos);
        let j = pos + r0.len();
        assert(j == pos + doc.len());
        assert(s[j] == RBRACKET);
        assert(seq![t[0]] =~= t);
    } else {
        assert(doc == r0 + seq![COMMA] + rows_doc(t.skip(1)));
        let rest = rows_doc(t.skip(1));
        assert(doc.len() == r0.len() + 1 + rest.len());
        assert forall|k: int| 0 <= k < r0.len() implies s[pos + k] == #[trigger] r0[k] by {
            assert(doc[k] == r0[k]);
            assert(s[pos + k] == doc[k]);
        }
        lemma_parse_row_round(t[0], s, pos);
        let j = pos + r0.len();
        assert(doc[r0.len() as int] == COMMA);
        assert(s[pos + r0.len() as int] == doc[r0.len() as int]);
        assert(s[j] == COMMA);
        assert forall|i: int, q: int|
            0 <= i < t.skip(1).len() && 0 <= q < t.skip(1)[i].len() implies wf_cell(
            #[trigger] t.skip(1)[i][q],
        ) by {
            assert(t.skip(1)[i] == t[1 + i]);
            assert(wf_cell(t[1 + i][q]));
        }
        assert forall|k: int| 0 <= k < rest.len() implies s[j + 1 + k] == #[trigger] rest[k] by {
            assert(doc[r0.len() + 1 + k] == rest[k]);
            assert(s[pos + (r0.len() + 1 + k)] == doc[r0.len() + 1 + k]);
        }
        assert(s[j + 1 + rest.len()] == RBRACKET) by {
            assert(j + 1 + rest.len() == pos + doc.len());
        }
        lemma_parse_rows_round(t.skip(1), s, j + 1);
        assert(parse_rows(s, j + 1) == Some((t.skip(1), j + 1 + rest.len() + 1)));
        assert(j + 1 + rest.len() + 1 == pos + doc.len() + 1);
        assert(seq![t[0]] + t.skip(1) =~= t);
    }
}

/// Law (table document round trip): parsing the rendered document of any
/// table of plain printable cells gives exactly that table back.
pub proof fn lemma_table_doc_round_trip(t: Seq<Seq<Seq<u8>>>)
    requires
        wf_table(t),
    ensures
        parse_table(table_doc(t)) == Some(t),
{
    let s = table_doc(t);
    let hdr = table_header();
    assert(hdr.len() == 9);
    if t.len() == 0 {
        assert(rows_doc(t) == Seq::<u8>::empty());
        assert(s =~= hdr + seq![RBRACKET, RBRACE]);
        assert(s.len() == 11);
        assert(s.subrange(0, 9) =~= hdr);
        assert(s[9] == RBRACKET);
        assert(s[10] == RBRACE);
    } else {
        let body = rows_doc(t);
        assert(s.len() == 11 + body.len());
        assert(s.subrange(0, 9) =~= hdr);
        assert(body[0] == LBRACKET) by {
            let r0 = row_doc(t[0]);
            if t.len() == 1 {
            } else {
                assert(body == r0 + seq![COMMA] + rows_doc(t.skip(1)));
            }
            assert(r0.len() >= 2);
            assert(r0[0] == LBRACKET);
        }
        assert(s[9] == body[0]);
        assert(s[9] != RBRACKET);
        assert forall|k: int| 0 <= k < body.len() implies s[9 + k] == #[trigger] body[k] by {
            assert(s[9 + k] == (hdr + body + seq![RBRACKET, RBRACE])[9 + k]);
        }
        assert(s[9 + body.len() as int] == RBRACKET);
        lemma_parse_rows_round(t, s, 9);
        assert(parse_rows(s, 9) == Some((t, 9 + body.len() as int + 1)));
        assert(9 + body.len() as int + 1 == s.len() - 1);
        assert(s[s.len() - 1] == RBRACE);
    }
}

// ---------------------------------------------------------------------
// Executable renderer.
// ---------------------------------------------------------------------

/// Append every byte of `s` to `out`.
fn push_all(out: &mut Vec<u8>, s: &[u8])
    ensures
        final(out)@ == old(out)@ + s@,
{
    let mut i: usize = 0;
    while i < s.len()
        invariant
            i <= s@.len(),
            out@ == old(out)@ + s@.take(i as int),
        decreases s@.len() - i,
    {
        out.push(s[i]);
        assert(old(out)@ + s@.take(i as int) + seq![s@[i as int]] =~= old(out)@ + s@.take(i + 1));
        i = i + 1;
    }
    assert(s@.take(s@.len() as int) =~= s@);
}

/// Append the document bytes of one cell to `out`.
fn render_cell(c: &Vec<u8>, out: &mut Vec<u8>)
    ensures
        final(out)@ == old(out)@ + cell_doc(c@),
{
    out.push(QUOTE);
    push_all(out, c.as_slice());
    out.push(QUOTE);
    assert(old(out)@ + seq![QUOTE] + c@ + seq![QUOTE] =~= old(out)@ + cell_doc(c@));
}

/// Append the document bytes of the cells of one row, from index `i` on,
/// separated by commas.
fn render_cells(r: &Vec<Vec<u8>>, i: usize, out: &mut Vec<u8>)
    requires
        i < r@.len(),
    ensures
        final(out)@ == old(out)@ + cells_doc(r.deep_view().skip(i as int)),
    decreases r@.len() - i,
{
    let ghost tail = r.deep_view().skip(i as int);
    let n = r.len();
    render_cell(&r[i], out);
    proof {
        assert(r.deep_view()[i as int] == r@[i as int]@);
        assert(tail[0] == r.deep_view()[i as int]);
    }
    if i + 1 < n {
        out.push(COMMA);
        render_cells(r, i + 1, out);
        proof {
            assert(tail.skip(1) =~= r.deep_view().skip(i + 1));
            assert(cells_doc(tail) == cell_doc(tail[0]) + seq![COMMA] + cells_doc(tail.skip(1)));
            assert(old(out)@ + cell_doc(tail[0]) + seq![COMMA] + cells_doc(tail.skip(1)) =~= old(
                out,
            )@ + cells_doc(tail));
        }
    } else {
        proof {
            assert(tail.len() == 1);
            assert(cells_doc(tail) == cell_doc(tail[0]));
        }
    }
}

/// Append the document bytes of one row to `out`.
fn render_row(r: &Vec<Vec<u8>>, out: &mut Vec<u8>)
    ensures
        final(out)@ == old(out)@ + row_doc(r.deep_view()),
{
    out.push(LBRACKET);
    if r.len() == 0 {
        out.push(RBRACKET);
        assert(old(out)@ + seq![LBRACKET] + seq![RBRACKET] =~= old(out)@ + row_doc(r.deep_view()));
    } else {
        render_cells(r, 0, out);
        out.push(RBRACKET);
        proof {
            assert(r.deep_view().skip(0) =~= r.deep_view());
            assert(old(out)@ + seq![LBRACKET] + cells_doc(r.deep_view()) + seq![RBRACKET] =~= old(
                out,
            )@ + row_doc(r.deep_view()));
        }
    }
}

/// Append the document bytes of the rows of the table, from index `i` on,
/// separated by commas.
fn render_rows(t: &Vec<Vec<Vec<u8>>>, i: usize, out: &mut Vec<u8>)
    requires
        i < t@.len(),
    ensures
        final(out)@ == old(out)@ + rows_doc(t.deep_view().skip(i as int)),
    decreases t@.len() - i,
{
    let ghost tail = t.deep_view().skip(i as int);
    let n = t.len();
    render_row(&t[i], out);
    proof {
        assert(t.deep_view()[i as int] == t@[i as int].deep_view());
        assert(tail[0] == t.deep_view()[i as int]);
    }
    if i + 1 < n {
        out.push(COMMA);
        render_rows(t, i + 1, out);
        proof {
            assert(tail.skip(1) =~= t.deep_view().skip(i + 1));
            assert(rows_doc(tail) == row_doc(tail[0]) + seq![COMMA] + rows_doc(tail.skip(1)));
            assert(old(out)@ + row_doc(tail[0]) + seq![COMMA] + rows_doc(tail.skip(1)) =~= old(
                out,
            )@ + rows_doc(tail));
        }
    } else {
        proof {
            assert(tail.len() == 1);
            assert(rows_doc(tail) == row_doc(tail[0]));
        }
    }
}

/// Render the whole document for a table.
pub fn render_table(t: &Vec<Vec<Vec<u8>>>) -> (r: Vec<u8>)
    ensures
        r@ == table_doc(t.deep_view()),
{
    let mut out: Vec<u8> = Vec::new();
    out.push(LBRACE);
    out.push(QUOTE);
    out.push(100);
    out.push(97);
    out.push(116);
    out.push(97);
    out.push(QUOTE);
    out.push(COLON);
    out.push(LBRACKET);
    assert(out@ =~= table_header());
    if t.len() > 0 {
        render_rows(t, 0, &mut out);
        proof {
            assert(t.deep_view().skip(0) =~= t.deep_view());
        }
    } else {
        proof {
            assert(rows_doc(t.deep_view()) == Seq::<u8>::empty());
            assert(table_header() + rows_doc(t.deep_view()) =~= table_header());
        }
    }
    out.push(RBRACKET);
    out.push(RBRACE);
    proof {
        assert(table_header() + rows_doc(t.deep_view()) + seq![RBRACKET] + seq![RBRACE] =~= table_doc(
            t.deep_view(),
        ));
    }
    out
}

// ---------------------------------------------------------------------
// Executable parser.
// ---------------------------------------------------------------------

/// Whether `b` may stand inside a cell string.
fn is_cell_byte(b: u8) -> (r: bool)
    ensures
        r == cell_byte(b),
{
    32 <= b && b < 127 && b != QUOTE && b != BACKSLASH
}

fn p_cell_tail(s: &[u8], pos: usize) -> (r: Option<(Vec<u8>, usize)>)
    ensures
        match r {
            Some((c, j)) => parse_cell_tail(s@, pos as int) == Some((c@, j as int)) && pos < j
                <= s@.len(),
            None => parse_cell_tail(s@, pos as int) is None,
        },
    decreases s@.len() - pos,
{
    if pos >= s.len() {
        return None;
    }
    let b = s[pos];
    if b == QUOTE {
        Some((Vec::new(), pos + 1))
    } else if is_cell_byte(b) {
        match p_cell_tail(s, pos + 1) {
            Some((mut c, j)) => {
                let ghost cv = c@;
                c.insert(0, b);
                proof {
                    assert(c@ =~= seq![s@[pos as int]] + cv);
                }
                Some((c, j))
            },
            None => None,
        }
    } else {
        None
    }
}

fn p_cell(s: &[u8], pos: usize) -> (r: Option<(Vec<u8>, usize)>)
    ensures
        match r {
            Some((c, j)) => parse_cell(s@, pos as int) == Some((c@, j as int)) && pos < j
                <= s@.len(),
            None => parse_cell(s@, pos as int) is None,
        },
{
    if pos < s.len() && s[pos] == QUOTE {
        p_cell_tail(s, pos + 1)
    } else {
        None
    }
}

fn p_cells(s: &[u8], pos: usize) -> (r: Option<(Vec<Vec<u8>>, usize)>)
    ensures
        match r {
            Some((cs, j)) => parse_cells(s@, pos as int) == Some((cs.deep_view(), j as int)) && pos
                < j <= s@.len(),
            None => parse_cells(s@, pos as int) is None,
        },
    decreases s@.len() - pos,
{
    match p_cell(s, pos) {
        Some((c, j)) => {
            if j >= s.len() {
                None
            } else if s[j] == COMMA {
                match p_cells(s, j + 1) {
                    Some((mut cs, k)) => {
                        let ghost dv = cs.deep_view();
                        cs.insert(0, c);
                        proof {
                            assert(cs.deep_view() =~~= seq![c@] + dv);
                        }
                        Some((cs, k))
                    },
                    None => None,
                }
            } else if s[j] == RBRACKET {
                let mut cs: Vec<Vec<u8>> = Vec::new();
                cs.push(c);
                proof {
                    assert(cs.deep_view() =~~= seq![c@]);
                }
                Some((cs, j + 1))
            } else {
                None
            }
        },
        None => None,
    }
}

fn p_row(s: &[u8], pos: usize) -> (r: Option<(Vec<Vec<u8>>, usize)>)
    ensures
        match r {
            Some((cs, j)) => parse_row(s@, pos as int) == Some((cs.deep_view(), j as int)) && pos
                < j <= s@.len(),
            None => parse_row(s@, pos as int) is None,
        },
{
    if pos < s.len() && pos + 1 < s.len() && s[pos] == LBRACKET {
        if s[pos + 1] == RBRACKET {
            let cs: Vec<Vec<u8>> = Vec::new();
            proof {
                assert(cs.deep_view() =~= Seq::<Seq<u8>>::empty());
            }
            Some((cs, pos + 2))
        } else {
            p_cells(s, pos + 1)
        }
    } else {
        None
    }
}

fn p_rows(s: &[u8], pos: usize) -> (r: Option<(Vec<Vec<Vec<u8>>>, usize)>)
    ensures
        match r {
            Some((rs, j)) => parse_rows(s@, pos as int) == Some((rs.deep_view(), j as int)) && pos
                < j <= s@.len(),
            None => parse_rows(s@, pos as int) is None,
        },
    decreases s@.len() - pos,
{
    match p_row(s, pos) {
        Some((rw, j)) => {
            if j >= s.len() {
                None
            } else if s[j] == COMMA {
                match p_rows(s, j + 1) {
                    Some((mut rs, k)) => {
                        let ghost dv = rs.deep_view();
                        rs.insert(0, rw);
                        proof {
                            assert(rs.deep_view() =~~= seq![rw.deep_view()] + dv);
                        }
                        Some((rs, k))
                    },
                    None => None,
                }
            } else if s[j] == RBRACKET {
                let mut rs: Vec<Vec<Vec<u8>>> = Vec::new();
                rs.push(rw);
                proof {
                    assert(rs.deep_view() =~~= seq![rw.deep_view()]);
                }
                Some((rs, j + 1))
            } else {
                None
            }
        },
        None => None,
    }
}

/// Parse a whole received payload as a table document.
pub fn p_table(s: &Vec<u8>) -> (r: Option<Vec<Vec<Vec<u8>>>>)
    ensures
        match r {
            Some(rs) => parse_table(s@) == Some(rs.deep_view()),
            None => parse_table(s@) is None,
        },
{
    if s.len() < 11 {
        return None;
    }
    if !(s[0] == LBRACE && s[1] == QUOTE && s[2] == 100 && s[3] == 97 && s[4] == 116 && s[5] == 97
        && s[6] == QUOTE && s[7] == COLON && s[8] == LBRACKET) {
        proof {
            assert(s@.subrange(0, 9) != table_header()) by {
                if s@.subrange(0, 9) == table_header() {
                    assert(s@[0] == table_header()[0]);
                    assert(s@[1] == table_header()[1]);
                    assert(s@[2] == table_header()[2]);
                    assert(s@[3] == table_header()[3]);
                    assert(s@[4] == table_header()[4]);
                    assert(s@[5] == table_header()[5]);
                    assert(s@[6] == table_header()[6]);
                    assert(s@[7] == table_header()[7]);
                    assert(s@[8] == table_header()[8]);
                }
            }
        }
        return None;
    }
    proof {
        assert(s@.subrange(0, 9) =~= table_header());
    }
    if s[9] == RBRACKET {
        if s.len() == 11 && s[10] == RBRACE {
            let rs: Vec<Vec<Vec<u8>>> = Vec::new();
            proof {
                assert(rs.deep_view() =~= Seq::<Seq<Seq<u8>>>::empty());
            }
            Some(rs)
        } else {
            None
        }
    } else {
        match p_rows(s.as_slice(), 9) {
            Some((rs, j)) => {
                if j == s.len() - 1 && s[j] == RBRACE {
                    Some(rs)
                } else {
                    None
                }
            },
            None => None,
        }
    }
}


// ---------------------------------------------------------------------
// Numeric text.  A received cell counts as a value only if a 64-bit
// float parser accepts it: an optional sign, then `inf`, `infinity` or
// `nan` in any letter case, or digits with an optional fraction dot and
// an optional decimal exponent.
// ---------------------------------------------------------------------

/// Plus sign.
pub const PLUS: u8 = 43;
/// Minus sign.
pub const MINUS: u8 = 45;
/// Decimal point.
pub const DOT: u8 = 46;
/// Lower-case `e`, introducing an exponent.
pub const LOW_E: u8 = 101;
/// Upper-case `E`, introducing an exponent.
pub const UP_E: u8 = 69;

/// A decimal digit.
pub open spec fn is_digit(b: u8) -> bool {
    48 <= b <= 57
}

/// Every byte is a decimal digit.
pub open spec fn all_digits(s: Seq<u8>) -> bool {
    forall|i: int| 0 <= i < s.len() ==> is_digit(#[trigger] s[i])
}

/// One or more decimal digits.
pub open spec fn is_count(s: Seq<u8>) -> bool {
    s.len() > 0 && all_digits(s)
}

/// The text without its optional leading sign.
pub open spec fn strip_sign(s: Seq<u8>) -> Seq<u8> {
    if s.len() > 0 && (s[0] == PLUS || s[0] == MINUS) {
        s.skip(1)
    } else {
        s
    }
}

/// The byte with an upper-case letter folded to lower case.
pub open spec fn lower(b: u8) -> u8 {
    if 65 <= b <= 90 {
        (b + 32) as u8
    } else {
        b
    }
}

/// `inf`, `infinity` or `nan`, in any letter case.
pub open spec fn is_special(t: Seq<u8>) -> bool {
    ||| (t.len() == 3 && lower(t[0]) == 105 && lower(t[1]) == 110 && lower(t[2]) == 102)
    ||| (t.len() == 8 && lower(t[0]) == 105 && lower(t[1]) == 110 && lower(t[2]) == 102 && lower(
        t[3],
    ) == 105 && lower(t[4]) == 110 && lower(t[5]) == 105 && lower(t[6]) == 116 && lower(t[7])
        == 121)
    ||| (t.len() == 3 && lower(t[0]) == 110 && lower(t[1]) == 97 && lower(t[2]) == 110)
}

/// Digits, or digits around one decimal point with at least one digit
/// somewhere.
pub open spec fn is_mantissa(m: Seq<u8>) -> bool {
    ||| is_count(m)
    ||| (exists|d: int|
        0 <= d < m.len() && (#[trigger] m[d]) == DOT && m.len() >= 2 && (forall|i: int|
            0 <= i < m.len() && i != d ==> is_digit(#[trigger] m[i])))
}

/// An exponent body: an optional sign, then one or more digits.
pub open spec fn exp_part(x: Seq<u8>) -> bool {
    is_count(strip_sign(x))
}

/// A mantissa, optionally followed by `e` or `E` and an exponent.
pub open spec fn is_number(t: Seq<u8>) -> bool {
    ||| is_mantissa(t)
    ||| (exists|e: int|
        0 <= e < t.len() && ((#[trigger] t[e]) == LOW_E || t[e] == UP_E) && is_mantissa(t.take(e))
            && exp_part(t.skip(e + 1)))
}

/// The texts a 64-bit float parser accepts.
pub open spec fn is_float_text(s: Seq<u8>) -> bool {
    is_special(strip_sign(s)) || is_number(strip_sign(s))
}

/// Every cell of the table is numeric text.
pub open spec fn float_table(t: Seq<Seq<Seq<u8>>>) -> bool {
    forall|i: int, j: int|
        0 <= i < t.len() && 0 <= j < t[i].len() ==> is_float_text(#[trigger] t[i][j])
}

/// A byte of a mantissa is a digit or the decimal point.
proof fn lemma_mantissa_bytes(m: Seq<u8>, i: int)
    requires
        is_mantissa(m),
        0 <= i < m.len(),
    ensures
        is_digit(m[i]) || m[i] == DOT,
{
    if is_count(m) {
        assert(is_digit(m[i]));
    } else {
        let d = choose|d: int|
            0 <= d < m.len() && (#[trigger] m[d]) == DOT && m.len() >= 2 && (forall|k: int|
                0 <= k < m.len() && k != d ==> is_digit(#[trigger] m[k]));
        if i != d {
            assert(is_digit(m[i]));
        }
    }
}

/// A byte of an exponent body is a digit or a leading sign.
proof fn lemma_exp_bytes(x: Seq<u8>, i: int)
    requires
        exp_part(x),
        0 <= i < x.len(),
    ensures
        is_digit(x[i]) || (i == 0 && (x[0] == PLUS || x[0] == MINUS)),
{
    let y = strip_sign(x);
    if x.len() > 0 && (x[0] == PLUS || x[0] == MINUS) {
        if i > 0 {
            assert(y[i - 1] == x[i]);
            assert(is_digit(y[i - 1]));
        }
    } else {
        assert(y[i] == x[i]);
        assert(is_digit(y[i]));
    }
}

/// Numeric text never holds a quote, a backslash or an unprintable byte,
/// so it may always stand inside a document string.
pub proof fn lemma_float_text_wf(c: Seq<u8>)
    requires
        is_float_text(c),
    ensures
        wf_cell(c),
{
    let t = strip_sign(c);
    let signed = c.len() > 0 && (c[0] == PLUS || c[0] == MINUS);
    assert forall|i: int| 0 <= i < c.len() implies cell_byte(#[trigger] c[i]) by {
        if signed && i == 0 {
        } else {
            let ti = if signed { i - 1 } else { i };
            assert(t[ti] == c[i]);
            if is_special(t) {
                assert(cell_byte(t[ti])) by {
                    assert(lower(t[ti]) == t[ti] || lower(t[ti]) == t[ti] + 32);
                }
            } else if is_mantissa(t) {
                lemma_mantissa_bytes(t, ti);
            } else {
                let e = choose|e: int|
                    0 <= e < t.len() && ((#[trigger] t[e]) == LOW_E || t[e] == UP_E) && is_mantissa(
                        t.take(e),
                    ) && exp_part(t.skip(e + 1));
                if ti < e {
                    assert(t.take(e)[ti] == t[ti]);
                    lemma_mantissa_bytes(t.take(e), ti);
                } else if ti == e {
                } else {
                    assert(t.skip(e + 1)[ti - (e + 1)] == t[ti]);
                    lemma_exp_bytes(t.skip(e + 1), ti - (e + 1));
                }
            }
        }
    }
}

/// A table of numeric text is a table of plain printable cells.
pub proof fn lemma_float_table_wf(t: Seq<Seq<Seq<u8>>>)
    requires
        float_table(t),
    ensures
        wf_table(t),
{
    assert forall|i: int, j: int|
        0 <= i < t.len() && 0 <= j < t[i].len() implies wf_cell(#[trigger] t[i][j]) by {
        lemma_float_text_wf(t[i][j]);
    }
}

/// Law (table round trip): the rendered document of any table of numeric
/// text cells parses back to exactly that table.
pub proof fn lemma_table_round_trip(t: Seq<Seq<Seq<u8>>>)
    requires
        float_table(t),
    ensures
        parse_table(table_doc(t)) == Some(t),
{
    lemma_float_table_wf(t);
    lemma_table_doc_round_trip(t);
}


/// Fold one upper-case letter to lower case.
fn lower_byte(b: u8) -> (r: u8)
    ensures
        r == lower(b),
{
    if 65 <= b && b <= 90 {
        b + 32
    } else {
        b
    }
}

/// Whether the bytes of `s` from `a` up to `b` are one or more digits.
fn check_count(s: &Vec<u8>, a: usize, b: usize) -> (r: bool)
    requires
        a <= b <= s@.len(),
    ensures
        r == is_count(s@.subrange(a as int, b as int)),
{
    let ghost sub = s@.subrange(a as int, b as int);
    if a == b {
        return false;
    }
    let mut i: usize = a;
    while i < b
        invariant
            a <= i <= b <= s@.len(),
            sub == s@.subrange(a as int, b as int),
            forall|k: int| a <= k < i ==> is_digit(#[trigger] s@[k]),
        decreases b - i,
    {
        let c = s[i];
        if !(48 <= c && c <= 57) {
            proof {
                assert(sub[i - a] == s@[i as int]);
                assert(!is_digit(sub[i - a]));
            }
            return false;
        }
        i = i + 1;
    }
    proof {
        assert forall|k: int| 0 <= k < sub.len() implies is_digit(#[trigger] sub[k]) by {
            assert(sub[k] == s@[a + k]);
        }
    }
    true
}

/// Whether the bytes of `s` from `a` up to `b` are `inf`, `infinity` or
/// `nan` in any letter case.
fn check_special(s: &Vec<u8>, a: usize, b: usize) -> (r: bool)
    requires
        a <= b <= s@.len(),
    ensures
        r == is_special(s@.subrange(a as int, b as int)),
{
    let ghost sub = s@.subrange(a as int, b as int);
    let len = b - a;
    if len == 3 {
        proof {
            assert(sub[0] == s@[a as int]);
            assert(sub[1] == s@[a + 1]);
            assert(sub[2] == s@[a + 2]);
        }
        let c0 = lower_byte(s[a]);
        let c1 = lower_byte(s[a + 1]);
        let c2 = lower_byte(s[a + 2]);
        (c0 == 105 && c1 == 110 && c2 == 102) || (c0 == 110 && c1 == 97 && c2 == 110)
    } else if len == 8 {
        proof {
            assert(sub[0] == s@[a as int]);
            assert(sub[1] == s@[a + 1]);
            assert(sub[2] == s@[a + 2]);
            assert(sub[3] == s@[a + 3]);
            assert(sub[4] == s@[a + 4]);
            assert(sub[5] == s@[a + 5]);
            assert(sub[6] == s@[a + 6]);
            assert(sub[7] == s@[a + 7]);
        }
        lower_byte(s[a]) == 105 && lower_byte(s[a + 1]) == 110 && lower_byte(s[a + 2]) == 102
            && lower_byte(s[a + 3]) == 105 && lower_byte(s[a + 4]) == 110 && lower_byte(s[a + 5])
            == 105 && lower_byte(s[a + 6]) == 116 && lower_byte(s[a + 7]) == 121
    } else {
        false
    }
}

/// Whether the bytes of `s` from `a` up to `b` are a mantissa.
fn check_mantissa(s: &Vec<u8>, a: usize, b: usize) -> (r: bool)
    requires
        a <= b <= s@.len(),
    ensures
        r == is_mantissa(s@.subrange(a as int, b as int)),
{
    let ghost sub = s@.subrange(a as int, b as int);
    let mut i: usize = a;
    let mut dot: Option<usize> = None;
    let mut digits: usize = 0;
    while i < b
        invariant
            a <= i <= b <= s@.len(),
            sub == s@.subrange(a as int, b as int),
            match dot {
                Some(d) => a <= d < i && s@[d as int] == DOT && digits == i - a - 1 && (forall|
                    k: int,
                |
                    a <= k < i && k != d ==> is_digit(#[trigger] s@[k])),
                None => digits == i - a && (forall|k: int| a <= k < i ==> is_digit(
                    #[trigger] s@[k],
                )),
            },
        decreases b - i,
    {
        let c = s[i];
        if 48 <= c && c <= 57 {
            digits = digits + 1;
        } else if c == DOT {
            match dot {
                Some(d) => {
                    proof {
                        assert(sub[d - a] == s@[d as int]);
                        assert(sub[i - a] == s@[i as int]);
                        assert(!is_count(sub)) by {
                            assert(!is_digit(sub[d - a]));
                        }
                    }
                    return false;
                },
                None => {
                    dot = Some(i);
                },
            }
        } else {
            proof {
                assert(sub[i - a] == s@[i as int]);
                assert(sub[i - a] != DOT && !is_digit(sub[i - a]));
                assert(!is_count(sub));
            }
            return false;
        }
        i = i + 1;
    }
    match dot {
        Some(d) => {
            if digits >= 1 {
                proof {
                    assert(sub[d - a] == s@[d as int]);
                    assert(sub.len() >= 2);
                    assert forall|k: int| 0 <= k < sub.len() && k != d - a implies is_digit(
                        #[trigger] sub[k],
                    ) by {
                        assert(sub[k] == s@[a + k]);
                    }
                    assert(is_mantissa(sub));
                }
                true
            } else {
                proof {
                    assert(sub.len() == 1);
                    assert(sub[0] == DOT);
                    assert(!is_count(sub));
                }
                false
            }
        },
        None => {
            if digits >= 1 {
                proof {
                    assert forall|k: int| 0 <= k < sub.len() implies is_digit(#[trigger] sub[k]) by {
                        assert(sub[k] == s@[a + k]);
                    }
                    assert(is_count(sub));
                }
                true
            } else {
                proof {
                    assert(sub.len() == 0);
                }
                false
            }
        },
    }
}

/// Whether the bytes of `s` from `a` up to `b` are an exponent body.
fn check_exp(s: &Vec<u8>, a: usize, b: usize) -> (r: bool)
    requires
        a <= b <= s@.len(),
    ensures
        r == exp_part(s@.subrange(a as int, b as int)),
{
    let ghost sub = s@.subrange(a as int, b as int);
    let start: usize = if a < b && (s[a] == PLUS || s[a] == MINUS) {
        a + 1
    } else {
        a
    };
    proof {
        if a < b {
            assert(sub[0] == s@[a as int]);
        }
        assert(strip_sign(sub) =~= s@.subrange(start as int, b as int));
    }
    check_count(s, start, b)
}

/// Whether the bytes of `s` from `a` up to `b` are a number: a mantissa
/// with an optional exponent.
fn check_number(s: &Vec<u8>, a: usize, b: usize) -> (r: bool)
    requires
        a <= b <= s@.len(),
    ensures
        r == is_number(s@.subrange(a as int, b as int)),
{
    let ghost sub = s@.subrange(a as int, b as int);
    // Find the first exponent letter, if any.
    let mut i: usize = a;
    while i < b
        invariant
            a <= i <= b <= s@.len(),
            sub == s@.subrange(a as int, b as int),
            forall|k: int| a <= k < i ==> s@[k] != LOW_E && (#[trigger] s@[k]) != UP_E,
        decreases b - i,
    {
        let c = s[i];
        if c == LOW_E || c == UP_E {
            let m = check_mantissa(s, a, i);
            let x = check_exp(s, i + 1, b);
            proof {
                assert(sub[i - a] == s@[i as int]);
                assert(sub.take(i - a) =~= s@.subrange(a as int, i as int));
                assert(sub.skip(i - a + 1) =~= s@.subrange(i + 1, b as int));
            }
            if m && x {
                proof {
                    assert(0 <= i - a < sub.len() && (sub[i - a] == LOW_E || sub[i - a] == UP_E)
                        && is_mantissa(sub.take(i - a)) && exp_part(sub.skip(i - a + 1)));
                }
                return true;
            } else {
                proof {
                    assert(!is_mantissa(sub)) by {
                        if is_count(sub) {
                            assert(!is_digit(sub[i - a]));
                        } else if is_mantissa(sub) {
                            lemma_mantissa_bytes(sub, i - a);
                        }
                    }
                    assert forall|e: int|
                        0 <= e < sub.len() && ((#[trigger] sub[e]) == LOW_E || sub[e] == UP_E)
                            implies !(is_mantissa(sub.take(e)) && exp_part(
                        sub.skip(e + 1),
                    )) by {
                        if e < i - a {
                            assert(sub[e] == s@[a + e]);
                            assert(false);
                        } else if e == i - a {
                        } else {
                            if is_mantissa(sub.take(e)) {
                                assert(sub.take(e)[i - a] == sub[i - a]);
                                lemma_mantissa_bytes(sub.take(e), i - a);
                                assert(false);
                            }
                        }
                    }
                }
                return false;
            }
        }
        i = i + 1;
    }
    // No exponent letter anywhere.
    proof {
        assert forall|e: int| 0 <= e < sub.len() implies (#[trigger] sub[e]) != LOW_E && sub[e]
            != UP_E by {
            assert(sub[e] == s@[a + e]);
        }
    }
    check_mantissa(s, a, b)
}

/// Whether a cell is the text of a 64-bit float.
pub fn check_float_text(c: &Vec<u8>) -> (r: bool)
    ensures
        r == is_float_text(c@),
{
    let n = c.len();
    let start: usize = if n > 0 && (c[0] == PLUS || c[0] == MINUS) {
        1
    } else {
        0
    };
    proof {
        assert(strip_sign(c@) =~= c@.subrange(start as int, n as int));
    }
    if check_special(c, start, n) {
        return true;
    }
    check_number(c, start, n)
}

/// Whether every cell of the table is the text of a 64-bit float.
pub fn check_float_table(t: &Vec<Vec<Vec<u8>>>) -> (r: bool)
    ensures
        r == float_table(t.deep_view()),
{
    let ghost dv = t.deep_view();
    let mut i: usize = 0;
    while i < t.len()
        invariant
            i <= t@.len(),
            dv == t.deep_view(),
            forall|p: int, q: int| 0 <= p < i && 0 <= q < dv[p].len() ==> is_float_text(
                #[trigger] dv[p][q],
            ),
        decreases t@.len() - i,
    {
        let row = &t[i];
        let mut j: usize = 0;
        while j < row.len()
            invariant
                i < t@.len(),
                j <= row@.len(),
                row == &t@[i as int],
                dv == t.deep_view(),
                forall|q: int| 0 <= q < j ==> is_float_text(#[trigger] dv[i as int][q]),
            decreases row@.len() - j,
        {
            proof {
                assert(dv[i as int][j as int] == t@[i as int]@[j as int]@);
            }
            if !check_float_text(&row[j]) {
                proof {
                    assert(!is_float_text(dv[i as int][j as int]));
                }
                return false;
            }
            j = j + 1;
        }
        proof {
            assert(dv[i as int].len() == row@.len());
        }
        i = i + 1;
    }
    true
}


// ---------------------------------------------------------------------
// The table operations.
// ---------------------------------------------------------------------

/// The structured document that carries one table: the rows of numeric
/// text cells under the document's single field.
pub struct Matrix {
    pub data: Vec<Vec<Vec<u8>>>,
}

impl Matrix {
    /// The rows of the document.
    pub open spec fn rows(&self) -> Seq<Seq<Seq<u8>>> {
        self.data.deep_view()
    }

    /// Render this document to its wire bytes.
    pub fn to_bytes(&self) -> (r: Vec<u8>)
        ensures
            r@ == table_doc(self.rows()),
    {
        render_table(&self.data)
    }

    /// Read wire bytes back as a document, if they are the canonical
    /// rendering of one.
    pub fn from_bytes(s: &Vec<u8>) -> (r: Option<Matrix>)
        ensures
            match r {
                Some(m) => parse_table(s@) == Some(m.rows()),
                None => parse_table(s@) is None,
            },
    {
        match p_table(s) {
            Some(data) => Some(Matrix { data }),
            None => None,
        }
    }
}

/// A payload that does not decode to a table: it is not a canonical
/// document, or one of its cells is not numeric text.
pub open spec fn malformed_payload(msg: Seq<u8>) -> bool {
    match parse_table(msg) {
        Some(t) => !float_table(t),
        None => true,
    }
}

/// One message was received whose payload is the document of the table
/// `t`.
pub open spec fn table_received(pend0: Seq<u8>, t: Seq<Seq<Seq<u8>>>, pend1: Seq<u8>) -> bool {
    exists|msg: Seq<u8>|
        #[trigger] received_ok(pend0, msg, pend1) && parse_table(msg) == Some(t) && float_table(t)
}

/// One message was received whose payload does not decode to a table.
pub open spec fn bad_table_received(pend0: Seq<u8>, pend1: Seq<u8>) -> bool {
    exists|msg: Seq<u8>| #[trigger] received_ok(pend0, msg, pend1) && malformed_payload(msg)
}

/// Send one table as one message: on success exactly one frame reaches
/// the carrier, carrying the table's rendered document.  A table with no
/// rows is refused with `EmptyTable`, the communicator untouched; row
/// lengths are the caller's concern and travel as given.
pub fn send_table<C: Communicator>(comm: &mut C, table: Vec<Vec<Vec<u8>>>) -> (r: Result<
    (),
    CommError,
>)
    requires
        float_table(table.deep_view()),
    ensures
        final(comm).pending() == old(comm).pending(),
        r == Err::<(), CommError>(CommError::EmptyTable) <==> table@.len() == 0,
        r == Err::<(), CommError>(CommError::EmptyTable) ==> final(comm).staged() == old(
            comm,
        ).staged() && final(comm).sent() == old(comm).sent(),
        table@.len() > 0 ==> final(comm).staged() == Seq::<u8>::empty(),
        r matches Ok(u) ==> final(comm).sent() == old(comm).sent().push(
            old(comm).staged() + encode_spec(table_doc(table.deep_view())) + seq![LF],
        ),
        r == Err::<(), CommError>(CommError::TransportIo) ==> final(comm).sent() == old(
            comm,
        ).sent(),
        r matches Err(e) ==> e == CommError::EmptyTable || e == CommError::TransportIo,
{
    if table.len() == 0 {
        return Err(CommError::EmptyTable);
    }
    let m = Matrix { data: table };
    let doc = m.to_bytes();
    match comm.send(doc.as_slice()) {
        Ok(u) => Ok(()),
        Err(e) => Err(e),
    }
}

/// Receive one message and decode it as a table document.  The payload
/// must be a canonical document whose every cell is numeric text; the
/// rows come back exactly as they stand in the document, whatever their
/// lengths.  The send side is untouched.
pub fn receive_table<C: Communicator>(comm: &mut C) -> (r: Result<Vec<Vec<Vec<u8>>>, CommError>)
    ensures
        final(comm).staged() == old(comm).staged(),
        final(comm).sent() == old(comm).sent(),
        r matches Ok(t) ==> table_received(
            old(comm).pending(),
            t.deep_view(),
            final(comm).pending(),
        ),
        r == Err::<Vec<Vec<Vec<u8>>>, CommError>(CommError::MalformedTable) ==> bad_table_received(
            old(comm).pending(),
            final(comm).pending(),
        ),
        r == Err::<Vec<Vec<Vec<u8>>>, CommError>(CommError::TransportIo) ==> stream_stalled(
            old(comm).pending(),
            final(comm).pending(),
        ),
        r matches Err(e) ==> e == CommError::MalformedTable || e == CommError::TransportIo,
{
    let msg = match comm.receive() {
        Ok(m) => m,
        Err(e) => {
            return Err(e);
        },
    };
    match Matrix::from_bytes(&msg) {
        Some(m) => {
            if check_float_table(&m.data) {
                proof {
                    assert(received_ok(old(comm).pending(), msg@, comm.pending()));
                    assert(table_received(
                        old(comm).pending(),
                        m.data.deep_view(),
                        comm.pending(),
                    ));
                }
                Ok(m.data)
            } else {
                proof {
                    assert(received_ok(old(comm).pending(), msg@, comm.pending()));
                    assert(malformed_payload(msg@));
                }
                Err(CommError::MalformedTable)
            }
        },
        None => {
            proof {
                assert(received_ok(old(comm).pending(), msg@, comm.pending()));
                assert(malformed_payload(msg@));
            }
            Err(CommError::MalformedTable)
        },
    }
}


// ---------------------------------------------------------------------
// The document and the escape codec: a table document holds no backslash
// and no line feed byte, so it travels through one frame unchanged.
// ---------------------------------------------------------------------

proof fn lemma_cell_doc_no_backslash(c: Seq<u8>)
    requires
        wf_cell(c),
    ensures
        forall|i: int| 0 <= i < cell_doc(c).len() ==> (#[trigger] cell_doc(c)[i]) != BACKSLASH,
{
    assert forall|i: int| 0 <= i < cell_doc(c).len() implies (#[trigger] cell_doc(c)[i])
        != BACKSLASH by {
        if 1 <= i < 1 + c.len() {
            assert(cell_doc(c)[i] == c[i - 1]);
            assert(cell_byte(c[i - 1]));
        } else {
            assert(cell_doc(c)[i] == QUOTE);
        }
    }
}

proof fn lemma_cells_doc_no_backslash(r: Seq<Seq<u8>>)
    requires
        forall|q: int| 0 <= q < r.len() ==> wf_cell(#[trigger] r[q]),
    ensures
        forall|i: int| 0 <= i < cells_doc(r).len() ==> (#[trigger] cells_doc(r)[i]) != BACKSLASH,
    decreases r.len(),
{
    let doc = cells_doc(r);
    if r.len() == 0 {
    } else if r.len() == 1 {
        lemma_cell_doc_no_backslash(r[0]);
        assert forall|i: int| 0 <= i < doc.len() implies (#[trigger] doc[i]) != BACKSLASH by {
            assert(doc[i] == cell_doc(r[0])[i]);
        }
    } else {
        let c0 = cell_doc(r[0]);
        let rest = cells_doc(r.skip(1));
        lemma_cell_doc_no_backslash(r[0]);
        assert forall|q: int| 0 <= q < r.skip(1).len() implies wf_cell(#[trigger] r.skip(1)[q]) by {
            assert(r.skip(1)[q] == r[1 + q]);
        }
        lemma_cells_doc_no_backslash(r.skip(1));
        assert(doc == c0 + seq![COMMA] + rest);
        assert forall|i: int| 0 <= i < doc.len() implies (#[trigger] doc[i]) != BACKSLASH by {
            if i < c0.len() {
                assert(doc[i] == c0[i]);
            } else if i == c0.len() {
                assert(doc[i] == COMMA);
            } else {
                assert(doc[i] == rest[i - c0.len() - 1]);
            }
        }
    }
}

proof fn lemma_row_doc_no_backslash(r: Seq<Seq<u8>>)
    requires
        forall|q: int| 0 <= q < r.len() ==> wf_cell(#[trigger] r[q]),
    ensures
        forall|i: int| 0 <= i < row_doc(r).len() ==> (#[trigger] row_doc(r)[i]) != BACKSLASH,
{
    let doc = row_doc(r);
    if r.len() == 0 {
        assert forall|i: int| 0 <= i < doc.len() implies (#[trigger] doc[i]) != BACKSLASH by {
            assert(doc[i] == LBRACKET || doc[i] == RBRACKET);
        }
    } else {
        let inner = cells_doc(r);
        lemma_cells_doc_no_backslash(r);
        assert forall|i: int| 0 <= i < doc.len() implies (#[trigger] doc[i]) != BACKSLASH by {
            if i == 0 {
                assert(doc[i] == LBRACKET);
            } else if i < 1 + inner.len() {
                assert(doc[i] == inner[i - 1]);
            } else {
                assert(doc[i] == RBRACKET);
            }
        }
    }
}

proof fn lemma_rows_doc_no_backslash(t: Seq<Seq<Seq<u8>>>)
    requires
        wf_table(t),
    ensures
        forall|i: int| 0 <= i < rows_doc(t).len() ==> (#[trigger] rows_doc(t)[i]) != BACKSLASH,
    decreases t.len(),
{
    let doc = rows_doc(t);
    if t.len() == 0 {
    } else {
        assert forall|q: int| 0 <= q < t[0].len() implies wf_cell(#[trigger] t[0][q]) by {
            assert(wf_cell(t[0][q]));
        }
        lemma_row_doc_no_backslash(t[0]);
        if t.len() == 1 {
            assert forall|i: int| 0 <= i < doc.len() implies (#[trigger] doc[i]) != BACKSLASH by {
                assert(doc[i] == row_doc(t[0])[i]);
            }
        } else {
            let r0 = row_doc(t[0]);
            let rest = rows_doc(t.skip(1));
            assert forall|i: int, q: int|
                0 <= i < t.skip(1).len() && 0 <= q < t.skip(1)[i].len() implies wf_cell(
                #[trigger] t.skip(1)[i][q],
            ) by {
                assert(t.skip(1)[i] == t[1 + i]);
                assert(wf_cell(t[1 + i][q]));
            }
            lemma_rows_doc_no_backslash(t.skip(1));
            assert(doc == r0 + seq![COMMA] + rest);
            assert forall|i: int| 0 <= i < doc.len() implies (#[trigger] doc[i]) != BACKSLASH by {
                if i < r0.len() {
                    assert(doc[i] == r0[i]);
                } else if i == r0.len() {
                    assert(doc[i] == COMMA);
                } else {
                    assert(doc[i] == rest[i - r0.len() - 1]);
                }
            }
        }
    }
}

/// A table document holds no backslash byte at all.
pub proof fn lemma_table_doc_no_backslash(t: Seq<Seq<Seq<u8>>>)
    requires
        wf_table(t),
    ensures
        forall|i: int| 0 <= i < table_doc(t).len() ==> (#[trigger] table_doc(t)[i]) != BACKSLASH,
{
    let doc = table_doc(t);
    let hdr = table_header();
    let body = rows_doc(t);
    lemma_rows_doc_no_backslash(t);
    assert forall|i: int| 0 <= i < doc.len() implies (#[trigger] doc[i]) != BACKSLASH by {
        if i < 9 {
            assert(doc[i] == hdr[i]);
        } else if i < 9 + body.len() {
            assert(doc[i] == body[i - 9]);
        } else {
            assert(doc[i] == RBRACKET || doc[i] == RBRACE);
        }
    }
}

/// Law (table message round trip): the document of a table of numeric
/// text survives the escape codec unchanged, so the one frame that
/// carries it yields the document back, and parsing yields exactly the
/// table, whatever bytes follow the frame on the stream.
pub proof fn lemma_table_message_round_trip(t: Seq<Seq<Seq<u8>>>, rest: Seq<u8>)
    requires
        float_table(t),
    ensures
        round_trip_safe(table_doc(t)),
        line_taken(Seq::empty(), frame_spec(table_doc(t)) + rest, table_doc(t), rest),
        parse_table(table_doc(t)) == Some(t),
{
    lemma_float_table_wf(t);
    lemma_table_doc_no_backslash(t);
    lemma_no_esc_round_trip_safe(table_doc(t));
    lemma_message_round_trip(table_doc(t), rest);
    lemma_table_doc_round_trip(t);
}

} // verus!
