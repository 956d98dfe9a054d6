//! The template file format in which the best entities are saved and from
//! which entities are loaded again.
//!
//! A template holds a header of lines (the entity's traits) followed by the
//! weight matrices of its network. Each entry of a matrix is written on a
//! line of its own, the rows of a matrix are separated by an empty line and
//! each matrix is closed by the line `new array:`. The numbers themselves are
//! opaque tokens here: this module frames and splits bytes.
use vstd::prelude::*;

verus! {

/// The byte that ends a line.
pub const NEWLINE: u8 = 10;

/// A carriage return, dropped when it stands right before a line's newline.
pub const CARRIAGE_RETURN: u8 = 13;

/// How many header lines a template starts with.
pub const HEADER_LINES: usize = 5;

/// The line that closes a matrix: `new array:`.
pub open spec fn matrix_end() -> Seq<u8> {
    seq![110u8, 101u8, 119u8, 32u8, 97u8, 114u8, 114u8, 97u8, 121u8, 58u8]
}

// ------------------------------------------------------------------------------------------
// Lines
// ------------------------------------------------------------------------------------------

/// A line without the carriage return that may precede its newline.
pub open spec fn strip_cr(l: Seq<u8>) -> Seq<u8> {
    if l.len() > 0 && l.last() == CARRIAGE_RETURN {
        l.drop_last()
    } else {
        l
    }
}

/// Position of the first newline in `s`, or `s.len()` if there is none.
pub open spec fn first_newline(s: Seq<u8>) -> nat
    decreases s.len(),
{
    if s.len() == 0 {
        0
    } else if s[0] == NEWLINE {
        0
    } else {
        1 + first_newline(s.drop_first())
    }
}

/// The lines of a text, as a buffered reader yields them: each line ends at a
/// newline, which is not part of it, nor is a carriage return right before
/// the newline; the last line needs no newline, and no empty line follows a
/// final newline.
pub open spec fn lines_of(s: Seq<u8>) -> Seq<Seq<u8>>
    decreases s.len(),
{
    if s.len() == 0 {
        Seq::empty()
    } else {
        let i: nat = first_newline(s);
        if i >= s.len() {
            seq![s]
        } else {
            seq![strip_cr(s.take(i as int))] + lines_of(s.skip(i as int + 1))
        }
    }
}

proof fn lemma_first_newline_at(s: Seq<u8>, j: int)
    requires
        0 <= j < s.len(),
        s[j] == NEWLINE,
        forall|k: int| 0 <= k < j ==> s[k] != NEWLINE,
    ensures
        first_newline(s) == j,
    decreases j,
{
    if j > 0 {
        lemma_first_newline_at(s.drop_first(), j - 1);
    }
}

proof fn lemma_first_newline_none(s: Seq<u8>)
    requires
        forall|k: int| 0 <= k < s.len() ==> s[k] != NEWLINE,
    ensures
        first_newline(s) == s.len(),
    decreases s.len(),
{
    if s.len() > 0 {
        lemma_first_newline_none(s.drop_first());
    }
}

proof fn lemma_lines_of_no_newline(s: Seq<u8>)
    requires
        forall|k: int| 0 <= k < s.len() ==> s[k] != NEWLINE,
    ensures
        lines_of(s) == (if s.len() == 0 { Seq::<Seq<u8>>::empty() } else { seq![s] }),
{
    lemma_first_newline_none(s);
}

/// Splitting at the first newline.
proof fn lemma_lines_of_cons(l: Seq<u8>, rest: Seq<u8>)
    requires
        forall|k: int| 0 <= k < l.len() ==> l[k] != NEWLINE,
    ensures
        lines_of(l + seq![NEWLINE] + rest) == seq![strip_cr(l)] + lines_of(rest),
{
    let s = l + seq![NEWLINE] + rest;
    assert forall|k: int| 0 <= k < l.len() implies s[k] != NEWLINE by {
        assert(s[k] == l[k]);
    }
    lemma_first_newline_at(s, l.len() as int);
    assert(s.take(l.len() as int) =~= l);
    assert(s.skip(l.len() as int + 1) =~= rest);
}

// ------------------------------------------------------------------------------------------
// Writing
// ------------------------------------------------------------------------------------------

/// Each line followed by a newline.
pub open spec fn terminated(ls: Seq<Seq<u8>>) -> Seq<u8>
    decreases ls.len(),
{
    if ls.len() == 0 {
        Seq::empty()
    } else {
        terminated(ls.drop_last()) + ls.last() + seq![NEWLINE]
    }
}

/// Each line preceded by a newline.
pub open spec fn led(ls: Seq<Seq<u8>>) -> Seq<u8>
    decreases ls.len(),
{
    if ls.len() == 0 {
        Seq::empty()
    } else {
        led(ls.drop_last()) + seq![NEWLINE] + ls.last()
    }
}

/// The rows of a matrix: each entry preceded by a newline, each row closed
/// by a newline.
pub open spec fn rows_bytes(m: Seq<Seq<Seq<u8>>>) -> Seq<u8>
    decreases m.len(),
{
    if m.len() == 0 {
        Seq::empty()
    } else {
        rows_bytes(m.drop_last()) + led(m.last()) + seq![NEWLINE]
    }
}

/// The matrices: each one's rows, then `new array:`.
pub open spec fn matrices_bytes(w: Seq<Seq<Seq<Seq<u8>>>>) -> Seq<u8>
    decreases w.len(),
{
    if w.len() == 0 {
        Seq::empty()
    } else {
        matrices_bytes(w.drop_last()) + rows_bytes(w.last()) + matrix_end()
    }
}

/// The bytes of a template with header lines `header` and matrices `weights`
/// (a matrix is a sequence of rows, a row a sequence of entries).
pub open spec fn template_bytes(header: Seq<Seq<u8>>, weights: Seq<Seq<Seq<Seq<u8>>>>) -> Seq<u8> {
    terminated(header) + matrices_bytes(weights)
}

fn append_bytes(out: &mut Vec<u8>, t: &Vec<u8>)
    ensures
        final(out)@ == old(out)@ + t@,
{
    let mut k: usize = 0;
    while k < t.len()
        invariant
            k <= t.len(),
            out@ == old(out)@ + t@.take(k as int),
        decreases t.len() - k,
    {
        assert(t@.take(k + 1) =~= t@.take(k as int).push(t@[k as int]));
        out.push(t[k]);
        k += 1;
    }
    assert(t@.take(t.len() as int) =~= t@);
}

proof fn lemma_deep_view_bytes(v: Vec<u8>)
    ensures
        v.deep_view() == v@,
{
    assert(v.deep_view() =~= v@);
}

fn encode_row(out: &mut Vec<u8>, row: &Vec<Vec<u8>>)
    ensures
        final(out)@ == old(out)@ + led(row.deep_view()),
{
    let ghost rw = row.deep_view();
    let mut e: usize = 0;
    while e < row.len()
        invariant
            e <= row.len(),
            rw == row.deep_view(),
            out@ == old(out)@ + led(rw.take(e as int)),
        decreases row.len() - e,
    {
        proof {
            lemma_deep_view_bytes(row[e as int]);
            assert(rw.take(e + 1).drop_last() =~= rw.take(e as int));
        }
        out.push(NEWLINE);
        append_bytes(out, &row[e]);
        e += 1;
    }
    assert(rw.take(row.len() as int) =~= rw);
}

fn encode_matrix(out: &mut Vec<u8>, matrix: &Vec<Vec<Vec<u8>>>)
    ensures
        final(out)@ == old(out)@ + rows_bytes(matrix.deep_view()) + matrix_end(),
{
    let ghost mx = matrix.deep_view();
    let mut r: usize = 0;
    while r < matrix.len()
        invariant
            r <= matrix.len(),
            mx == matrix.deep_view(),
            out@ == old(out)@ + rows_bytes(mx.take(r as int)),
        decreases matrix.len() - r,
    {
        assert(mx.take(r + 1).drop_last() =~= mx.take(r as int));
        encode_row(out, &matrix[r]);
        out.push(NEWLINE);
        r += 1;
    }
    assert(mx.take(matrix.len() as int) =~= mx);
    out.push(110u8);
    out.push(101u8);
    out.push(119u8);
    out.push(32u8);
    out.push(97u8);
    out.push(114u8);
    out.push(114u8);
    out.push(97u8);
    out.push(121u8);
    out.push(58u8);
    assert(out@ =~= old(out)@ + rows_bytes(mx) + matrix_end());
}

/// Writes a template: each header line followed by a newline; then for each
/// matrix, for each row, each entry preceded by a newline and the row closed
/// by a newline, and the matrix closed by `new array:`.
pub fn encode_template(header: &Vec<Vec<u8>>, weights: &Vec<Vec<Vec<Vec<u8>>>>) -> (out: Vec<u8>)
    ensures
        out@ == template_bytes(header.deep_view(), weights.deep_view()),
{
    let ghost h = header.deep_view();
    let ghost w = weights.deep_view();
    let mut out: Vec<u8> = Vec::new();
    let mut i: usize = 0;
    while i < header.len()
        invariant
            i <= header.len(),
            h == header.deep_view(),
            out@ == terminated(h.take(i as int)),
        decreases header.len() - i,
    {
        proof {
            lemma_deep_view_bytes(header[i as int]);
            assert(h.take(i + 1).drop_last() =~= h.take(i as int));
        }
        append_bytes(&mut out, &header[i]);
        out.push(NEWLINE);
        i += 1;
    }
    assert(h.take(header.len() as int) =~= h);
    let mut m: usize = 0;
    while m < weights.len()
        invariant
            m <= weights.len(),
            h == header.deep_view(),
            w == weights.deep_view(),
            out@ == terminated(h) + matrices_bytes(w.take(m as int)),
        decreases weights.len() - m,
    {
        assert(w.take(m + 1).drop_last() =~= w.take(m as int));
        encode_matrix(&mut out, &weights[m]);
        m += 1;
    }
    assert(w.take(weights.len() as int) =~= w);
    out
}

// ------------------------------------------------------------------------------------------
// Reading
// ------------------------------------------------------------------------------------------

fn strip_carriage_return(l: Vec<u8>) -> (r: Vec<u8>)
    ensures
        r@ == strip_cr(l@),
{
    let mut l = l;
    if l.len() > 0 && l[l.len() - 1] == CARRIAGE_RETURN {
        l.pop();
    }
    l
}

/// Splits a text into its lines (see `lines_of`).
pub fn split_lines(bytes: &[u8]) -> (lines: Vec<Vec<u8>>)
    ensures
        lines.deep_view() == lines_of(bytes@),
{
    let mut out: Vec<Vec<u8>> = Vec::new();
    let mut cur: Vec<u8> = Vec::new();
    let mut start: usize = 0;
    let mut i: usize = 0;
    assert(bytes@.skip(0) =~= bytes@);
    assert(out.deep_view() =~= Seq::<Seq<u8>>::empty());
    while i < bytes.len()
        invariant
            start <= i <= bytes.len(),
            cur@ == bytes@.subrange(start as int, i as int),
            forall|k: int| start <= k < i ==> bytes@[k] != NEWLINE,
            lines_of(bytes@) == out.deep_view() + lines_of(bytes@.skip(start as int)),
        decreases bytes.len() - i,
    {
        if bytes[i] == NEWLINE {
            let ghost t = bytes@.skip(start as int);
            proof {
                assert(t =~= cur@ + seq![NEWLINE] + bytes@.skip(i + 1));
                lemma_lines_of_cons(cur@, bytes@.skip(i + 1));
            }
            let line = strip_carriage_return(cur);
            let ghost old_out = out.deep_view();
            proof {
                lemma_deep_view_bytes(line);
            }
            out.push(line);
            assert(out.deep_view() =~= old_out.push(line@));
            assert(old_out.push(line@) + lines_of(bytes@.skip(i + 1)) =~= old_out + (seq![
                line@,
            ] + lines_of(bytes@.skip(i + 1))));
            cur = Vec::new();
            start = i + 1;
        } else {
            cur.push(bytes[i]);
        }
        i += 1;
    }
    let ghost t = bytes@.skip(start as int);
    assert(t =~= cur@);
    proof {
        lemma_lines_of_no_newline(t);
    }
    if start < bytes.len() {
        let ghost old_out = out.deep_view();
        proof {
            lemma_deep_view_bytes(cur);
        }
        out.push(cur);
        assert(out.deep_view() =~= old_out + seq![t]);
    } else {
        assert(out.deep_view() + lines_of(t) =~= out.deep_view());
    }
    out
}

/// What a reader has collected after some lines of a template: the header
/// lines, the finished matrices, the finished rows of the current matrix
/// and the entries of the current row.
pub struct DecodeState {
    pub header: Seq<Seq<u8>>,
    pub done: Seq<Seq<Seq<Seq<u8>>>>,
    pub rows: Seq<Seq<Seq<u8>>>,
    pub row: Seq<Seq<u8>>,
}

/// The state before any line.
pub open spec fn decode_start() -> DecodeState {
    DecodeState { header: Seq::empty(), done: Seq::empty(), rows: Seq::empty(), row: Seq::empty() }
}

/// Reading line number `n`: the first five lines are the header and the
/// sixth is passed over; after that `new array:` closes the current row and
/// matrix, an empty line closes the current row, and any other line is an
/// entry of the current row.
pub open spec fn decode_step(st: DecodeState, n: int, line: Seq<u8>) -> DecodeState {
    if n < HEADER_LINES {
        DecodeState { header: st.header.push(line), done: st.done, rows: st.rows, row: st.row }
    } else if n == HEADER_LINES {
        st
    } else if line == matrix_end() {
        DecodeState {
            header: st.header,
            done: st.done.push(st.rows.push(st.row)),
            rows: Seq::empty(),
            row: Seq::empty(),
        }
    } else if line.len() == 0 {
        DecodeState { header: st.header, done: st.done, rows: st.rows.push(st.row), row: Seq::empty() }
    } else {
        DecodeState { header: st.header, done: st.done, rows: st.rows, row: st.row.push(line) }
    }
}

/// Reading the lines `ls`, the first of which has number `n`, from state `st`.
pub open spec fn decode_from(st: DecodeState, n: int, ls: Seq<Seq<u8>>) -> DecodeState
    decreases ls.len(),
{
    if ls.len() == 0 {
        st
    } else {
        decode_step(decode_from(st, n, ls.drop_last()), n + ls.len() - 1, ls.last())
    }
}

/// The header lines and the finished matrices that a reader takes from the
/// text `s`; lines after the last `new array:` belong to no matrix.
pub open spec fn decoded(s: Seq<u8>) -> (Seq<Seq<u8>>, Seq<Seq<Seq<Seq<u8>>>>) {
    let st = decode_from(decode_start(), 0, lines_of(s));
    (st.header, st.done)
}

fn is_matrix_end(l: &Vec<u8>) -> (b: bool)
    ensures
        b == (l@ == matrix_end()),
{
    let b = l.len() == 10 && l[0] == 110u8 && l[1] == 101u8 && l[2] == 119u8 && l[3] == 32u8
        && l[4] == 97u8 && l[5] == 114u8 && l[6] == 114u8 && l[7] == 97u8 && l[8] == 121u8 && l[9]
        == 58u8;
    proof {
        if b {
            assert(l@ =~= matrix_end());
        } else if l@ == matrix_end() {
            assert(l@[0] == 110u8 && l@[9] == 58u8);
        }
    }
    b
}

/// Reads a template: the header lines and the matrices, each a sequence of
/// rows of entries, as `decoded` defines them.
pub fn decode_template(bytes: &[u8]) -> (res: (Vec<Vec<u8>>, Vec<Vec<Vec<Vec<u8>>>>))
    ensures
        (res.0.deep_view(), res.1.deep_view()) == decoded(bytes@),
{
    let mut lines = split_lines(bytes);
    let ghost ls = lines.deep_view();
    let ghost orig = lines@;
    let n: usize = lines.len();
    let mut header: Vec<Vec<u8>> = Vec::new();
    let mut done: Vec<Vec<Vec<Vec<u8>>>> = Vec::new();
    let mut rows: Vec<Vec<Vec<u8>>> = Vec::new();
    let mut row: Vec<Vec<u8>> = Vec::new();
    let mut i: usize = 0;
    assert(ls.take(0) =~= Seq::<Seq<u8>>::empty());
    assert(header.deep_view() =~= Seq::<Seq<u8>>::empty());
    assert(done.deep_view() =~= Seq::<Seq<Seq<Seq<u8>>>>::empty());
    assert(rows.deep_view() =~= Seq::<Seq<Seq<u8>>>::empty());
    assert(row.deep_view() =~= Seq::<Seq<u8>>::empty());
    while i < n
        invariant
            i <= n,
            n == lines.len(),
            ls == lines_of(bytes@),
            ls.len() == n,
            orig.len() == n,
            forall|k: int| 0 <= k < n ==> (#[trigger] orig[k]).deep_view() == ls[k],
            forall|k: int| i <= k < n ==> lines@[k] == #[trigger] orig[k],
            (DecodeState {
                header: header.deep_view(),
                done: done.deep_view(),
                rows: rows.deep_view(),
                row: row.deep_view(),
            }) == decode_from(decode_start(), 0, ls.take(i as int)),
        decreases n - i,
    {
        let mut line: Vec<u8> = Vec::new();
        lines.set_and_swap(i, &mut line);
        let ghost st = decode_from(decode_start(), 0, ls.take(i as int));
        proof {
            assert(line == orig[i as int]);
            assert(line.deep_view() == ls[i as int]);
            lemma_deep_view_bytes(line);
            assert(ls.take(i + 1).drop_last() =~= ls.take(i as int));
            assert(ls.take(i + 1).last() == ls[i as int]);
        }
        if i < HEADER_LINES {
            let ghost old = header.deep_view();
            header.push(line);
            assert(header.deep_view() =~= old.push(ls[i as int]));
        } else if i == HEADER_LINES {
        } else if is_matrix_end(&line) {
            let ghost old_rows = rows.deep_view();
            let ghost old_row = row.deep_view();
            let ghost old_done = done.deep_view();
            let mut finished: Vec<Vec<Vec<u8>>> = Vec::new();
            let mut last_row: Vec<Vec<u8>> = Vec::new();
            std::mem::swap(&mut finished, &mut rows);
            std::mem::swap(&mut last_row, &mut row);
            finished.push(last_row);
            assert(finished.deep_view() =~= old_rows.push(old_row));
            done.push(finished);
            assert(done.deep_view() =~= old_done.push(old_rows.push(old_row)));
            assert(rows.deep_view() =~= Seq::<Seq<Seq<u8>>>::empty());
            assert(row.deep_view() =~= Seq::<Seq<u8>>::empty());
        } else if line.len() == 0 {
            let ghost old_rows = rows.deep_view();
            let ghost old_row = row.deep_view();
            let mut last_row: Vec<Vec<u8>> = Vec::new();
            std::mem::swap(&mut last_row, &mut row);
            rows.push(last_row);
            assert(rows.deep_view() =~= old_rows.push(old_row));
            assert(row.deep_view() =~= Seq::<Seq<u8>>::empty());
        } else {
            let ghost old_row = row.deep_view();
            row.push(line);
            assert(row.deep_view() =~= old_row.push(ls[i as int]));
        }
        i += 1;
    }
    assert(ls.take(n as int) =~= ls);
    (header, done)
}

// ------------------------------------------------------------------------------------------
// Reading back what was written
// ------------------------------------------------------------------------------------------

/// A line that a reader gives back unchanged: no newline in it, and no
/// carriage return at its end.
pub open spec fn line_ok(t: Seq<u8>) -> bool {
    &&& forall|k: int| 0 <= k < t.len() ==> t[k] != NEWLINE
    &&& (t.len() == 0 || t.last() != CARRIAGE_RETURN)
}

/// A matrix entry that a reader takes for an entry: a nonempty line that is
/// not `new array:`.
pub open spec fn entry_ok(t: Seq<u8>) -> bool {
    line_ok(t) && t.len() > 0 && t != matrix_end()
}

/// A header that a reader takes back: five lines.
pub open spec fn header_ok(h: Seq<Seq<u8>>) -> bool {
    h.len() == HEADER_LINES && forall|k: int| 0 <= k < h.len() ==> line_ok(#[trigger] h[k])
}

/// Entries that a reader takes back as entries.
pub open spec fn entries_ok(r: Seq<Seq<u8>>) -> bool {
    forall|e: int| 0 <= e < r.len() ==> entry_ok(#[trigger] r[e])
}

/// A matrix that a reader takes back: it has a row, and its entries are
/// taken for entries.
pub open spec fn matrix_ok(m: Seq<Seq<Seq<u8>>>) -> bool {
    &&& m.len() > 0
    &&& forall|r: int| 0 <= r < m.len() ==> entries_ok(#[trigger] m[r])
}

/// Matrices that a reader takes back.
pub open spec fn weights_ok(w: Seq<Seq<Seq<Seq<u8>>>>) -> bool {
    forall|m: int| 0 <= m < w.len() ==> matrix_ok(#[trigger] w[m])
}

/// The lines of a matrix: its rows with an empty line between two rows.
pub open spec fn rows_lines(m: Seq<Seq<Seq<u8>>>) -> Seq<Seq<u8>>
    decreases m.len(),
{
    if m.len() == 0 {
        Seq::empty()
    } else if m.len() == 1 {
        m[0]
    } else {
        rows_lines(m.drop_last()) + seq![Seq::<u8>::empty()] + m.last()
    }
}

/// The lines of all matrices, each closed by `new array:`.
pub open spec fn matrices_lines(w: Seq<Seq<Seq<Seq<u8>>>>) -> Seq<Seq<u8>>
    decreases w.len(),
{
    if w.len() == 0 {
        Seq::empty()
    } else {
        matrices_lines(w.drop_last()) + rows_lines(w.last()).push(matrix_end())
    }
}

proof fn lemma_terminated_single(x: Seq<u8>)
    ensures
        terminated(seq![x]) == x + seq![NEWLINE],
{
    let l = seq![x];
    assert(l.drop_last() =~= Seq::<Seq<u8>>::empty());
    assert(terminated(l.drop_last()) == Seq::<u8>::empty());
    assert(terminated(l) =~= x + seq![NEWLINE]);
}

proof fn lemma_led_single(x: Seq<u8>)
    ensures
        led(seq![x]) == seq![NEWLINE] + x,
{
    let l = seq![x];
    assert(l.drop_last() =~= Seq::<Seq<u8>>::empty());
    assert(led(l.drop_last()) == Seq::<u8>::empty());
    assert(led(l) =~= seq![NEWLINE] + x);
}

proof fn lemma_terminated_concat(a: Seq<Seq<u8>>, b: Seq<Seq<u8>>)
    ensures
        terminated(a + b) == terminated(a) + terminated(b),
    decreases b.len(),
{
    if b.len() == 0 {
        assert(a + b =~= a);
        assert(terminated(a) + terminated(b) =~= terminated(a));
    } else {
        lemma_terminated_concat(a, b.drop_last());
        assert((a + b).drop_last() =~= a + b.drop_last());
        assert(terminated(a + b) =~= terminated(a) + terminated(b));
    }
}

proof fn lemma_led_concat(a: Seq<Seq<u8>>, b: Seq<Seq<u8>>)
    ensures
        led(a + b) == led(a) + led(b),
    decreases b.len(),
{
    if b.len() == 0 {
        assert(a + b =~= a);
        assert(led(a) + led(b) =~= led(a));
    } else {
        lemma_led_concat(a, b.drop_last());
        assert((a + b).drop_last() =~= a + b.drop_last());
        assert(led(a + b) =~= led(a) + led(b));
    }
}

proof fn lemma_led_nonempty(ls: Seq<Seq<u8>>)
    requires
        ls.len() > 0,
    ensures
        led(ls) == seq![NEWLINE] + terminated(ls.drop_last()) + ls.last(),
    decreases ls.len(),
{
    let p = ls.drop_last();
    if p.len() == 0 {
        assert(led(p) =~= Seq::<u8>::empty());
        assert(led(ls) =~= seq![NEWLINE] + terminated(p) + ls.last());
    } else {
        lemma_led_nonempty(p);
        assert(p.drop_last().push(p.last()) =~= p);
        assert(led(ls) =~= seq![NEWLINE] + terminated(p) + ls.last());
    }
}

proof fn lemma_rows_bytes(m: Seq<Seq<Seq<u8>>>)
    requires
        m.len() > 0,
    ensures
        rows_bytes(m) == led(rows_lines(m)) + seq![NEWLINE],
    decreases m.len(),
{
    let p = m.drop_last();
    if m.len() == 1 {
        assert(rows_bytes(p) =~= Seq::<u8>::empty());
        assert(m.last() == m[0]);
        assert(rows_bytes(m) =~= led(rows_lines(m)) + seq![NEWLINE]);
    } else {
        lemma_rows_bytes(p);
        let sep = seq![Seq::<u8>::empty()];
        lemma_led_concat(rows_lines(p), sep);
        lemma_led_concat(rows_lines(p) + sep, m.last());
        lemma_led_single(Seq::<u8>::empty());
        assert(rows_bytes(m) =~= led(rows_lines(m)) + seq![NEWLINE]);
    }
}

proof fn lemma_matrices_bytes(w: Seq<Seq<Seq<Seq<u8>>>>)
    requires
        weights_ok(w),
    ensures
        matrices_bytes(w) == led(matrices_lines(w)),
    decreases w.len(),
{
    if w.len() > 0 {
        let p = w.drop_last();
        assert forall|m: int| 0 <= m < p.len() implies matrix_ok(#[trigger] p[m]) by {
            assert(p[m] == w[m]);
        }
        lemma_matrices_bytes(p);
        assert(matrix_ok(w[w.len() - 1]));
        let last = rows_lines(w.last()).push(matrix_end());
        lemma_rows_bytes(w.last());
        lemma_led_concat(matrices_lines(p), last);
        assert(last.drop_last() =~= rows_lines(w.last()));
        assert(matrices_bytes(w) =~= led(matrices_lines(w)));
    }
}

proof fn lemma_lines_of_terminated(ls: Seq<Seq<u8>>, t: Seq<u8>)
    requires
        forall|k: int| 0 <= k < ls.len() ==> line_ok(#[trigger] ls[k]),
    ensures
        lines_of(terminated(ls) + t) == ls + lines_of(t),
    decreases ls.len(),
{
    if ls.len() == 0 {
        assert(terminated(ls) + t =~= t);
        assert(ls + lines_of(t) =~= lines_of(t));
    } else {
        let first = ls[0];
        let rest = ls.drop_first();
        assert(ls =~= seq![first] + rest);
        lemma_terminated_concat(seq![first], rest);
        lemma_terminated_single(first);
        assert forall|k: int| 0 <= k < rest.len() implies line_ok(#[trigger] rest[k]) by {
            assert(rest[k] == ls[k + 1]);
        }
        lemma_lines_of_terminated(rest, t);
        assert(line_ok(ls[0]));
        assert(terminated(ls) + t =~= first + seq![NEWLINE] + (terminated(rest) + t));
        lemma_lines_of_cons(first, terminated(rest) + t);
        assert(strip_cr(first) == first);
        assert(seq![first] + (rest + lines_of(t)) =~= ls + lines_of(t));
    }
}

/// What a written template reads as, line by line.
pub open spec fn template_lines(header: Seq<Seq<u8>>, weights: Seq<Seq<Seq<Seq<u8>>>>) -> Seq<
    Seq<u8>,
> {
    if weights.len() == 0 {
        header
    } else {
        header + seq![Seq::<u8>::empty()] + matrices_lines(weights)
    }
}

proof fn lemma_template_lines(h: Seq<Seq<u8>>, w: Seq<Seq<Seq<Seq<u8>>>>)
    requires
        header_ok(h),
        weights_ok(w),
    ensures
        lines_of(template_bytes(h, w)) == template_lines(h, w),
{
    lemma_matrices_bytes(w);
    if w.len() == 0 {
        assert(matrices_bytes(w) =~= Seq::<u8>::empty());
        assert(template_bytes(h, w) =~= terminated(h) + Seq::<u8>::empty());
        lemma_lines_of_terminated(h, Seq::<u8>::empty());
        assert(h + Seq::<Seq<u8>>::empty() =~= h);
    } else {
        let body = matrices_lines(w);
        assert(body.len() > 0);
        assert(body.last() == matrix_end());
        lemma_led_nonempty(body);
        let prefix = h + seq![Seq::<u8>::empty()] + body.drop_last();
        lemma_terminated_concat(h + seq![Seq::<u8>::empty()], body.drop_last());
        lemma_terminated_concat(h, seq![Seq::<u8>::empty()]);
        lemma_terminated_single(Seq::<u8>::empty());
        assert(template_bytes(h, w) =~= terminated(prefix) + matrix_end());
        assert forall|k: int| 0 <= k < prefix.len() implies line_ok(#[trigger] prefix[k]) by {
            if k < h.len() {
                assert(prefix[k] == h[k]);
            } else if k == h.len() {
                assert(prefix[k] == Seq::<u8>::empty());
            } else {
                assert(prefix[k] == body[k - h.len() - 1]);
                lemma_matrices_lines_ok(w, k - h.len() - 1);
            }
        }
        lemma_lines_of_terminated(prefix, matrix_end());
        lemma_lines_of_no_newline(matrix_end());
        assert(prefix + seq![matrix_end()] =~= template_lines(h, w));
    }
}

proof fn lemma_rows_lines_ok(m: Seq<Seq<Seq<u8>>>, k: int)
    requires
        forall|r: int| 0 <= r < m.len() ==> entries_ok(#[trigger] m[r]),
        0 <= k < rows_lines(m).len(),
    ensures
        line_ok(rows_lines(m)[k]),
    decreases m.len(),
{
    if m.len() == 1 {
        assert(entries_ok(m[0]));
        assert(entry_ok(m[0][k]));
    } else if m.len() > 1 {
        let p = m.drop_last();
        let left = rows_lines(p) + seq![Seq::<u8>::empty()];
        if k < rows_lines(p).len() {
            assert(rows_lines(m)[k] == rows_lines(p)[k]);
            assert forall|r: int| 0 <= r < p.len() implies entries_ok(#[trigger] p[r]) by {
                assert(p[r] == m[r]);
            }
            lemma_rows_lines_ok(p, k);
        } else if k == rows_lines(p).len() {
            assert(rows_lines(m)[k] == Seq::<u8>::empty());
        } else {
            assert(rows_lines(m)[k] == m.last()[k - left.len()]);
            assert(entries_ok(m[m.len() - 1]));
            assert(entry_ok(m[m.len() - 1][k - left.len()]));
        }
    }
}

proof fn lemma_matrices_lines_ok(w: Seq<Seq<Seq<Seq<u8>>>>, k: int)
    requires
        weights_ok(w),
        0 <= k < matrices_lines(w).len(),
    ensures
        line_ok(matrices_lines(w)[k]),
    decreases w.len(),
{
    let p = w.drop_last();
    let last = rows_lines(w.last()).push(matrix_end());
    assert(weights_ok(p)) by {
        assert forall|m: int| 0 <= m < p.len() implies matrix_ok(#[trigger] p[m]) by {
            assert(p[m] == w[m]);
        }
    }
    if k < matrices_lines(p).len() {
        assert(matrices_lines(w)[k] == matrices_lines(p)[k]);
        lemma_matrices_lines_ok(p, k);
    } else {
        let j: int = k - matrices_lines(p).len();
        assert(matrices_lines(w)[k] == last[j]);
        if j < rows_lines(w.last()).len() {
            assert(w.last() == w[w.len() - 1]);
            assert(matrix_ok(w[w.len() - 1]));
            lemma_rows_lines_ok(w.last(), j);
        } else {
            assert(last[j] == matrix_end());
        }
    }
}

proof fn lemma_decode_single(st: DecodeState, n: int, x: Seq<u8>)
    ensures
        decode_from(st, n, seq![x]) == decode_step(st, n, x),
{
    let l = seq![x];
    assert(l.drop_last() =~= Seq::<Seq<u8>>::empty());
    assert(decode_from(st, n, l.drop_last()) == st);
    assert(l.last() == x);
}

proof fn lemma_decode_concat(st: DecodeState, n: int, a: Seq<Seq<u8>>, b: Seq<Seq<u8>>)
    ensures
        decode_from(st, n, a + b) == decode_from(decode_from(st, n, a), n + a.len(), b),
    decreases b.len(),
{
    if b.len() == 0 {
        assert(a + b =~= a);
    } else {
        lemma_decode_concat(st, n, a, b.drop_last());
        assert((a + b).drop_last() =~= a + b.drop_last());
        assert((a + b).last() == b.last());
    }
}

proof fn lemma_decode_header(st: DecodeState, n: int, a: Seq<Seq<u8>>)
    requires
        0 <= n,
        n + a.len() <= HEADER_LINES,
    ensures
        decode_from(st, n, a) == (DecodeState {
            header: st.header + a,
            done: st.done,
            rows: st.rows,
            row: st.row,
        }),
    decreases a.len(),
{
    if a.len() == 0 {
        assert(st.header + a =~= st.header);
    } else {
        lemma_decode_header(st, n, a.drop_last());
        assert(st.header + a.drop_last() + seq![a.last()] =~= st.header + a);
        assert((st.header + a.drop_last()).push(a.last()) =~= st.header + a);
    }
}

proof fn lemma_decode_entries(st: DecodeState, n: int, r: Seq<Seq<u8>>)
    requires
        n > HEADER_LINES,
        entries_ok(r),
    ensures
        decode_from(st, n, r) == (DecodeState {
            header: st.header,
            done: st.done,
            rows: st.rows,
            row: st.row + r,
        }),
    decreases r.len(),
{
    if r.len() == 0 {
        assert(st.row + r =~= st.row);
    } else {
        let p = r.drop_last();
        assert(entries_ok(p)) by {
            assert forall|e: int| 0 <= e < p.len() implies entry_ok(#[trigger] p[e]) by {
                assert(p[e] == r[e]);
            }
        }
        lemma_decode_entries(st, n, p);
        assert(entry_ok(r[r.len() - 1]));
        assert((st.row + p).push(r.last()) =~= st.row + r);
    }
}

proof fn lemma_decode_rows(st: DecodeState, n: int, m: Seq<Seq<Seq<u8>>>)
    requires
        n > HEADER_LINES,
        st.rows == Seq::<Seq<Seq<u8>>>::empty(),
        st.row == Seq::<Seq<u8>>::empty(),
        m.len() > 0,
        forall|r: int| 0 <= r < m.len() ==> entries_ok(#[trigger] m[r]),
    ensures
        decode_from(st, n, rows_lines(m)) == (DecodeState {
            header: st.header,
            done: st.done,
            rows: m.drop_last(),
            row: m.last(),
        }),
    decreases m.len(),
{
    if m.len() == 1 {
        assert(entries_ok(m[0]));
        lemma_decode_entries(st, n, m[0]);
        assert(st.row + m[0] =~= m[0]);
        assert(m.drop_last() =~= Seq::<Seq<Seq<u8>>>::empty());
    } else {
        let p = m.drop_last();
        assert forall|r: int| 0 <= r < p.len() implies entries_ok(#[trigger] p[r]) by {
            assert(p[r] == m[r]);
        }
        lemma_decode_rows(st, n, p);
        let sep = seq![Seq::<u8>::empty()];
        let st1 = decode_from(st, n, rows_lines(p));
        let n1 = n + rows_lines(p).len();
        lemma_decode_concat(st, n, rows_lines(p), sep);
        lemma_decode_single(st1, n1, Seq::<u8>::empty());
        assert(Seq::<u8>::empty() != matrix_end()) by {
            assert(matrix_end().len() == 10);
        }
        let st2 = decode_from(st1, n1, sep);
        assert(st2.rows =~= p);
        assert(st2.row =~= Seq::<Seq<u8>>::empty());
        lemma_decode_concat(st, n, rows_lines(p) + sep, m.last());
        assert(entries_ok(m[m.len() - 1]));
        lemma_decode_entries(st2, n1 + 1, m.last());
        assert(st2.row + m.last() =~= m.last());
    }
}

proof fn lemma_decode_matrices(st: DecodeState, n: int, w: Seq<Seq<Seq<Seq<u8>>>>)
    requires
        n > HEADER_LINES,
        st.rows == Seq::<Seq<Seq<u8>>>::empty(),
        st.row == Seq::<Seq<u8>>::empty(),
        weights_ok(w),
    ensures
        decode_from(st, n, matrices_lines(w)) == (DecodeState {
            header: st.header,
            done: st.done + w,
            rows: st.rows,
            row: st.row,
        }),
    decreases w.len(),
{
    if w.len() == 0 {
        assert(st.done + w =~= st.done);
    } else {
        let p = w.drop_last();
        let m = w.last();
        assert(weights_ok(p)) by {
            assert forall|k: int| 0 <= k < p.len() implies matrix_ok(#[trigger] p[k]) by {
                assert(p[k] == w[k]);
            }
        }
        assert(matrix_ok(w[w.len() - 1]));
        lemma_decode_matrices(st, n, p);
        let st1 = decode_from(st, n, matrices_lines(p));
        let n1 = n + matrices_lines(p).len();
        lemma_decode_concat(st, n, matrices_lines(p), rows_lines(m).push(matrix_end()));
        assert(rows_lines(m).push(matrix_end()) =~= rows_lines(m) + seq![matrix_end()]);
        lemma_decode_concat(st1, n1, rows_lines(m), seq![matrix_end()]);
        lemma_decode_rows(st1, n1, m);
        let st2 = decode_from(st1, n1, rows_lines(m));
        lemma_decode_single(st2, n1 + rows_lines(m).len(), matrix_end());
        assert(m.drop_last().push(m.last()) =~= m);
        assert((st.done + p).push(m) =~= st.done + w);
    }
}

/// What is written is read back: a template written from five header lines
/// free of newlines (and of a carriage return at their end) and from
/// matrices of at least one row each, whose entries are such lines too, are
/// nonempty and are not `new array:`, is read as that same header and those
/// same matrices.
pub proof fn lemma_template_roundtrip(header: Seq<Seq<u8>>, weights: Seq<Seq<Seq<Seq<u8>>>>)
    requires
        header_ok(header),
        weights_ok(weights),
    ensures
        decoded(template_bytes(header, weights)) == (header, weights),
{
    lemma_template_lines(header, weights);
    let ls = template_lines(header, weights);
    let st0 = decode_start();
    lemma_decode_header(st0, 0, header);
    assert(st0.header + header =~= header);
    let st1 = decode_from(st0, 0, header);
    if weights.len() == 0 {
        assert(st0.done =~= weights);
    } else {
        let sep = seq![Seq::<u8>::empty()];
        lemma_decode_concat(st0, 0, header + sep, matrices_lines(weights));
        lemma_decode_concat(st0, 0, header, sep);
        lemma_decode_single(st1, HEADER_LINES as int, Seq::<u8>::empty());
        lemma_decode_matrices(st1, HEADER_LINES + 1, weights);
        assert(st1.done + weights =~= weights);
    }
}

} // verus!
