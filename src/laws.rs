//! What holds of every split and of every scan.
use vstd::prelude::*;
use vstd::utf8::is_char_boundary;
use crate::classify::{
    alnum_end, category_of, classify, is_alnum_byte, is_whitespace_byte, lemma_alnum_end_all,
    lemma_run_end_all, run_end, sequence_from, sequence_table, starts_with, TokenCategory,
};
use crate::position::{
    count_newlines, lemma_boundary_after_ascii, lemma_concat, lemma_line_start_facts, lemma_origin,
};
use crate::classify::ErrorKind;
use crate::token::{lemma_lex_step, lex, lexeme_offset, Token};

verus! {

broadcast use vstd::utf8::group_utf8_lib;

/// A well-formed token has a non-empty text inside a non-empty source, starts
/// inside the source, sits at row 0 and column 0 only at the very start, and
/// its line start plus its column is its index.
pub proof fn lemma_token_invariants<'a>(t: Token<'a>)
    requires
        t.wf(),
    ensures
        t.text().len() > 0,
        t.source().len() > 0,
        t.source().len() >= t.text().len(),
        t.index < t.source().len(),
        t.index == 0 || t.row > 0 || t.col > 0,
        t.line_start + t.col == t.index,
{
    lemma_origin(t.source(), t.index as int, t.row as int, t.line_start as int, t.col as int);
}

/// The bytes of each token of `v`, in order.
pub open spec fn texts<'a>(v: Seq<Token<'a>>) -> Seq<Seq<u8>> {
    v.map_values(|t: Token<'a>| t.text())
}

/// The bytes of each lexeme, in order.
pub open spec fn lexeme_texts(lx: Seq<(TokenCategory, Seq<u8>)>) -> Seq<Seq<u8>> {
    lx.map_values(|x: (TokenCategory, Seq<u8>)| x.1)
}

/// A successful lexing is a partition of the text into non-empty lexemes.
pub proof fn lemma_lex_partition(s: Seq<u8>)
    requires
        lex(s) is Ok,
    ensures
        lexeme_texts(lex(s)->Ok_0).flatten() == s,
        s.len() > 0 ==> lex(s)->Ok_0.len() > 0,
        forall|i: int|
            0 <= i < lex(s)->Ok_0.len() ==> (#[trigger] lex(s)->Ok_0[i]).1.len() > 0,
    decreases s.len(),
{
    let lx = lex(s)->Ok_0;
    if s.len() == 0 {
        assert(lexeme_texts(lx).len() == 0);
    } else {
        lemma_lex_step(s);
        let n = classify(s)->Ok_0.1;
        let x = (classify(s)->Ok_0.0, s.subrange(0, n));
        let tail = s.subrange(n, s.len() as int);
        lemma_lex_partition(tail);
        let l = lex(tail)->Ok_0;
        assert(lx == seq![x] + l);
        assert(lexeme_texts(lx).drop_first() =~= lexeme_texts(l));
        assert(s =~= x.1 + tail);
        assert forall|i: int| 0 <= i < lx.len() implies (#[trigger] lx[i]).1.len() > 0 by {
            if i > 0 {
                assert(lx[i] == l[i - 1]);
            }
        }
    }
}

/// Concatenating the tokens of a scan, in order, gives back the scanned text:
/// no byte is lost, repeated or moved.
pub proof fn lemma_scan_covers<'a>(t: Token<'a>, v: Seq<Token<'a>>)
    requires
        t.wf(),
        t.is_scan(v),
    ensures
        texts(v).flatten() == t.text(),
{
    let lx = lex(t.text())->Ok_0;
    lemma_lex_partition(t.text());
    assert(texts(v) =~= lexeme_texts(lx));
}

/// A scan has at least one token, and every token of it has a non-empty text.
pub proof fn lemma_scan_non_empty<'a>(t: Token<'a>, v: Seq<Token<'a>>)
    requires
        t.wf(),
        t.is_scan(v),
    ensures
        v.len() > 0,
        forall|i: int| 0 <= i < v.len() ==> (#[trigger] v[i]).text().len() > 0,
{
    lemma_lex_partition(t.text());
}

proof fn lemma_offset_increases(lx: Seq<(TokenCategory, Seq<u8>)>, i: int, j: int)
    requires
        0 <= i < j <= lx.len(),
        forall|k: int| 0 <= k < lx.len() ==> (#[trigger] lx[k]).1.len() > 0,
    ensures
        lexeme_offset(lx, i) < lexeme_offset(lx, j),
    decreases j - i,
{
    if j - 1 > i {
        lemma_offset_increases(lx, i, j - 1);
    }
}

/// Rows never decrease as the index grows.
proof fn lemma_rows_grow(buf: Seq<u8>, a: int, b: int)
    requires
        0 <= a <= b <= buf.len(),
    ensures
        count_newlines(buf.subrange(0, a)) <= count_newlines(buf.subrange(0, b)),
{
    lemma_concat(buf.subrange(0, a), buf.subrange(a, b));
    assert(buf.subrange(0, a) + buf.subrange(a, b) =~= buf.subrange(0, b));
}

/// Along a scan, byte indices strictly increase and rows never decrease, and
/// every token's line start plus its column is its index.
pub proof fn lemma_scan_monotone<'a>(t: Token<'a>, v: Seq<Token<'a>>)
    requires
        t.wf(),
        t.is_scan(v),
    ensures
        forall|i: int, j: int|
            0 <= i < j < v.len() ==> (#[trigger] v[i]).index < (#[trigger] v[j]).index
                && v[i].row <= v[j].row,
        forall|i: int|
            0 <= i < v.len() ==> (#[trigger] v[i]).line_start + v[i].col == v[i].index,
{
    let lx = lex(t.text())->Ok_0;
    lemma_lex_partition(t.text());
    assert forall|i: int, j: int| 0 <= i < j < v.len() implies (#[trigger] v[i]).index < (
    #[trigger] v[j]).index && v[i].row <= v[j].row by {
        lemma_offset_increases(lx, i, j);
        lemma_rows_grow(t.source(), v[i].index as int, v[j].index as int);
    }
}

/// Splitting a token moves forward: the remainder starts after the left
/// part, on the same row or a later one, begins a later line when it is on a
/// later row, and both keep line start plus column equal to their index.
pub proof fn lemma_split_monotone<'a>(
    t: Token<'a>,
    offset: int,
    left: Token<'a>,
    right: Option<Token<'a>>,
)
    requires
        t.wf(),
        1 <= offset <= t.text().len(),
        t.is_split(offset, left, right),
    ensures
        left.line_start + left.col == left.index,
        right matches Some(r) ==> {
            &&& left.index < r.index
            &&& left.row <= r.row
            &&& (r.row > t.row ==> r.line_start > t.line_start)
            &&& r.line_start + r.col == r.index
        },
{
    lemma_line_start_facts(t.text().subrange(0, offset));
}

proof fn lemma_sequence_lead(s: Seq<u8>, i: int)
    requires
        0 <= i,
    ensures
        sequence_from(s, i) is Some ==> s.len() > 0 && !is_alnum_byte(s[0])
            && !is_whitespace_byte(s[0]),
    decreases sequence_table().len() - i,
{
    if i < sequence_table().len() {
        if starts_with(s, sequence_table()[i]) {
            let p = sequence_table()[i];
            assert(s.subrange(0, p.len() as int)[0] == s[0]);
        } else {
            lemma_sequence_lead(s, i + 1);
        }
    }
}

proof fn lemma_alnum_end_full(s: Seq<u8>, i: int)
    requires
        0 <= i <= s.len(),
        forall|j: int| 0 <= j < s.len() ==> is_alnum_byte(#[trigger] s[j]),
    ensures
        alnum_end(s, i) == s.len(),
    decreases s.len() - i,
{
    if i < s.len() {
        lemma_alnum_end_full(s, i + 1);
    }
}

proof fn lemma_run_end_full(s: Seq<u8>, i: int, b: u8)
    requires
        0 <= i <= s.len(),
        forall|j: int| 0 <= j < s.len() ==> #[trigger] s[j] == b,
    ensures
        run_end(s, i, b) == s.len(),
    decreases s.len() - i,
{
    if i < s.len() {
        lemma_run_end_full(s, i + 1, b);
    }
}

/// A whole alphanumeric run, or a whole run of one whitespace character,
/// split anywhere, leaves a left part that is again one whole token of the
/// same category; the remainder's category is that of its own text.
pub proof fn lemma_split_keeps_category<'a>(
    t: Token<'a>,
    offset: int,
    left: Token<'a>,
    right: Option<Token<'a>>,
)
    requires
        t.wf(),
        t.is_split(offset, left, right),
        1 <= offset <= t.text().len(),
        t.category == TokenCategory::Alphanumeric || t.category == TokenCategory::Whitespace,
        classify(t.text()) == Ok::<(TokenCategory, int), ErrorKind>(
            (t.category, t.text().len() as int),
        ),
    ensures
        left.text() == t.text().subrange(0, offset),
        left.category == t.category,
        classify(left.text()) == Ok::<(TokenCategory, int), ErrorKind>(
            (t.category, offset),
        ),
        right matches Some(r) ==> category_of(r.text()) == Ok::<TokenCategory, ErrorKind>(
            r.category,
        ),
{
    reveal(classify);
    let s = t.text();
    let h = left.text();
    assert(h[0] == s[0]);
    lemma_sequence_lead(s, 0);
    lemma_sequence_lead(h, 0);
    if t.category == TokenCategory::Alphanumeric {
        lemma_alnum_end_all(s, 0);
        assert forall|j: int| 0 <= j < h.len() implies is_alnum_byte(#[trigger] h[j]) by {
            assert(h[j] == s[j]);
        }
        lemma_alnum_end_full(h, 1);
    } else {
        lemma_run_end_all(s, 0, s[0]);
        assert forall|j: int| 0 <= j < h.len() implies #[trigger] h[j] == s[0] by {
            assert(h[j] == s[j]);
        }
        lemma_run_end_full(h, 1, s[0]);
    }
}

/// A whole alphanumeric run, or a whole run of one whitespace character, is
/// ASCII, so it can be split at every offset from 1 to its length.
pub proof fn lemma_run_splits_anywhere<'a>(t: Token<'a>, offset: int)
    requires
        t.wf(),
        1 <= offset <= t.text().len(),
        t.category == TokenCategory::Alphanumeric || t.category == TokenCategory::Whitespace,
        classify(t.text()) == Ok::<(TokenCategory, int), ErrorKind>(
            (t.category, t.text().len() as int),
        ),
    ensures
        is_char_boundary(t.text(), offset),
{
    reveal(classify);
    let s = t.text();
    lemma_sequence_lead(s, 0);
    if t.category == TokenCategory::Alphanumeric {
        lemma_alnum_end_all(s, 0);
        assert(is_alnum_byte(s[offset - 1]));
    } else {
        lemma_run_end_all(s, 0, s[0]);
        assert(s[offset - 1] == s[0]);
    }
    lemma_boundary_after_ascii(s, offset);
}

/// Scanning the concatenation of a scan's tokens gives the same tokens: the
/// same texts, categories and places.
pub proof fn lemma_rescan_same<'a, 'b>(
    t: Token<'a>,
    v: Seq<Token<'a>>,
    u: Token<'b>,
    w: Seq<Token<'b>>,
)
    requires
        t.wf(),
        t.index == 0,
        t.text() == t.source(),
        category_of(t.text()) == Ok::<TokenCategory, ErrorKind>(t.category),
        t.is_scan(v),
        u.wf(),
        u.index == 0,
        u.text() == u.source(),
        u.category == t.category,
        u.text() == texts(v).flatten(),
        u.is_scan(w),
    ensures
        w.len() == v.len(),
        forall|i: int|
            0 <= i < w.len() ==> {
                &&& (#[trigger] w[i]).text() == v[i].text()
                &&& w[i].category == v[i].category
                &&& w[i].index == v[i].index
                &&& w[i].row == v[i].row
                &&& w[i].line_start == v[i].line_start
                &&& w[i].col == v[i].col
            },
{
    lemma_scan_covers(t, v);
}

} // verus!
