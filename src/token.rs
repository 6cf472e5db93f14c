//! Tokens: classified views into a shared source buffer, with their position,
//! and the operations that split them and carve a buffer into a sequence.
use vstd::prelude::*;
use vstd::string::StringSliceAdditionalSpecFns;
use vstd::utf8::*;
use crate::classify::{
    category_of, classify, find_byte, find_first_token, lemma_classify_bounds, ErrorKind,
    TokenCategory, NEWLINE,
};
use crate::position::{
    count_newlines, is_position, lemma_boundary_after_ascii, lemma_concat, lemma_line_start_facts,
    line_start_of,
};

verus! {

broadcast use vstd::utf8::group_utf8_lib;

/// A fragment of a source buffer, its category, and where it starts.
#[derive(Clone, Copy, Debug)]
pub struct Token<'a> {
    /// The fragment itself.
    pub string: &'a str,
    /// The whole source the fragment was cut from.
    pub buffer: &'a str,
    /// Where the line of the fragment's first byte begins in `buffer`.
    pub line_start: usize,
    /// Where the fragment begins in `buffer`.
    pub index: usize,
    /// Zero-based line of the fragment's first byte.
    pub row: usize,
    /// Zero-based byte column of the fragment's first byte.
    pub col: usize,
    /// The lexical class the fragment was measured as.
    pub category: TokenCategory,
}

/// A token that could not be classified, and where it starts.
#[derive(Clone, Copy, Debug, PartialEq, Eq, Structural)]
pub struct ScanError {
    pub kind: ErrorKind,
    /// Byte offset in the source.
    pub index: usize,
    /// Zero-based line.
    pub row: usize,
    /// Zero-based byte column.
    pub col: usize,
}

/// The bytes of `s` up to its first newline, or all of them.
pub open spec fn first_line(s: Seq<u8>) -> Seq<u8> {
    s.subrange(0, find_byte(s, 0, NEWLINE))
}

/// The part of `string` before its first newline.
fn get_line(string: &str) -> (r: &str)
    ensures
        r.spec_bytes() == first_line(string.spec_bytes()),
{
    let b = string.as_bytes();
    let len = b.len();
    let mut i: usize = 0;
    while i < len && b[i] != NEWLINE
        invariant
            0 <= i <= len,
            len == b@.len(),
            find_byte(b@, 0, NEWLINE) == find_byte(b@, i as int, NEWLINE),
        decreases len - i,
    {
        i = i + 1;
    }
    proof {
        if i < len {
            is_char_boundary_iff_not_is_continuation_byte(b@, i as int);
        } else {
            is_char_boundary_start_end_of_seq(b@);
        }
    }
    let (line, _) = string.split_at(i);
    line
}

/// The lexemes of `s`, each a category and its bytes, left to right; or the
/// first failure and the offset in `s` where it occurs.
pub open spec fn lex(s: Seq<u8>) -> Result<Seq<(TokenCategory, Seq<u8>)>, (ErrorKind, int)>
    decreases s.len(),
{
    if s.len() == 0 {
        Ok(Seq::empty())
    } else {
        match classify(s) {
            Err(k) => Err((k, 0)),
            Ok((c, n)) => if 0 < n <= s.len() {
                join(seq![(c, s.subrange(0, n))], n, lex(s.subrange(n, s.len() as int)))
            } else {
                Err((ErrorKind::UnrecognizedCharacter, 0))
            },
        }
    }
}

/// `r`, the lexing of what follows `k` bytes that lexed as `pre`.
pub open spec fn join(
    pre: Seq<(TokenCategory, Seq<u8>)>,
    k: int,
    r: Result<Seq<(TokenCategory, Seq<u8>)>, (ErrorKind, int)>,
) -> Result<Seq<(TokenCategory, Seq<u8>)>, (ErrorKind, int)> {
    match r {
        Ok(l) => Ok(pre + l),
        Err((e, p)) => Err((e, p + k)),
    }
}

/// The total length of the first `i` lexemes: where lexeme `i` begins.
pub open spec fn lexeme_offset(lx: Seq<(TokenCategory, Seq<u8>)>, i: int) -> int
    decreases i,
{
    if i <= 0 {
        0
    } else {
        lexeme_offset(lx, i - 1) + lx[i - 1].1.len()
    }
}

/// Appending lexemes does not move the earlier ones.
pub proof fn lemma_offset_push(lx: Seq<(TokenCategory, Seq<u8>)>, x: (TokenCategory, Seq<u8>), i: int)
    requires
        0 <= i <= lx.len(),
    ensures
        lexeme_offset(lx.push(x), i) == lexeme_offset(lx, i),
    decreases i,
{
    if i > 0 {
        lemma_offset_push(lx, x, i - 1);
        assert(lx.push(x)[i - 1] == lx[i - 1]);
    }
}

/// The tokens of `v` that are not whitespace, in order.
pub open spec fn without_whitespace<'a>(v: Seq<Token<'a>>) -> Seq<Token<'a>> {
    v.filter(|t: Token<'a>| t.category != TokenCategory::Whitespace)
}

/// The fragment of each token of `v`, in order.
pub open spec fn strings_of<'a>(v: Seq<Token<'a>>) -> Seq<&'a str> {
    v.map_values(|t: Token<'a>| t.string)
}

/// The fragments of the tokens of `v`.
fn strings<'a>(v: &Vec<Token<'a>>) -> (r: Vec<&'a str>)
    ensures
        r@ == strings_of(v@),
{
    let mut out: Vec<&'a str> = Vec::new();
    let mut i: usize = 0;
    while i < v.len()
        invariant
            0 <= i <= v@.len(),
            out@ =~= strings_of(v@.subrange(0, i as int)),
        decreases v@.len() - i,
    {
        out.push(v[i].string);
        i = i + 1;
        assert(out@ =~= strings_of(v@.subrange(0, i as int)));
    }
    assert(v@.subrange(0, v@.len() as int) =~= v@);
    out
}

/// One step of lexing: the first lexeme, then the lexing of what follows it.
pub proof fn lemma_lex_step(t: Seq<u8>)
    requires
        classify(t) is Ok,
    ensures
        ({
            let n = classify(t)->Ok_0.1;
            let x = (classify(t)->Ok_0.0, t.subrange(0, n));
            &&& 0 < n <= t.len()
            &&& lex(t) == join(seq![x], n, lex(t.subrange(n, t.len() as int)))
            &&& (n == t.len() ==> lex(t) == Ok::<Seq<(TokenCategory, Seq<u8>)>, (ErrorKind, int)>(
                seq![x],
            ))
        }),
{
    lemma_classify_bounds(t);
    let n = classify(t)->Ok_0.1;
    let x = (classify(t)->Ok_0.0, t.subrange(0, n));
    if n == t.len() {
        assert(t.subrange(n, t.len() as int).len() == 0);
        assert(seq![x] + Seq::<(TokenCategory, Seq<u8>)>::empty() =~= seq![x]);
    }
}

/// Joining in two steps is joining once.
pub proof fn lemma_join_join(
    pre: Seq<(TokenCategory, Seq<u8>)>,
    k: int,
    x: (TokenCategory, Seq<u8>),
    n: int,
    r: Result<Seq<(TokenCategory, Seq<u8>)>, (ErrorKind, int)>,
)
    ensures
        join(pre, k, join(seq![x], n, r)) == join(pre.push(x), k + n, r),
{
    if let Ok(l) = r {
        assert(pre + (seq![x] + l) =~= pre.push(x) + l);
    }
}

impl<'a> Token<'a> {
    /// The bytes of the fragment.
    pub open spec fn text(&self) -> Seq<u8> {
        self.string.spec_bytes()
    }

    /// The bytes of the whole source.
    pub open spec fn source(&self) -> Seq<u8> {
        self.buffer.spec_bytes()
    }

    /// The fragment is non-empty, lies in the source at `index`, and `row`,
    /// `line_start` and `col` describe that place.
    pub open spec fn wf(&self) -> bool {
        &&& self.text().len() > 0
        &&& self.source().len() <= usize::MAX
        &&& self.source().len() >= self.text().len()
        &&& self.index + self.text().len() <= self.source().len()
        &&& self.text() == self.source().subrange(
            self.index as int,
            self.index + self.text().len(),
        )
        &&& is_position(
            self.source(),
            self.index as int,
            self.row as int,
            self.line_start as int,
            self.col as int,
        )
    }

    /// The token that covers the whole of `string`, at its start; an error
    /// at index 0 when the token that starts `string` cannot be classified.
    pub fn from(string: &'a str) -> (r: Result<Token<'a>, ScanError>)
        requires
            0 < string.spec_bytes().len() <= usize::MAX,
        ensures
            r is Ok <==> category_of(string.spec_bytes()) is Ok,
            r matches Ok(t) ==> {
                &&& t.wf()
                &&& t.string == string
                &&& t.buffer == string
                &&& t.index == 0
                &&& t.row == 0
                &&& t.col == 0
                &&& t.line_start == 0
                &&& category_of(string.spec_bytes()) == Ok::<TokenCategory, ErrorKind>(t.category)
            },
            r matches Err(e) ==> {
                &&& category_of(string.spec_bytes()) == Err::<TokenCategory, ErrorKind>(e.kind)
                &&& e.index == 0
                &&& e.row == 0
                &&& e.col == 0
            },
    {
        let category = match TokenCategory::from(string) {
            Ok(c) => c,
            Err(kind) => return Err(ScanError { kind, index: 0, row: 0, col: 0 }),
        };
        let token = Token {
            string: string,
            buffer: string,
            line_start: 0,
            index: 0,
            row: 0,
            col: 0,
            category,
        };
        proof {
            let s = string.spec_bytes();
            assert(s.subrange(0, 0).len() == 0);
            assert(s.subrange(0, s.len() as int) =~= s);
        }
        Ok(token)
    }

    /// `left` and `right` are what splitting this token `offset` bytes in
    /// gives: `left` keeps the first `offset` bytes with this token's place and
    /// category; `right`, absent when nothing is left, holds the rest, starts
    /// `offset` bytes further on, moves down one row per newline in `left`,
    /// and has the category of its own text.
    pub open spec fn is_split(self, offset: int, left: Token<'a>, right: Option<Token<'a>>) -> bool {
        let head = self.text().subrange(0, offset);
        &&& left.wf()
        &&& left.buffer == self.buffer
        &&& left.text() == head
        &&& left.index == self.index
        &&& left.row == self.row
        &&& left.col == self.col
        &&& left.line_start == self.line_start
        &&& left.category == self.category
        &&& (right is None <==> offset == self.text().len())
        &&& (right matches Some(t) ==> {
            &&& t.wf()
            &&& t.buffer == self.buffer
            &&& t.text() == self.text().subrange(offset, self.text().len() as int)
            &&& t.index == self.index + offset
            &&& t.row == self.row + count_newlines(head)
            &&& (if count_newlines(head) > 0 {
                &&& t.line_start == self.index + line_start_of(head)
                &&& t.col == offset - line_start_of(head)
            } else {
                &&& t.line_start == self.line_start
                &&& t.col == self.col + offset
            })
            &&& category_of(t.text()) == Ok::<TokenCategory, ErrorKind>(t.category)
        })
    }

    /// `e` reports that the rest of this token, from `offset` bytes in, does
    /// not start with a token that can be classified: why, and where the rest
    /// starts.
    pub open spec fn is_split_error(self, offset: int, e: ScanError) -> bool {
        &&& 0 < offset < self.text().len()
        &&& category_of(self.text().subrange(offset, self.text().len() as int)) == Err::<
            TokenCategory,
            ErrorKind,
        >(e.kind)
        &&& e.index == self.index + offset
        &&& e.col <= e.index
        &&& is_position(self.source(), e.index as int, e.row as int, e.index - e.col, e.col as int)
    }

    /// Splits the token `offset` bytes in; an error when a rest is left
    /// that does not start with a token that can be classified.
    pub fn split_at(self, offset: usize) -> (r: Result<(Token<'a>, Option<Token<'a>>), ScanError>)
        requires
            self.wf(),
            1 <= offset <= self.text().len(),
            is_char_boundary(self.text(), offset as int),
        ensures
            r is Ok <==> (offset == self.text().len() || category_of(
                self.text().subrange(offset as int, self.text().len() as int),
            ) is Ok),
            r matches Ok((left, right)) ==> self.is_split(offset as int, left, right),
            r matches Err(e) ==> self.is_split_error(offset as int, e),
    {
        let (a, b) = self.string.split_at(offset);
        let left = Token {
            string: a,
            buffer: self.buffer,
            index: self.index,
            line_start: self.line_start,
            row: self.row,
            col: self.col,
            category: self.category,
        };
        let ghost src = self.source();
        let ghost start = self.index as int;
        let ghost end = self.index + self.text().len();
        proof {
            assert(a.spec_bytes() =~= src.subrange(start, start + offset));
            assert(b.spec_bytes() =~= src.subrange(start + offset, end));
        }
        if b.len() == 0 {
            proof {
                assert(self.text().subrange(0, offset as int) =~= self.text());
            }
            return Ok((left, None));
        }
        let bytes = a.as_bytes();
        let mut newlines: usize = 0;
        let mut after_last: usize = 0;
        let mut i: usize = 0;
        while i < offset
            invariant
                0 <= i <= offset,
                offset == bytes@.len(),
                newlines == count_newlines(bytes@.subrange(0, i as int)),
                after_last == line_start_of(bytes@.subrange(0, i as int)),
            decreases offset - i,
        {
            proof {
                assert(bytes@.subrange(0, i + 1).drop_last() =~= bytes@.subrange(0, i as int));
                lemma_line_start_facts(bytes@.subrange(0, i as int));
            }
            if bytes[i] == NEWLINE {
                newlines = newlines + 1;
                after_last = i + 1;
            }
            i = i + 1;
        }
        let ghost head = bytes@;
        proof {
            assert(bytes@.subrange(0, offset as int) =~= head);
            assert(head =~= self.text().subrange(0, offset as int));
            let before = src.subrange(0, start);
            assert(src.subrange(0, start + offset) =~= before + head);
            lemma_concat(before, head);
            lemma_line_start_facts(head);
            lemma_line_start_facts(src.subrange(0, start + offset));
            assert(b.spec_bytes() =~= src.subrange(start + offset, end));
        }
        let (line_start, col) = if newlines > 0 {
            (self.index + after_last, offset - after_last)
        } else {
            (self.line_start, self.col + offset)
        };
        let category = match TokenCategory::from(b) {
            Ok(c) => c,
            Err(kind) => {
                return Err(
                    ScanError { kind, index: self.index + offset, row: self.row + newlines, col },
                );
            },
        };
        let right = Token {
            string: b,
            buffer: self.buffer,
            index: self.index + offset,
            line_start: line_start,
            row: self.row + newlines,
            col: col,
            category,
        };
        Ok((left, Some(right)))
    }

    /// `v` is the whole left-to-right sequence of tokens of this token's text:
    /// one per lexeme, each placed right after the one before, the first at
    /// this token's place and with its category.
    pub open spec fn is_scan(self, v: Seq<Token<'a>>) -> bool {
        match lex(self.text()) {
            Ok(lx) => {
                &&& v.len() == lx.len()
                &&& forall|i: int|
                    0 <= i < v.len() ==> {
                        &&& (#[trigger] v[i]).wf()
                        &&& v[i].buffer == self.buffer
                        &&& v[i].text() == lx[i].1
                        &&& v[i].category == if i == 0 {
                            self.category
                        } else {
                            lx[i].0
                        }
                    }
                &&& forall|i: int|
                    0 <= i < v.len() ==> (#[trigger] v[i]).index == self.index + lexeme_offset(
                        lx,
                        i,
                    )
            },
            Err(_) => false,
        }
    }

    /// `e` names the first token of this token's text that cannot be
    /// classified, why, and where it starts.
    pub open spec fn is_scan_error(self, e: ScanError) -> bool {
        match lex(self.text()) {
            Ok(_) => false,
            Err((k, p)) => {
                &&& e.kind == k
                &&& e.index == self.index + p
                &&& e.col <= e.index
                &&& is_position(
                    self.source(),
                    e.index as int,
                    e.row as int,
                    e.index - e.col,
                    e.col as int,
                )
            },
        }
    }

    /// Cuts off the token that starts this one's text.
    pub fn next_pair(self) -> (r: Result<(Token<'a>, Option<Token<'a>>), ScanError>)
        requires
            self.wf(),
        ensures
            r is Ok <==> (classify(self.text()) matches Ok((_, n)) && (n == self.text().len()
                || classify(self.text().subrange(n, self.text().len() as int)) is Ok)),
            r matches Ok((left, right)) ==> classify(self.text()) matches Ok((_, n))
                && self.is_split(n, left, right),
            r matches Err(e) ==> {
                ||| {
                    &&& classify(self.text()) == Err::<(TokenCategory, int), ErrorKind>(e.kind)
                    &&& e.index == self.index
                    &&& e.row == self.row
                    &&& e.col == self.col
                }
                ||| classify(self.text()) matches Ok((_, n)) && self.is_split_error(n, e)
            },
    {
        match find_first_token(self.string) {
            Err(kind) => Err(ScanError { kind, index: self.index, row: self.row, col: self.col }),
            Ok((_, n)) => {
                proof {
                    lemma_classify_bounds(self.text());
                    lemma_boundary_after_ascii(self.text(), n as int);
                }
                self.split_at(n)
            },
        }
    }

    /// Every token of the text, whitespace included, in source order.
    pub fn get_tokens_including_whitespace(self) -> (r: Result<Vec<Token<'a>>, ScanError>)
        requires
            self.wf(),
        ensures
            r matches Ok(v) ==> self.is_scan(v@),
            r matches Err(e) ==> self.is_scan_error(e),
    {
        let mut out: Vec<Token<'a>> = Vec::new();
        let mut rest = self;
        let ghost pre: Seq<(TokenCategory, Seq<u8>)> = Seq::empty();
        proof {
            assert(join(pre, 0, lex(self.text())) == lex(self.text())) by {
                if let Ok(l) = lex(self.text()) {
                    assert(pre + l =~= l);
                }
            }
        }
        loop
            invariant
                rest.wf(),
                rest.buffer == self.buffer,
                self.index <= rest.index,
                lex(self.text()) == join(pre, rest.index - self.index, lex(rest.text())),
                out@.len() == pre.len(),
                forall|i: int|
                    0 <= i < out@.len() ==> {
                        &&& (#[trigger] out@[i]).wf()
                        &&& out@[i].buffer == self.buffer
                        &&& out@[i].text() == pre[i].1
                        &&& out@[i].category == if i == 0 {
                            self.category
                        } else {
                            pre[i].0
                        }
                    },
                forall|i: int|
                    0 <= i < out@.len() ==> (#[trigger] out@[i]).index == self.index
                        + lexeme_offset(pre, i),
                rest.index == self.index + lexeme_offset(pre, pre.len() as int),
                out@.len() == 0 ==> rest.category == self.category,
                out@.len() > 0 ==> category_of(rest.text()) == Ok::<TokenCategory, ErrorKind>(
                    rest.category,
                ),
            decreases rest.text().len(),
        {
            let ghost old_rest = rest;
            let ghost k = rest.index - self.index;
            match rest.next_pair() {
                Err(e) => {
                    proof {
                        let t = old_rest.text();
                        if classify(t) is Ok {
                            lemma_lex_step(t);
                            let n = classify(t)->Ok_0.1;
                            let tail = t.subrange(n, t.len() as int);
                            assert(lex(tail) == Err::<Seq<(TokenCategory, Seq<u8>)>, (ErrorKind, int)>(
                                (e.kind, 0),
                            ));
                        }
                        lemma_line_start_facts(self.source().subrange(0, e.index as int));
                    }
                    return Err(e);
                },
                Ok((tok, remainder)) => {
                    let ghost n = tok.text().len() as int;
                    let ghost t = old_rest.text();
                    let ghost x = (classify(t)->Ok_0.0, t.subrange(0, n));
                    proof {
                        lemma_lex_step(t);
                        assert forall|i: int| 0 <= i <= pre.len() implies lexeme_offset(pre.push(x), i)
                            == lexeme_offset(pre, i) by {
                            lemma_offset_push(pre, x, i);
                        }
                    }
                    out.push(tok);
                    match remainder {
                        None => {
                            proof {
                                lemma_join_join(pre, k, x, n, Ok(Seq::empty()));
                                assert(pre.push(x) + Seq::<(TokenCategory, Seq<u8>)>::empty() =~= pre.push(x));
                                pre = pre.push(x);
                            }
                            return Ok(out);
                        },
                        Some(next) => {
                            proof {
                                lemma_join_join(pre, k, x, n, lex(next.text()));
                                pre = pre.push(x);
                            }
                            rest = next;
                        },
                    }
                },
            }
        }
    }

    /// The tokens of the text that are not whitespace, in source order.
    pub fn get_tokens(self) -> (r: Result<Vec<Token<'a>>, ScanError>)
        requires
            self.wf(),
        ensures
            r matches Ok(v) ==> exists|w: Seq<Token<'a>>|
                self.is_scan(w) && v@ == without_whitespace(w),
            r matches Err(e) ==> self.is_scan_error(e),
    {
        let all = match self.get_tokens_including_whitespace() {
            Ok(all) => all,
            Err(e) => return Err(e),
        };
        let mut out: Vec<Token<'a>> = Vec::new();
        let mut i: usize = 0;
        while i < all.len()
            invariant
                0 <= i <= all@.len(),
                out@ == without_whitespace(all@.subrange(0, i as int)),
            decreases all@.len() - i,
        {
            let t = all[i];
            proof {
                assert(all@.subrange(0, i + 1).drop_last() =~= all@.subrange(0, i as int));
                assert(all@.subrange(0, i + 1).last() == t);
                reveal(Seq::filter);
            }
            if t.category != TokenCategory::Whitespace {
                out.push(t);
            }
            i = i + 1;
        }
        assert(all@.subrange(0, all@.len() as int) =~= all@);
        Ok(out)
    }

    /// The fragment of every token of the text, whitespace included.
    pub fn get_strings_including_whitespace(self) -> (r: Result<Vec<&'a str>, ScanError>)
        requires
            self.wf(),
        ensures
            r matches Ok(v) ==> exists|w: Seq<Token<'a>>|
                self.is_scan(w) && v@ == strings_of(w),
            r matches Err(e) ==> self.is_scan_error(e),
    {
        match self.get_tokens_including_whitespace() {
            Ok(all) => Ok(strings(&all)),
            Err(e) => Err(e),
        }
    }

    /// The fragment of every token of the text that is not whitespace.
    pub fn get_strings(self) -> (r: Result<Vec<&'a str>, ScanError>)
        requires
            self.wf(),
        ensures
            r matches Ok(v) ==> exists|w: Seq<Token<'a>>|
                self.is_scan(w) && v@ == strings_of(without_whitespace(w)),
            r matches Err(e) ==> self.is_scan_error(e),
    {
        match self.get_tokens() {
            Ok(kept) => Ok(strings(&kept)),
            Err(e) => Err(e),
        }
    }

    /// The line on which the token starts, without its newline.
    pub fn get_line(&self) -> (r: &'a str)
        requires
            self.wf(),
        ensures
            r.spec_bytes() == first_line(
                self.source().subrange(self.line_start as int, self.source().len() as int),
            ),
    {
        proof {
            let before = self.source().subrange(0, self.index as int);
            lemma_line_start_facts(before);
            if self.line_start > 0 {
                assert(before[self.line_start - 1] == self.source()[self.line_start - 1]);
                lemma_boundary_after_ascii(self.source(), self.line_start as int);
            }
        }
        let (_, rest) = self.buffer.split_at(self.line_start);
        get_line(rest)
    }
}

} // verus!
