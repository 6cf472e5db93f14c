//! Line and column bookkeeping over the bytes of a source buffer, and the
//! UTF-8 facts that let the scanner cut a buffer after any ASCII byte.
use vstd::prelude::*;
use vstd::utf8::*;
use crate::classify::NEWLINE;

verus! {

broadcast use vstd::utf8::group_utf8_lib;

/// The number of newline bytes in `s`.
pub open spec fn count_newlines(s: Seq<u8>) -> nat
    decreases s.len(),
{
    if s.len() == 0 {
        0
    } else {
        count_newlines(s.drop_last()) + if s.last() == NEWLINE {
            1nat
        } else {
            0nat
        }
    }
}

/// The index just after the last newline byte of `s`, or 0 when there is none:
/// where the line that `s` ends on begins.
pub open spec fn line_start_of(s: Seq<u8>) -> nat
    decreases s.len(),
{
    if s.len() == 0 {
        0
    } else if s.last() == NEWLINE {
        s.len()
    } else {
        line_start_of(s.drop_last())
    }
}

/// `index`, `row`, `line_start` and `col` describe one place in `buf`: `row`
/// newlines come before it, its line begins at `line_start`, and it lies `col`
/// bytes into that line.
pub open spec fn is_position(buf: Seq<u8>, index: int, row: int, line_start: int, col: int) -> bool {
    &&& 0 <= index <= buf.len()
    &&& row == count_newlines(buf.subrange(0, index))
    &&& line_start == line_start_of(buf.subrange(0, index))
    &&& line_start + col == index
}

pub proof fn lemma_line_start_facts(s: Seq<u8>)
    ensures
        line_start_of(s) <= s.len(),
        count_newlines(s) <= s.len(),
        line_start_of(s) > 0 <==> count_newlines(s) > 0,
        line_start_of(s) > 0 ==> s[line_start_of(s) - 1] == NEWLINE,
    decreases s.len(),
{
    if s.len() > 0 {
        lemma_line_start_facts(s.drop_last());
    }
}

/// Newlines of a concatenation add up, and its last line begins in the second
/// part when that part holds a newline.
pub proof fn lemma_concat(a: Seq<u8>, b: Seq<u8>)
    ensures
        count_newlines(a + b) == count_newlines(a) + count_newlines(b),
        line_start_of(a + b) == if line_start_of(b) > 0 {
            a.len() + line_start_of(b)
        } else {
            line_start_of(a)
        },
    decreases b.len(),
{
    if b.len() == 0 {
        assert(a + b =~= a);
    } else {
        lemma_concat(a, b.drop_last());
        assert((a + b).drop_last() =~= a + b.drop_last());
    }
}

/// The place at the start of a buffer is the only one at row 0 and column 0.
pub proof fn lemma_origin(buf: Seq<u8>, index: int, row: int, line_start: int, col: int)
    requires
        is_position(buf, index, row, line_start, col),
    ensures
        index == 0 || row > 0 || col > 0,
{
    lemma_line_start_facts(buf.subrange(0, index));
}

/// In valid UTF-8 a character boundary follows every ASCII byte.
pub proof fn lemma_boundary_after_ascii(b: Seq<u8>, n: int)
    requires
        valid_utf8(b),
        0 < n <= b.len(),
        b[n - 1] < 128,
    ensures
        is_char_boundary(b, n),
{
    if n == b.len() {
        is_char_boundary_start_end_of_seq(b);
    } else {
        is_char_boundary_iff_not_is_continuation_byte(b, n - 1);
        valid_utf8_split(b, n - 1);
        let tail = b.subrange(n - 1, b.len() as int);
        assert(tail[0] == b[n - 1]);
        assert(is_leading_byte_width_1(tail[0]));
        assert(length_of_first_scalar(tail) == 1);
        assert(valid_utf8(pop_first_scalar(tail)));
        let rest = b.subrange(n, b.len() as int);
        assert(pop_first_scalar(tail) =~= rest);
        assert(rest[0] == b[n]);
        assert(valid_first_scalar(rest));
        assert(!is_continuation_byte(rest[0]));
        is_char_boundary_iff_not_is_continuation_byte(b, n);
    }
}

} // verus!
