//! Lexical classification of the token that starts a fragment of source text.
//!
//! Every rule is stated over the UTF-8 bytes of the fragment. All the
//! characters the rules single out are ASCII, so a byte test and a character
//! test agree, and every length produced ends on a character boundary.
use vstd::prelude::*;
use vstd::string::StringSliceAdditionalSpecFns;

verus! {

/// The lexical class of a token.
#[derive(Clone, Copy, Debug, PartialEq, Eq, Structural)]
pub enum TokenCategory {
    Sequence,
    Alphanumeric,
    Whitespace,
    StringLiteral,
    Symbol,
    /// Never produced by classification, which reports an `ErrorKind` instead.
    Unknown,
}

/// Why the token at a boundary could not be classified.
#[derive(Clone, Copy, Debug, PartialEq, Eq, Structural)]
pub enum ErrorKind {
    /// The leading character belongs to no class.
    UnrecognizedCharacter,
    /// A quote opens a literal that no matching quote closes.
    UnterminatedStringLiteral,
}

pub const NEWLINE: u8 = 10;

pub const TAB: u8 = 9;

pub const SPACE: u8 = 32;

pub const SINGLE_QUOTE: u8 = 39;

pub const DOUBLE_QUOTE: u8 = 34;

/// ASCII letters and digits: `a`-`z` (97-122), `A`-`Z` (65-90), `0`-`9` (48-57).
pub open spec fn is_alnum_byte(b: u8) -> bool {
    (97 <= b && b <= 122) || (65 <= b && b <= 90) || (48 <= b && b <= 57)
}

/// The single-character symbols `(){}<>[]:;,.@!/\|-+=*?&%$#`, by code.
pub open spec fn is_symbol_byte(b: u8) -> bool {
    b == 40 || b == 41 || b == 123 || b == 125 || b == 60 || b == 62 || b == 91 || b == 93
        || b == 58 || b == 59 || b == 44 || b == 46 || b == 64 || b == 33 || b == 47 || b == 92
        || b == 124 || b == 45 || b == 43 || b == 61 || b == 42 || b == 63 || b == 38 || b == 37
        || b == 36 || b == 35
}

/// Space, newline and tab.
pub open spec fn is_whitespace_byte(b: u8) -> bool {
    b == SPACE || b == NEWLINE || b == TAB
}

/// The two quote characters that open a string literal.
pub open spec fn is_quote_byte(b: u8) -> bool {
    b == SINGLE_QUOTE || b == DOUBLE_QUOTE
}

/// The multi-character sequences, in the order in which they are tried:
/// `===`, `<=`, `>=`, `!=`, `==`, `->`, `=>`, `*=`, `+=`, `/=`, `%=`, `::`.
pub open spec fn sequence_table() -> Seq<Seq<u8>> {
    seq![
        seq![61u8, 61u8, 61u8],
        seq![60u8, 61u8],
        seq![62u8, 61u8],
        seq![33u8, 61u8],
        seq![61u8, 61u8],
        seq![45u8, 62u8],
        seq![61u8, 62u8],
        seq![42u8, 61u8],
        seq![43u8, 61u8],
        seq![47u8, 61u8],
        seq![37u8, 61u8],
        seq![58u8, 58u8],
    ]
}

pub open spec fn starts_with(s: Seq<u8>, p: Seq<u8>) -> bool {
    p.len() <= s.len() && s.subrange(0, p.len() as int) == p
}

/// The length of the first entry of the table, from entry `i` on, that `s` starts with.
pub open spec fn sequence_from(s: Seq<u8>, i: int) -> Option<int>
    decreases sequence_table().len() - i,
{
    if i < 0 || i >= sequence_table().len() {
        None
    } else if starts_with(s, sequence_table()[i]) {
        Some(sequence_table()[i].len() as int)
    } else {
        sequence_from(s, i + 1)
    }
}

/// The first index from `i` on whose byte is not alphanumeric, or the length.
pub open spec fn alnum_end(s: Seq<u8>, i: int) -> int
    decreases s.len() - i,
{
    if i >= s.len() {
        s.len() as int
    } else if !is_alnum_byte(s[i]) {
        i
    } else {
        alnum_end(s, i + 1)
    }
}

/// The first index from `i` on whose byte differs from `b`, or the length.
pub open spec fn run_end(s: Seq<u8>, i: int, b: u8) -> int
    decreases s.len() - i,
{
    if i >= s.len() {
        s.len() as int
    } else if s[i] != b {
        i
    } else {
        run_end(s, i + 1, b)
    }
}

/// The first index from `i` on whose byte is `b`, or the length.
pub open spec fn find_byte(s: Seq<u8>, i: int, b: u8) -> int
    decreases s.len() - i,
{
    if i >= s.len() {
        s.len() as int
    } else if s[i] == b {
        i
    } else {
        find_byte(s, i + 1, b)
    }
}

/// The category and byte length of the token at the start of `s`, rules
/// tried in priority order: sequence, alphanumeric run, symbol, run of one
/// repeated whitespace character, string literal.
#[verifier::opaque]
pub open spec fn classify(s: Seq<u8>) -> Result<(TokenCategory, int), ErrorKind> {
    if s.len() == 0 {
        Err(ErrorKind::UnrecognizedCharacter)
    } else if sequence_from(s, 0).is_some() {
        Ok((TokenCategory::Sequence, sequence_from(s, 0).unwrap()))
    } else if is_alnum_byte(s[0]) {
        Ok((TokenCategory::Alphanumeric, alnum_end(s, 1)))
    } else if is_symbol_byte(s[0]) {
        Ok((TokenCategory::Symbol, 1))
    } else if is_whitespace_byte(s[0]) {
        Ok((TokenCategory::Whitespace, run_end(s, 1, s[0])))
    } else if is_quote_byte(s[0]) {
        let close = find_byte(s, 1, s[0]);
        if close < s.len() {
            Ok((TokenCategory::StringLiteral, close + 1))
        } else {
            Err(ErrorKind::UnterminatedStringLiteral)
        }
    } else {
        Err(ErrorKind::UnrecognizedCharacter)
    }
}

/// The category of the token at the start of `s`, or why there is none.
pub open spec fn category_of(s: Seq<u8>) -> Result<TokenCategory, ErrorKind> {
    match classify(s) {
        Ok((c, _)) => Ok(c),
        Err(k) => Err(k),
    }
}

fn is_alphanumeric(c: u8) -> (r: bool)
    ensures
        r == is_alnum_byte(c),
{
    (97 <= c && c <= 122) || (65 <= c && c <= 90) || (48 <= c && c <= 57)
}

fn is_symbol(c: u8) -> (r: bool)
    ensures
        r == is_symbol_byte(c),
{
    c == 40 || c == 41 || c == 123 || c == 125 || c == 60 || c == 62 || c == 91 || c == 93
        || c == 58 || c == 59 || c == 44 || c == 46 || c == 64 || c == 33 || c == 47 || c == 92
        || c == 124 || c == 45 || c == 43 || c == 61 || c == 42 || c == 63 || c == 38 || c == 37
        || c == 36 || c == 35
}

/// Whether `s` starts with `p`.
fn has_prefix(s: &[u8], p: &[u8]) -> (r: bool)
    ensures
        r == starts_with(s@, p@),
{
    if p.len() > s.len() {
        return false;
    }
    let mut i: usize = 0;
    while i < p.len()
        invariant
            p@.len() <= s@.len(),
            0 <= i <= p@.len(),
            forall|j: int| 0 <= j < i ==> s@[j] == p@[j],
        decreases p@.len() - i,
    {
        if s[i] != p[i] {
            assert(s@.subrange(0, p@.len() as int)[i as int] != p@[i as int]);
            return false;
        }
        i = i + 1;
    }
    assert(s@.subrange(0, p@.len() as int) =~= p@);
    true
}

/// The table of multi-character sequences, in the order in which they are tried.
fn sequences() -> (t: Vec<Vec<u8>>)
    ensures
        t@.len() == sequence_table().len(),
        forall|i: int| 0 <= i < t@.len() ==> (#[trigger] t@[i])@ == sequence_table()[i],
{
    let t = vec![
        vec![61u8, 61u8, 61u8],
        vec![60u8, 61u8],
        vec![62u8, 61u8],
        vec![33u8, 61u8],
        vec![61u8, 61u8],
        vec![45u8, 62u8],
        vec![61u8, 62u8],
        vec![42u8, 61u8],
        vec![43u8, 61u8],
        vec![47u8, 61u8],
        vec![37u8, 61u8],
        vec![58u8, 58u8],
    ];
    assert(forall|i: int| 0 <= i < t@.len() ==> (#[trigger] t@[i])@ =~= sequence_table()[i]);
    t
}

/// The byte length of the first sequence of the table that `s` starts with.
fn get_sequence(s: &[u8]) -> (r: Option<usize>)
    ensures
        r matches Some(n) ==> sequence_from(s@, 0) == Some(n as int),
        r is None ==> sequence_from(s@, 0) is None,
{
    let table = sequences();
    let mut i: usize = 0;
    while i < table.len()
        invariant
            0 <= i <= table@.len(),
            table@.len() == sequence_table().len(),
            forall|k: int| 0 <= k < table@.len() ==> (#[trigger] table@[k])@ == sequence_table()[k],
            sequence_from(s@, 0) == sequence_from(s@, i as int),
        decreases table@.len() - i,
    {
        let entry = &table[i];
        if has_prefix(s, entry.as_slice()) {
            return Some(entry.len());
        }
        i = i + 1;
    }
    None
}

proof fn lemma_alnum_end_bounds(s: Seq<u8>, i: int)
    requires
        0 <= i <= s.len(),
    ensures
        i <= alnum_end(s, i) <= s.len(),
    decreases s.len() - i,
{
    if i < s.len() && is_alnum_byte(s[i]) {
        lemma_alnum_end_bounds(s, i + 1);
    }
}

proof fn lemma_run_end_bounds(s: Seq<u8>, i: int, b: u8)
    requires
        0 <= i <= s.len(),
    ensures
        i <= run_end(s, i, b) <= s.len(),
    decreases s.len() - i,
{
    if i < s.len() && s[i] == b {
        lemma_run_end_bounds(s, i + 1, b);
    }
}

proof fn lemma_find_byte_bounds(s: Seq<u8>, i: int, b: u8)
    requires
        0 <= i <= s.len(),
    ensures
        i <= find_byte(s, i, b) <= s.len(),
        find_byte(s, i, b) < s.len() ==> s[find_byte(s, i, b)] == b,
    decreases s.len() - i,
{
    if i < s.len() && s[i] != b {
        lemma_find_byte_bounds(s, i + 1, b);
    }
}

proof fn lemma_sequence_from_bounds(s: Seq<u8>, i: int)
    requires
        0 <= i,
    ensures
        sequence_from(s, i) matches Some(n) ==> 2 <= n <= s.len() && s[n - 1] < 128,
    decreases sequence_table().len() - i,
{
    if i < sequence_table().len() {
        if starts_with(s, sequence_table()[i]) {
            let n = sequence_table()[i].len() as int;
            assert(s.subrange(0, n)[n - 1] == s[n - 1]);
        } else {
            lemma_sequence_from_bounds(s, i + 1);
        }
    }
}

/// A classified token is non-empty, fits in the fragment and ends on an
/// ASCII byte.
pub proof fn lemma_classify_bounds(s: Seq<u8>)
    ensures
        classify(s) matches Ok((_, n)) ==> 1 <= n <= s.len() && s[n - 1] < 128,
{
    reveal(classify);
    if s.len() > 0 {
        lemma_sequence_from_bounds(s, 0);
        lemma_alnum_end_bounds(s, 1);
        lemma_run_end_bounds(s, 1, s[0]);
        lemma_find_byte_bounds(s, 1, s[0]);
        if sequence_from(s, 0).is_none() && is_alnum_byte(s[0]) {
            lemma_alnum_end_all(s, 0);
        }
        if sequence_from(s, 0).is_none() && !is_alnum_byte(s[0]) && !is_symbol_byte(s[0])
            && is_whitespace_byte(s[0]) {
            lemma_run_end_all(s, 0, s[0]);
        }
    }
}

/// Every byte before the end of an alphanumeric run is alphanumeric.
pub proof fn lemma_alnum_end_all(s: Seq<u8>, i: int)
    requires
        0 <= i < s.len(),
        is_alnum_byte(s[i]),
    ensures
        forall|j: int| i <= j < alnum_end(s, i + 1) ==> is_alnum_byte(#[trigger] s[j]),
        alnum_end(s, i + 1) < s.len() ==> !is_alnum_byte(s[alnum_end(s, i + 1)]),
    decreases s.len() - i,
{
    if i + 1 < s.len() && is_alnum_byte(s[i + 1]) {
        lemma_alnum_end_all(s, i + 1);
    }
}

/// Every byte before the end of a run of `b` is `b`.
pub proof fn lemma_run_end_all(s: Seq<u8>, i: int, b: u8)
    requires
        0 <= i < s.len(),
        s[i] == b,
    ensures
        forall|j: int| i <= j < run_end(s, i + 1, b) ==> #[trigger] s[j] == b,
        run_end(s, i + 1, b) < s.len() ==> s[run_end(s, i + 1, b)] != b,
    decreases s.len() - i,
{
    if i + 1 < s.len() && s[i + 1] == b {
        lemma_run_end_all(s, i + 1, b);
    }
}

/// The category and byte length of the token that starts `s`.
pub fn find_first_token(s: &str) -> (r: Result<(TokenCategory, usize), ErrorKind>)
    ensures
        r matches Ok((c, n)) ==> classify(s.spec_bytes()) == Ok::<(TokenCategory, int), ErrorKind>((c, n as int)),
        r matches Err(k) ==> classify(s.spec_bytes()) == Err::<(TokenCategory, int), ErrorKind>(k),
{
    reveal(classify);
    let b = s.as_bytes();
    let len = b.len();
    if len == 0 {
        return Err(ErrorKind::UnrecognizedCharacter);
    }
    if let Some(n) = get_sequence(b) {
        return Ok((TokenCategory::Sequence, n));
    }
    let first = b[0];
    if is_alphanumeric(first) {
        let mut i: usize = 1;
        while i < len && is_alphanumeric(b[i])
            invariant
                1 <= i <= len,
                len == b@.len(),
                alnum_end(b@, 1) == alnum_end(b@, i as int),
            decreases len - i,
        {
            i = i + 1;
        }
        return Ok((TokenCategory::Alphanumeric, i));
    }
    if is_symbol(first) {
        return Ok((TokenCategory::Symbol, 1));
    }
    if first == SPACE || first == NEWLINE || first == TAB {
        let mut i: usize = 1;
        while i < len && b[i] == first
            invariant
                1 <= i <= len,
                len == b@.len(),
                first == b@[0],
                run_end(b@, 1, first) == run_end(b@, i as int, first),
            decreases len - i,
        {
            i = i + 1;
        }
        return Ok((TokenCategory::Whitespace, i));
    }
    if first == SINGLE_QUOTE || first == DOUBLE_QUOTE {
        let mut i: usize = 1;
        while i < len && b[i] != first
            invariant
                1 <= i <= len,
                len == b@.len(),
                first == b@[0],
                find_byte(b@, 1, first) == find_byte(b@, i as int, first),
            decreases len - i,
        {
            i = i + 1;
        }
        if i < len {
            return Ok((TokenCategory::StringLiteral, i + 1));
        }
        return Err(ErrorKind::UnterminatedStringLiteral);
    }
    Err(ErrorKind::UnrecognizedCharacter)
}

impl TokenCategory {
    /// The category of the token that starts `s`, or why it has none.
    pub fn from(s: &str) -> (r: Result<TokenCategory, ErrorKind>)
        ensures
            r == category_of(s.spec_bytes()),
    {
        match find_first_token(s) {
            Ok((c, _)) => Ok(c),
            Err(k) => Err(k),
        }
    }
}

} // verus!
