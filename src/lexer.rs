use vstd::prelude::*;
use vstd::utf8::{decode_utf8, partial_valid_utf8, partial_valid_utf8_extend_ascii_block, valid_utf8};
use crate::errors::{err_view, Error, ErrorView};

verus! {

/// One atomic unit of JSON text, already validated and decoded.
#[derive(Debug, Clone, PartialEq, Eq)]
pub enum Lexeme {
    OpenBrace,
    CloseBrace,
    OpenBracket,
    CloseBracket,
    Colon,
    Comma,
    True,
    False,
    Null,
    /// A string literal with its escapes decoded.
    Str(String),
    /// A number literal, as written.
    Num(String),
}

/// A lexeme with its texts as character sequences.
pub enum LexemeView {
    OpenBrace,
    CloseBrace,
    OpenBracket,
    CloseBracket,
    Colon,
    Comma,
    True,
    False,
    Null,
    Str(Seq<char>),
    Num(Seq<char>),
}

pub open spec fn lex_view(l: Lexeme) -> LexemeView {
    match l {
        Lexeme::OpenBrace => LexemeView::OpenBrace,
        Lexeme::CloseBrace => LexemeView::CloseBrace,
        Lexeme::OpenBracket => LexemeView::OpenBracket,
        Lexeme::CloseBracket => LexemeView::CloseBracket,
        Lexeme::Colon => LexemeView::Colon,
        Lexeme::Comma => LexemeView::Comma,
        Lexeme::True => LexemeView::True,
        Lexeme::False => LexemeView::False,
        Lexeme::Null => LexemeView::Null,
        Lexeme::Str(s) => LexemeView::Str(s@),
        Lexeme::Num(s) => LexemeView::Num(s@),
    }
}

/// What the lexer finds at a position.
pub enum LexStep {
    /// Only whitespace is left.
    End,
    /// A lexeme, and the position just past it.
    Token(LexemeView, int),
    Fail(ErrorView),
}

/// The next lexeme of `s` at or after `pos`.
pub open spec fn lex_at(s: Seq<u8>, pos: int) -> LexStep {
    let k = skip_space(s, pos);
    if k >= s.len() {
        LexStep::End
    } else if punct_of(s[k]) is Some {
        LexStep::Token(lex_view(punct_of(s[k])->0), k + 1)
    } else if s[k] == 0x22 {
        match string_scan(s, k + 1, Seq::empty()) {
            StrScan::Done(b, e) => if valid_utf8(b) {
                LexStep::Token(LexemeView::Str(decode_utf8(b)), e)
            } else {
                LexStep::Fail(ErrorView::Utf8)
            },
            StrScan::Unterminated => LexStep::Fail(ErrorView::Unterminated),
            StrScan::Escape(a, e) => if valid_utf8(s.subrange(a, e)) {
                LexStep::Fail(ErrorView::Escape(decode_utf8(s.subrange(a, e))))
            } else {
                LexStep::Fail(ErrorView::Utf8)
            },
        }
    } else if is_digit(s[k]) || s[k] == 0x2d {
        let t = s.subrange(k, number_run_end(s, k));
        if is_json_number(t) {
            LexStep::Token(LexemeView::Num(decode_utf8(t)), number_run_end(s, k))
        } else {
            LexStep::Fail(ErrorView::Unexpected(decode_utf8(t)))
        }
    } else if is_letter(s[k]) {
        let t = s.subrange(k, word_end(s, k));
        match word_of(t) {
            Some(l) => LexStep::Token(lex_view(l), word_end(s, k)),
            None => LexStep::Fail(ErrorView::Unexpected(decode_utf8(t))),
        }
    } else if valid_utf8(s.subrange(k, k + 1)) {
        LexStep::Fail(ErrorView::Unexpected(decode_utf8(s.subrange(k, k + 1))))
    } else {
        LexStep::Fail(ErrorView::Utf8)
    }
}

/// Whether `r`, with the lexer then at `p`, is what `lex_at(s, pos)` says.
pub open spec fn lexed(s: Seq<u8>, pos: int, r: Option<Result<Lexeme, Error>>, p: int) -> bool {
    match lex_at(s, pos) {
        LexStep::End => r is None,
        LexStep::Token(l, e) => r matches Some(Ok(x)) && lex_view(x) == l && p == e,
        LexStep::Fail(err) => r matches Some(Err(x)) && err_view(x) == err,
    }
}

pub open spec fn is_space(b: u8) -> bool {
    b == 0x20 || b == 0x09 || b == 0x0a || b == 0x0d
}

pub open spec fn is_digit(b: u8) -> bool {
    0x30 <= b <= 0x39
}

pub open spec fn is_number_byte(b: u8) -> bool {
    is_digit(b) || b == 0x2b || b == 0x2d || b == 0x2e || b == 0x45 || b == 0x65
}

pub open spec fn is_letter(b: u8) -> bool {
    (0x41 <= b <= 0x5a) || (0x61 <= b <= 0x7a)
}

/// The lexeme that a single punctuation byte stands for.
pub open spec fn punct_of(b: u8) -> Option<Lexeme> {
    if b == 0x7b {
        Some(Lexeme::OpenBrace)
    } else if b == 0x7d {
        Some(Lexeme::CloseBrace)
    } else if b == 0x5b {
        Some(Lexeme::OpenBracket)
    } else if b == 0x5d {
        Some(Lexeme::CloseBracket)
    } else if b == 0x3a {
        Some(Lexeme::Colon)
    } else if b == 0x2c {
        Some(Lexeme::Comma)
    } else {
        None
    }
}

/// The literal lexeme that a word spells, if any.
pub open spec fn word_of(w: Seq<u8>) -> Option<Lexeme> {
    if w == seq![0x74u8, 0x72, 0x75, 0x65] {
        Some(Lexeme::True)
    } else if w == seq![0x66u8, 0x61, 0x6c, 0x73, 0x65] {
        Some(Lexeme::False)
    } else if w == seq![0x6eu8, 0x75, 0x6c, 0x6c] {
        Some(Lexeme::Null)
    } else {
        None
    }
}

/// First index at or after `i` whose byte is not whitespace.
pub open spec fn skip_space(s: Seq<u8>, i: int) -> int
    decreases s.len() - i,
{
    if 0 <= i < s.len() && is_space(s[i]) {
        skip_space(s, i + 1)
    } else {
        i
    }
}

/// First index at or after `i` whose byte is not a decimal digit.
pub open spec fn digits_end(s: Seq<u8>, i: int) -> int
    decreases s.len() - i,
{
    if 0 <= i < s.len() && is_digit(s[i]) {
        digits_end(s, i + 1)
    } else {
        i
    }
}

/// First index at or after `i` whose byte cannot occur in a number.
pub open spec fn number_run_end(s: Seq<u8>, i: int) -> int
    decreases s.len() - i,
{
    if 0 <= i < s.len() && is_number_byte(s[i]) {
        number_run_end(s, i + 1)
    } else {
        i
    }
}

/// First index at or after `i` whose byte is not an ASCII letter.
pub open spec fn word_end(s: Seq<u8>, i: int) -> int
    decreases s.len() - i,
{
    if 0 <= i < s.len() && is_letter(s[i]) {
        word_end(s, i + 1)
    } else {
        i
    }
}

/// End of the integer part of a number that starts at `i`, or -1.
pub open spec fn int_end(s: Seq<u8>, i: int) -> int {
    if 0 <= i < s.len() && s[i] == 0x30 {
        i + 1
    } else if 0 <= i < s.len() && is_digit(s[i]) {
        digits_end(s, i)
    } else {
        -1
    }
}

/// End of the optional fraction that starts at `i`, or -1.
pub open spec fn frac_end(s: Seq<u8>, i: int) -> int {
    if 0 <= i < s.len() && s[i] == 0x2e {
        if i + 1 < s.len() && is_digit(s[i + 1]) {
            digits_end(s, i + 1)
        } else {
            -1
        }
    } else {
        i
    }
}

/// End of the optional exponent that starts at `i`, or -1.
pub open spec fn exp_end(s: Seq<u8>, i: int) -> int {
    if 0 <= i < s.len() && (s[i] == 0x65 || s[i] == 0x45) {
        let j = if i + 1 < s.len() && (s[i + 1] == 0x2b || s[i + 1] == 0x2d) {
            i + 2
        } else {
            i + 1
        };
        if j < s.len() && is_digit(s[j]) {
            digits_end(s, j)
        } else {
            -1
        }
    } else {
        i
    }
}

/// JSON's number grammar: `-? (0 | [1-9][0-9]*) (. [0-9]+)? ([eE] [+-]? [0-9]+)?`.
pub open spec fn is_json_number(s: Seq<u8>) -> bool {
    let a: int = if s.len() > 0 && s[0] == 0x2d { 1 } else { 0 };
    let b = int_end(s, a);
    b >= 0 && frac_end(s, b) >= 0 && exp_end(s, frac_end(s, b)) == s.len()
}

/// Relies on String::from_utf8: it succeeds exactly on valid UTF-8 and then
/// holds the decoded characters.
#[verifier::external_body]
pub(crate) fn utf8_string(bytes: Vec<u8>) -> (r: Option<String>)
    ensures
        r is Some <==> valid_utf8(bytes@),
        r matches Some(s) ==> s@ == decode_utf8(bytes@),
{
    match String::from_utf8(bytes) {
        Ok(s) => Some(s),
        Err(_) => None,
    }
}

fn space_byte(b: u8) -> (r: bool)
    ensures
        r == is_space(b),
{
    b == 0x20 || b == 0x09 || b == 0x0a || b == 0x0d
}

fn digit_byte(b: u8) -> (r: bool)
    ensures
        r == is_digit(b),
{
    0x30 <= b && b <= 0x39
}

fn punct(b: u8) -> (r: Option<Lexeme>)
    ensures
        r == punct_of(b),
{
    if b == 0x7b {
        Some(Lexeme::OpenBrace)
    } else if b == 0x7d {
        Some(Lexeme::CloseBrace)
    } else if b == 0x5b {
        Some(Lexeme::OpenBracket)
    } else if b == 0x5d {
        Some(Lexeme::CloseBracket)
    } else if b == 0x3a {
        Some(Lexeme::Colon)
    } else if b == 0x2c {
        Some(Lexeme::Comma)
    } else {
        None
    }
}

fn word(w: &Vec<u8>) -> (r: Option<Lexeme>)
    ensures
        r == word_of(w@),
{
    if w.len() == 4 && w[0] == 0x74 && w[1] == 0x72 && w[2] == 0x75 && w[3] == 0x65 {
        assert(w@ =~= seq![0x74u8, 0x72, 0x75, 0x65]);
        Some(Lexeme::True)
    } else if w.len() == 5 && w[0] == 0x66 && w[1] == 0x61 && w[2] == 0x6c && w[3] == 0x73
        && w[4] == 0x65 {
        assert(w@ =~= seq![0x66u8, 0x61, 0x6c, 0x73, 0x65]);
        Some(Lexeme::False)
    } else if w.len() == 4 && w[0] == 0x6e && w[1] == 0x75 && w[2] == 0x6c && w[3] == 0x6c {
        assert(w@ =~= seq![0x6eu8, 0x75, 0x6c, 0x6c]);
        Some(Lexeme::Null)
    } else {
        assert(w@ =~= seq![0x74u8, 0x72, 0x75, 0x65] ==> w.len() == 4 && w@[0] == 0x74
            && w@[1] == 0x72 && w@[2] == 0x75 && w@[3] == 0x65);
        assert(w@ =~= seq![0x66u8, 0x61, 0x6c, 0x73, 0x65] ==> w.len() == 5 && w@[0] == 0x66
            && w@[1] == 0x61 && w@[2] == 0x6c && w@[3] == 0x73 && w@[4] == 0x65);
        assert(w@ =~= seq![0x6eu8, 0x75, 0x6c, 0x6c] ==> w.len() == 4 && w@[0] == 0x6e
            && w@[1] == 0x75 && w@[2] == 0x6c && w@[3] == 0x6c);
        None
    }
}

fn scan_digits(s: &Vec<u8>, i: usize) -> (r: usize)
    requires
        i <= s.len(),
    ensures
        r as int == digits_end(s@, i as int),
        i <= r <= s.len(),
{
    let mut j: usize = i;
    while j < s.len() && digit_byte(s[j])
        invariant
            i <= j <= s.len(),
            digits_end(s@, i as int) == digits_end(s@, j as int),
        decreases s.len() - j,
    {
        j += 1;
    }
    j
}

/// Whether `s` is a number in JSON's grammar.
pub fn number_syntax(s: &Vec<u8>) -> (r: bool)
    ensures
        r == is_json_number(s@),
{
    let n = s.len();
    let a: usize = if n > 0 && s[0] == 0x2d { 1 } else { 0 };
    if a >= n || !digit_byte(s[a]) {
        return false;
    }
    let b: usize = if s[a] == 0x30 { a + 1 } else { scan_digits(s, a) };
    let c: usize = if b < n && s[b] == 0x2e {
        if b + 1 < n && digit_byte(s[b + 1]) {
            scan_digits(s, b + 1)
        } else {
            return false;
        }
    } else {
        b
    };
    let d: usize = if c < n && (s[c] == 0x65 || s[c] == 0x45) {
        let j: usize = if c + 1 < n && (s[c + 1] == 0x2b || s[c + 1] == 0x2d) {
            c + 2
        } else {
            c + 1
        };
        if j < n && digit_byte(s[j]) {
            scan_digits(s, j)
        } else {
            return false;
        }
    } else {
        c
    };
    d == n
}

/// The value of a hex digit, or -1.
pub open spec fn hex_digit(b: u8) -> int {
    if 0x30 <= b <= 0x39 {
        b - 0x30
    } else if 0x61 <= b <= 0x66 {
        b - 0x61 + 10
    } else if 0x41 <= b <= 0x46 {
        b - 0x41 + 10
    } else {
        -1
    }
}

/// The outcome of reading the four hex digits of a `\u` escape.
pub enum Hex {
    Value(int),
    /// The input ended first.
    RanOut,
    /// The byte at this index is not a hex digit.
    Bad(int),
}

/// Reads the hex digits at `i + n ..= i + 3`, with `acc` the value of the
/// first `n`.
pub open spec fn hex_scan(s: Seq<u8>, i: int, n: int, acc: int) -> Hex
    decreases 4 - n,
{
    if n >= 4 {
        Hex::Value(acc)
    } else if i + n >= s.len() {
        Hex::RanOut
    } else if hex_digit(s[i + n]) < 0 {
        Hex::Bad(i + n)
    } else {
        hex_scan(s, i, n + 1, acc * 16 + hex_digit(s[i + n]))
    }
}

/// The UTF-8 encoding of code point `c`.
pub open spec fn utf8_bytes(c: u32) -> Seq<u8> {
    if c < 0x80 {
        seq![c as u8]
    } else if c < 0x800 {
        seq![(0xc0 | (c >> 6)) as u8, (0x80 | (c & 0x3f)) as u8]
    } else if c < 0x10000 {
        seq![(0xe0 | (c >> 12)) as u8, (0x80 | ((c >> 6) & 0x3f)) as u8, (0x80 | (c & 0x3f)) as u8]
    } else {
        seq![
            (0xf0 | (c >> 18)) as u8,
            (0x80 | ((c >> 12) & 0x3f)) as u8,
            (0x80 | ((c >> 6) & 0x3f)) as u8,
            (0x80 | (c & 0x3f)) as u8,
        ]
    }
}

/// The byte that a one-character escape `\c` stands for.
pub open spec fn simple_escape(c: u8) -> Option<u8> {
    if c == 0x22 || c == 0x5c || c == 0x2f {
        Some(c)
    } else if c == 0x62 {
        Some(0x08)
    } else if c == 0x66 {
        Some(0x0c)
    } else if c == 0x6e {
        Some(0x0a)
    } else if c == 0x72 {
        Some(0x0d)
    } else if c == 0x74 {
        Some(0x09)
    } else {
        None
    }
}

/// The outcome of reading the body of a string literal.
pub enum StrScan {
    /// The decoded bytes, and the index just past the closing quote.
    Done(Seq<u8>, int),
    Unterminated,
    /// A bad escape, spanning these indices.
    Escape(int, int),
}

/// Reads a string body from index `i` on, with `out` the bytes decoded so far.
pub open spec fn string_scan(s: Seq<u8>, i: int, out: Seq<u8>) -> StrScan
    decreases (if i <= s.len() {
        s.len() - i
    } else {
        0
    }),
{
    if i < 0 || i >= s.len() {
        StrScan::Unterminated
    } else if s[i] == 0x22 {
        StrScan::Done(out, i + 1)
    } else if s[i] != 0x5c {
        string_scan(s, i + 1, out.push(s[i]))
    } else if i + 1 >= s.len() {
        StrScan::Unterminated
    } else if simple_escape(s[i + 1]) is Some {
        string_scan(s, i + 2, out.push(simple_escape(s[i + 1])->0))
    } else if s[i + 1] != 0x75 {
        StrScan::Escape(i, i + 2)
    } else {
        match hex_scan(s, i + 2, 0, 0) {
            Hex::RanOut => StrScan::Unterminated,
            Hex::Bad(p) => StrScan::Escape(i, p),
            Hex::Value(hi) => {
                let j = i + 6;
                if 0xdc00 <= hi <= 0xdfff {
                    StrScan::Escape(i, j)
                } else if 0xd800 <= hi <= 0xdbff {
                    if j + 1 < s.len() && s[j] == 0x5c && s[j + 1] == 0x75 {
                        match hex_scan(s, j + 2, 0, 0) {
                            Hex::RanOut => StrScan::Unterminated,
                            Hex::Bad(p) => StrScan::Escape(i, p),
                            Hex::Value(lo) => if lo < 0xdc00 || lo > 0xdfff {
                                StrScan::Escape(i, j + 6)
                            } else {
                                string_scan(
                                    s,
                                    j + 6,
                                    out + utf8_bytes((0x10000 + (hi - 0xd800) * 0x400 + (lo
                                        - 0xdc00)) as u32),
                                )
                            },
                        }
                    } else {
                        StrScan::Escape(i, j)
                    }
                } else {
                    string_scan(s, j, out + utf8_bytes(hi as u32))
                }
            },
        }
    }
}

/// What the run of number bytes `s[k..e]` gives: a number lexeme when it
/// follows JSON's grammar, else an unexpected lexeme.
pub open spec fn number_result(s: Seq<u8>, k: int, e: int, r: Option<Result<Lexeme, Error>>) -> bool {
    let t = s.subrange(k, e);
    if is_json_number(t) {
        r matches Some(Ok(Lexeme::Num(x))) && x@ == decode_utf8(t)
    } else {
        r matches Some(Err(Error::Unexpected(x))) && x@ == decode_utf8(t)
    }
}

/// What a byte that can start no lexeme gives: its text as an unexpected
/// lexeme.
pub open spec fn stray_result(s: Seq<u8>, k: int, r: Result<Lexeme, Error>) -> bool {
    if valid_utf8(s.subrange(k, k + 1)) {
        r matches Err(Error::Unexpected(t)) && t@ == decode_utf8(s.subrange(k, k + 1))
    } else {
        r == Err::<Lexeme, Error>(Error::Utf8)
    }
}

/// Whether a lexeme can start with byte `b`.
pub open spec fn starts_lexeme(b: u8) -> bool {
    punct_of(b) is Some || b == 0x22 || is_digit(b) || b == 0x2d || is_letter(b)
}

/// What reading a string literal whose opening quote is at `k` gives.
pub open spec fn string_result(s: Seq<u8>, k: int, r: Result<Lexeme, Error>) -> bool {
    match string_scan(s, k + 1, Seq::empty()) {
        StrScan::Done(b, _) => if valid_utf8(b) {
            r matches Ok(Lexeme::Str(t)) && t@ == decode_utf8(b)
        } else {
            r == Err::<Lexeme, Error>(Error::Utf8)
        },
        StrScan::Unterminated => r == Err::<Lexeme, Error>(Error::Unterminated),
        StrScan::Escape(a, e) => if valid_utf8(s.subrange(a, e)) {
            r matches Err(Error::Escape(t)) && t@ == decode_utf8(s.subrange(a, e))
        } else {
            r == Err::<Lexeme, Error>(Error::Utf8)
        },
    }
}

fn hex_value(b: u8) -> (r: Option<u32>)
    ensures
        r matches Some(v) ==> v < 16 && v == hex_digit(b),
        r is None <==> hex_digit(b) < 0,
{
    if 0x30 <= b && b <= 0x39 {
        Some((b - 0x30) as u32)
    } else if 0x61 <= b && b <= 0x66 {
        Some((b - 0x61 + 10) as u32)
    } else if 0x41 <= b && b <= 0x46 {
        Some((b - 0x41 + 10) as u32)
    } else {
        None
    }
}

fn escape_byte(c: u8) -> (r: Option<u8>)
    ensures
        r == simple_escape(c),
{
    if c == 0x22 || c == 0x5c || c == 0x2f {
        Some(c)
    } else if c == 0x62 {
        Some(0x08)
    } else if c == 0x66 {
        Some(0x0c)
    } else if c == 0x6e {
        Some(0x0a)
    } else if c == 0x72 {
        Some(0x0d)
    } else if c == 0x74 {
        Some(0x09)
    } else {
        None
    }
}

/// Bytes below 0x80 always form valid UTF-8.
proof fn lemma_ascii_valid(t: Seq<u8>)
    requires
        forall|i: int| 0 <= i < t.len() ==> t[i] < 0x80,
    ensures
        valid_utf8(t),
{
    assert(t.subrange(0, 0) =~= Seq::<u8>::empty());
    assert(partial_valid_utf8(t, 0));
    partial_valid_utf8_extend_ascii_block(t, 0, t.len() as int);
    assert(t.subrange(0, t.len() as int) =~= t);
}

/// Appends the UTF-8 encoding of code point `c` to `out`.
fn push_utf8(out: &mut Vec<u8>, c: u32)
    ensures
        final(out)@ == old(out)@ + utf8_bytes(c),
{
    let ghost start = out@;
    if c < 0x80 {
        out.push(c as u8);
    } else if c < 0x800 {
        out.push((0xc0 | (c >> 6)) as u8);
        out.push((0x80 | (c & 0x3f)) as u8);
    } else if c < 0x10000 {
        out.push((0xe0 | (c >> 12)) as u8);
        out.push((0x80 | ((c >> 6) & 0x3f)) as u8);
        out.push((0x80 | (c & 0x3f)) as u8);
    } else {
        out.push((0xf0 | (c >> 18)) as u8);
        out.push((0x80 | ((c >> 12) & 0x3f)) as u8);
        out.push((0x80 | ((c >> 6) & 0x3f)) as u8);
        out.push((0x80 | (c & 0x3f)) as u8);
    }
    assert(out@ =~= start + utf8_bytes(c));
}

/// Copies `s[lo..hi]` into a new vector.
fn copy_range(s: &Vec<u8>, lo: usize, hi: usize) -> (r: Vec<u8>)
    requires
        lo <= hi <= s.len(),
    ensures
        r@ == s@.subrange(lo as int, hi as int),
{
    let mut r: Vec<u8> = Vec::new();
    let mut i: usize = lo;
    while i < hi
        invariant
            lo <= i <= hi <= s.len(),
            r@ == s@.subrange(lo as int, i as int),
        decreases hi - i,
    {
        r.push(s[i]);
        i += 1;
        assert(r@ =~= s@.subrange(lo as int, i as int));
    }
    r
}

/// The text of `s[lo..hi]`, for error messages.
fn text_of(s: &Vec<u8>, lo: usize, hi: usize) -> (r: Result<String, Error>)
    requires
        lo <= hi <= s.len(),
    ensures
        r is Ok <==> valid_utf8(s@.subrange(lo as int, hi as int)),
        r matches Ok(t) ==> t@ == decode_utf8(s@.subrange(lo as int, hi as int)),
        r is Err ==> r == Err::<String, Error>(Error::Utf8),
{
    match utf8_string(copy_range(s, lo, hi)) {
        Some(t) => Ok(t),
        None => Err(Error::Utf8),
    }
}

/// Splits a byte buffer into lexemes, front to back.
///
/// After the first error it produces nothing more.
pub struct Lexer {
    input: Vec<u8>,
    pos: usize,
    failed: bool,
}

impl Lexer {
    pub closed spec fn input(&self) -> Seq<u8> {
        self.input@
    }

    pub closed spec fn pos(&self) -> int {
        self.pos as int
    }

    pub closed spec fn failed(&self) -> bool {
        self.failed
    }

    pub open spec fn wf(&self) -> bool {
        0 <= self.pos() <= self.input().len()
    }

    /// Index of the first byte of the next lexeme, or the input's length.
    pub open spec fn start(&self) -> int {
        skip_space(self.input(), self.pos())
    }

    pub fn new(input: Vec<u8>) -> (r: Lexer)
        ensures
            r.wf(),
            r.input() == input@,
            r.pos() == 0,
            !r.failed(),
    {
        Lexer { input, pos: 0, failed: false }
    }

    /// The next lexeme, `None` at the end of the input or after an error.
    pub fn next_lexeme(&mut self) -> (r: Option<Result<Lexeme, Error>>)
        requires
            old(self).wf(),
        ensures
            final(self).wf(),
            final(self).input() == old(self).input(),
            final(self).pos() >= old(self).pos(),
            old(self).failed() ==> r is None && *final(self) == *old(self),
            !old(self).failed() ==> final(self).failed() == (r matches Some(Err(_))),
            !old(self).failed() ==> (r is None <==> old(self).start() == old(self).input().len()),
            !old(self).failed() ==> lexed(old(self).input(), old(self).pos(), r, final(self).pos()),
            r matches Some(Ok(_)) ==> final(self).pos() > old(self).pos(),
            ({
                let k = old(self).start();
                let s = old(self).input();
                !old(self).failed() && k < s.len() && punct_of(s[k]) is Some ==> r == Some(
                    Ok::<Lexeme, Error>(punct_of(s[k])->0),
                ) && final(self).pos() == k + 1
            }),
            ({
                let k = old(self).start();
                let s = old(self).input();
                let e = number_run_end(s, k);
                !old(self).failed() && k < s.len() && (is_digit(s[k]) || s[k] == 0x2d)
                    ==> number_result(s, k, e, r) && final(self).pos() == e
            }),
            ({
                let k = old(self).start();
                let s = old(self).input();
                let e = word_end(s, k);
                !old(self).failed() && k < s.len() && is_letter(s[k]) ==> (match word_of(
                    s.subrange(k, e),
                ) {
                    Some(l) => r == Some(Ok::<Lexeme, Error>(l)),
                    None => r matches Some(Err(Error::Unexpected(t))) && t@ == decode_utf8(s.subrange(k, e)),
                }) && final(self).pos() == e
            }),
            ({
                let k = old(self).start();
                let s = old(self).input();
                !old(self).failed() && k < s.len() && s[k] == 0x22 ==> r is Some && string_result(
                    s,
                    k,
                    r->0,
                )
            }),
            ({
                let k = old(self).start();
                let s = old(self).input();
                !old(self).failed() && k < s.len() && !starts_lexeme(s[k]) ==> r is Some && stray_result(s, k, r->0)
                    && final(self).pos() == k + 1
            }),
    {
        if self.failed {
            return None;
        }
        let r = self.scan();
        if let Some(Err(_)) = &r {
            self.failed = true;
        }
        r
    }

    /// Reads a string literal whose opening quote is at the current position.
    fn string(&mut self) -> (r: Result<Lexeme, Error>)
        requires
            old(self).wf(),
            !old(self).failed(),
            old(self).pos() < old(self).input().len(),
            old(self).input()[old(self).pos()] == 0x22,
        ensures
            final(self).wf(),
            final(self).input() == old(self).input(),
            !final(self).failed(),
            final(self).pos() > old(self).pos(),
            string_result(old(self).input(), old(self).pos(), r),
            r is Ok ==> string_scan(old(self).input(), old(self).pos() + 1, Seq::empty())
                == StrScan::Done(string_scan(old(self).input(), old(self).pos() + 1, Seq::empty())->Done_0, final(self).pos()),
    {
        let n = self.input.len();
        let ghost k = self.pos as int;
        self.pos = self.pos + 1;
        let mut out: Vec<u8> = Vec::new();
        loop
            invariant
                self.wf(),
                n == self.input().len(),
                self.input() == old(self).input(),
                !self.failed(),
                self.pos() > k,
                k == old(self).pos(),
                string_scan(self.input(), k + 1, Seq::empty()) == string_scan(
                    self.input(),
                    self.pos(),
                    out@,
                ),
            decreases n - self.pos,
        {
            if self.pos >= n {
                return Err(Error::Unterminated);
            }
            let i = self.pos;
            let b = self.input[i];
            if b == 0x22 {
                self.pos = i + 1;
                return match utf8_string(out) {
                    Some(s) => Ok(Lexeme::Str(s)),
                    None => Err(Error::Utf8),
                };
            }
            if b != 0x5c {
                out.push(b);
                self.pos = i + 1;
            } else {
                if i + 1 >= n {
                    self.pos = i + 1;
                    return Err(Error::Unterminated);
                }
                let c = self.input[i + 1];
                self.pos = i + 2;
                if let Some(x) = escape_byte(c) {
                    out.push(x);
                } else if c != 0x75 {
                    return Err(self.escape_error(i));
                } else {
                    let hi = match self.hex4() {
                        Ok(v) => v,
                        Err(true) => return Err(Error::Unterminated),
                        Err(false) => return Err(self.escape_error(i)),
                    };
                    if 0xdc00 <= hi && hi <= 0xdfff {
                        return Err(self.escape_error(i));
                    }
                    if 0xd800 <= hi && hi <= 0xdbff {
                        let j = self.pos;
                        if n - j > 1 && self.input[j] == 0x5c && self.input[j + 1] == 0x75 {
                            self.pos = j + 2;
                            let lo = match self.hex4() {
                                Ok(v) => v,
                                Err(true) => return Err(Error::Unterminated),
                                Err(false) => return Err(self.escape_error(i)),
                            };
                            if lo < 0xdc00 || lo > 0xdfff {
                                return Err(self.escape_error(i));
                            }
                            push_utf8(&mut out, 0x10000 + (hi - 0xd800) * 0x400 + (lo - 0xdc00));
                        } else {
                            return Err(self.escape_error(i));
                        }
                    } else {
                        push_utf8(&mut out, hi);
                    }
                }
            }
        }
    }

    /// Reads four hex digits; on failure tells whether the input ran out.
    fn hex4(&mut self) -> (r: Result<u32, bool>)
        requires
            old(self).wf(),
        ensures
            final(self).wf(),
            final(self).input() == old(self).input(),
            final(self).failed() == old(self).failed(),
            final(self).pos() >= old(self).pos(),
            ({
                let h = hex_scan(old(self).input(), old(self).pos(), 0, 0);
                match r {
                    Ok(v) => h == Hex::Value(v as int) && v < 0x10000 && final(self).pos()
                        == old(self).pos() + 4,
                    Err(true) => h is RanOut,
                    Err(false) => h == Hex::Bad(final(self).pos()),
                }
            }),
    {
        let n = self.input.len();
        let ghost p = self.pos as int;
        let mut v: u32 = 0;
        let mut i: usize = 0;
        while i < 4
            invariant
                self.wf(),
                n == self.input().len(),
                self.input() == old(self).input(),
                self.failed() == old(self).failed(),
                p == old(self).pos(),
                self.pos() == p + i,
                i <= 4,
                (i == 0 && v == 0) || (i == 1 && v < 0x10) || (i == 2 && v < 0x100) || (i == 3
                    && v < 0x1000) || (i == 4 && v < 0x10000),
                hex_scan(self.input(), p, 0, 0) == hex_scan(self.input(), p, i as int, v as int),
            decreases 4 - i,
        {
            if self.pos >= n {
                return Err(true);
            }
            let d = match hex_value(self.input[self.pos]) {
                Some(d) => d,
                None => return Err(false),
            };
            self.pos = self.pos + 1;
            v = v * 16 + d;
            i = i + 1;
        }
        Ok(v)
    }

    /// The error for a bad escape from `start` to the current position.
    fn escape_error(&self, start: usize) -> (r: Error)
        requires
            self.wf(),
            start <= self.pos(),
        ensures
            valid_utf8(self.input().subrange(start as int, self.pos())) ==> (r matches Error::Escape(t)
                && t@ == decode_utf8(self.input().subrange(start as int, self.pos()))),
            !valid_utf8(self.input().subrange(start as int, self.pos())) ==> r == Error::Utf8,
    {
        match text_of(&self.input, start, self.pos) {
            Ok(t) => Error::Escape(t),
            Err(e) => e,
        }
    }

    fn scan(&mut self) -> (r: Option<Result<Lexeme, Error>>)
        requires
            old(self).wf(),
            !old(self).failed(),
        ensures
            final(self).wf(),
            final(self).input() == old(self).input(),
            !final(self).failed(),
            final(self).pos() >= old(self).pos(),
            r is None <==> old(self).start() == old(self).input().len(),
            r matches Some(Ok(_)) ==> final(self).pos() > old(self).pos(),
            lexed(old(self).input(), old(self).pos(), r, final(self).pos()),
            ({
                let k = old(self).start();
                let s = old(self).input();
                k < s.len() && punct_of(s[k]) is Some ==> r == Some(
                    Ok::<Lexeme, Error>(punct_of(s[k])->0),
                ) && final(self).pos() == k + 1
            }),
            ({
                let k = old(self).start();
                let s = old(self).input();
                let e = number_run_end(s, k);
                k < s.len() && (is_digit(s[k]) || s[k] == 0x2d) ==> number_result(s, k, e, r)
                    && final(self).pos() == e
            }),
            ({
                let k = old(self).start();
                let s = old(self).input();
                let e = word_end(s, k);
                k < s.len() && is_letter(s[k]) ==> (match word_of(s.subrange(k, e)) {
                    Some(l) => r == Some(Ok::<Lexeme, Error>(l)),
                    None => r matches Some(Err(Error::Unexpected(t))) && t@ == decode_utf8(s.subrange(k, e)),
                }) && final(self).pos() == e
            }),
            ({
                let k = old(self).start();
                let s = old(self).input();
                k < s.len() && s[k] == 0x22 ==> r is Some && string_result(s, k, r->0)
            }),
            ({
                let k = old(self).start();
                let s = old(self).input();
                k < s.len() && !starts_lexeme(s[k]) ==> r is Some && stray_result(s, k, r->0)
                    && final(self).pos() == k + 1
            }),
    {
        let n = self.input.len();
        while self.pos < n && space_byte(self.input[self.pos])
            invariant
                self.wf(),
                n == self.input().len(),
                self.input() == old(self).input(),
                !self.failed(),
                old(self).pos() <= self.pos(),
                old(self).start() == self.start(),
            decreases n - self.pos,
        {
            self.pos += 1;
        }
        if self.pos == n {
            return None;
        }
        let k = self.pos;
        let b = self.input[k];
        if let Some(p) = punct(b) {
            self.pos = k + 1;
            return Some(Ok(p));
        }
        if b == 0x22 {
            return Some(self.string());
        }
        if digit_byte(b) || b == 0x2d {
            let mut e: usize = k;
            while e < n && (digit_byte(self.input[e]) || self.input[e] == 0x2b || self.input[e]
                == 0x2d || self.input[e] == 0x2e || self.input[e] == 0x45 || self.input[e] == 0x65)
                invariant
                    k <= e <= n,
                    n == self.input.len(),
                    number_run_end(self.input@, k as int) == number_run_end(self.input@, e as int),
                    forall|j: int| k <= j < e ==> is_number_byte(#[trigger] self.input@[j]),
                decreases n - e,
            {
                e += 1;
            }
            let t = copy_range(&self.input, k, e);
            self.pos = e;
            proof {
                lemma_ascii_valid(t@);
            }
            if !number_syntax(&t) {
                return Some(
                    match text_of(&self.input, k, e) {
                        Ok(s) => Err(Error::Unexpected(s)),
                        Err(x) => Err(x),
                    },
                );
            }
            return Some(
                match utf8_string(t) {
                    Some(s) => Ok(Lexeme::Num(s)),
                    None => Err(Error::Utf8),
                },
            );
        }
        if (0x41 <= b && b <= 0x5a) || (0x61 <= b && b <= 0x7a) {
            let mut e: usize = k;
            while e < n && ((0x41 <= self.input[e] && self.input[e] <= 0x5a) || (0x61
                <= self.input[e] && self.input[e] <= 0x7a))
                invariant
                    k <= e <= n,
                    n == self.input.len(),
                    word_end(self.input@, k as int) == word_end(self.input@, e as int),
                    forall|j: int| k <= j < e ==> is_letter(#[trigger] self.input@[j]),
                decreases n - e,
            {
                e += 1;
            }
            let t = copy_range(&self.input, k, e);
            self.pos = e;
            proof {
                lemma_ascii_valid(t@);
            }
            return Some(
                match word(&t) {
                    Some(l) => Ok(l),
                    None => match utf8_string(t) {
                        Some(s) => Err(Error::Unexpected(s)),
                        None => Err(Error::Unexpected(String::new())),
                    },
                },
            );
        }
        self.pos = k + 1;
        Some(
            match text_of(&self.input, k, k + 1) {
                Ok(s) => Err(Error::Unexpected(s)),
                Err(x) => Err(x),
            },
        )
    }
}

} // verus!
