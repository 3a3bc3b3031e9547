//! The Lox scanner.
//!
//! The scanner walks the UTF-8 bytes of the source text and hands out one
//! token per call of [`Lexer::scan_token`]. Whitespace and `//` comments
//! separate tokens; newlines are counted to give every token its line.
//!
//! The token grammar is stated by the spec functions of this module over the
//! source bytes: [`skip_trivia`] finds where the next token starts, and
//! [`scan_end`], [`scan_kind`] and [`scan_text`] say where it ends, what kind
//! it is and what text it carries.
use vstd::prelude::*;
use vstd::string::StringSliceAdditionalSpecFns;
use vstd::utf8::*;

verus! {

broadcast use {encode_utf8_valid_utf8, encode_utf8_decode_utf8};

/// The kinds of Lox tokens.
#[derive(Debug, Clone, Copy, PartialEq, Eq, Structural)]
pub enum TokenKind {
    // single char tokens
    LeftBrace,
    RightBrace,
    LeftParen,
    RightParen,
    Comma,
    Dot,
    Minus,
    Slash,
    Plus,
    Semicolon,
    Star,
    // one or two char tokens
    Bang,
    BangEqual,
    Equal,
    EqualEqual,
    Greater,
    GreaterEqual,
    Less,
    LessEqual,
    // literals
    Identifier,
    String,
    Number,
    // keywords
    And,
    Class,
    Else,
    False,
    For,
    Fun,
    If,
    Nil,
    Or,
    Print,
    Return,
    Super,
    This,
    True,
    Var,
    While,
    // other
    Error,
    Eof,
    // sentinel for maintaining a count of possibilities
    Count,
}

/// A scanned token: its kind, its text and the line on which it ends.
#[derive(Debug, Clone)]
pub struct Token {
    pub kind: TokenKind,
    pub lexeme: String,
    pub line: usize,
}

// ---------------------------------------------------------------------------
// The token grammar over the source bytes
// ---------------------------------------------------------------------------

/// Blanks that separate tokens: space, carriage return, tab and newline.
pub open spec fn is_space(b: u8) -> bool {
    b == ' ' as u8 || b == '\r' as u8 || b == '\t' as u8 || b == '\n' as u8
}

/// ASCII decimal digits.
pub open spec fn is_digit(b: u8) -> bool {
    '0' as u8 <= b <= '9' as u8
}

/// Bytes that may start an identifier: ASCII letters and `_`.
pub open spec fn is_alpha(b: u8) -> bool {
    ('a' as u8 <= b <= 'z' as u8) || ('A' as u8 <= b <= 'Z' as u8) || b == '_' as u8
}

/// Bytes that may continue an identifier.
pub open spec fn is_ident_byte(b: u8) -> bool {
    is_alpha(b) || is_digit(b)
}

/// The number of newline bytes in `s[a..b]`.
pub open spec fn newlines(s: Seq<u8>, a: int, b: int) -> nat
    decreases b - a,
{
    if b <= a {
        0
    } else {
        newlines(s, a, b - 1) + if s[b - 1] == '\n' as u8 {
            1nat
        } else {
            0nat
        }
    }
}

/// The first position at or after `i` that does not hold a blank.
pub open spec fn ws_end(s: Seq<u8>, i: int) -> int
    decreases s.len() - i,
{
    if 0 <= i < s.len() && is_space(s[i]) {
        ws_end(s, i + 1)
    } else {
        i
    }
}

/// The first newline at or after `i`, or the end of the source.
pub open spec fn line_end(s: Seq<u8>, i: int) -> int
    decreases s.len() - i,
{
    if 0 <= i < s.len() && s[i] != '\n' as u8 {
        line_end(s, i + 1)
    } else if i < s.len() {
        i
    } else {
        s.len() as int
    }
}

/// Whether a `//` comment starts at `i`.
pub open spec fn comment_at(s: Seq<u8>, i: int) -> bool {
    0 <= i && i + 1 < s.len() && s[i] == '/' as u8 && s[i + 1] == '/' as u8
}

/// Where the next token starts: the first position at or after `i` that is
/// neither a blank nor inside a `//` comment.
pub open spec fn skip_trivia(s: Seq<u8>, i: int) -> int
    decreases s.len() - i,
{
    let w = ws_end(s, i);
    if 0 <= i && comment_at(s, w) {
        proof {
            lemma_ws_end_bounds(s, i);
            lemma_line_end_bounds(s, w + 2);
        }
        skip_trivia(s, line_end(s, w + 2))
    } else {
        w
    }
}

/// The end of the run of digits that starts at `i`.
pub open spec fn digits_end(s: Seq<u8>, i: int) -> int
    decreases s.len() - i,
{
    if 0 <= i < s.len() && is_digit(s[i]) {
        digits_end(s, i + 1)
    } else {
        i
    }
}

/// The end of the run of identifier bytes that starts at `i`.
pub open spec fn ident_end(s: Seq<u8>, i: int) -> int
    decreases s.len() - i,
{
    if 0 <= i < s.len() && is_ident_byte(s[i]) {
        ident_end(s, i + 1)
    } else {
        i
    }
}

/// The first `"` at or after `i`, or the end of the source.
pub open spec fn string_close(s: Seq<u8>, i: int) -> int
    decreases s.len() - i,
{
    if 0 <= i < s.len() && s[i] != '"' as u8 {
        string_close(s, i + 1)
    } else if i < s.len() {
        i
    } else {
        s.len() as int
    }
}

/// The end of a number literal whose first digit is at `st`: digits, then
/// optionally a `.` followed by at least one digit and the digits after it.
pub open spec fn number_end(s: Seq<u8>, st: int) -> int {
    let d = digits_end(s, st + 1);
    if d + 1 < s.len() && s[d] == '.' as u8 && is_digit(s[d + 1]) {
        digits_end(s, d + 1)
    } else {
        d
    }
}

/// Whether the byte after `st` is `=` (for `!=`, `==`, `<=`, `>=`).
pub open spec fn followed_by_equal(s: Seq<u8>, st: int) -> bool {
    st + 1 < s.len() && s[st + 1] == '=' as u8
}

/// Bytes that form a token of their own.
pub open spec fn is_single(b: u8) -> bool {
    b == '(' as u8 || b == ')' as u8 || b == '{' as u8 || b == '}' as u8 || b == ';' as u8
        || b == ',' as u8 || b == '.' as u8 || b == '-' as u8 || b == '+' as u8
        || b == '/' as u8 || b == '*' as u8
}

/// Bytes that form a token alone or together with a following `=`.
pub open spec fn is_pair_start(b: u8) -> bool {
    b == '!' as u8 || b == '=' as u8 || b == '<' as u8 || b == '>' as u8
}

/// The kind of a one-byte token.
pub open spec fn single_kind(b: u8) -> TokenKind {
    if b == '(' as u8 {
        TokenKind::LeftParen
    } else if b == ')' as u8 {
        TokenKind::RightParen
    } else if b == '{' as u8 {
        TokenKind::LeftBrace
    } else if b == '}' as u8 {
        TokenKind::RightBrace
    } else if b == ';' as u8 {
        TokenKind::Semicolon
    } else if b == ',' as u8 {
        TokenKind::Comma
    } else if b == '.' as u8 {
        TokenKind::Dot
    } else if b == '-' as u8 {
        TokenKind::Minus
    } else if b == '+' as u8 {
        TokenKind::Plus
    } else if b == '/' as u8 {
        TokenKind::Slash
    } else {
        TokenKind::Star
    }
}

/// The kind of a token that starts with `!`, `=`, `<` or `>`.
pub open spec fn pair_kind(b: u8, with_equal: bool) -> TokenKind {
    if b == '!' as u8 {
        if with_equal { TokenKind::BangEqual } else { TokenKind::Bang }
    } else if b == '=' as u8 {
        if with_equal { TokenKind::EqualEqual } else { TokenKind::Equal }
    } else if b == '<' as u8 {
        if with_equal { TokenKind::LessEqual } else { TokenKind::Less }
    } else {
        if with_equal { TokenKind::GreaterEqual } else { TokenKind::Greater }
    }
}

/// The kind of an identifier-shaped word: a keyword kind for the sixteen
/// reserved words, `Identifier` for every other word.
pub open spec fn keyword_kind(w: Seq<u8>) -> TokenKind {
    if w == seq!['a' as u8, 'n' as u8, 'd' as u8] {
        TokenKind::And
    } else if w == seq!['c' as u8, 'l' as u8, 'a' as u8, 's' as u8, 's' as u8] {
        TokenKind::Class
    } else if w == seq!['e' as u8, 'l' as u8, 's' as u8, 'e' as u8] {
        TokenKind::Else
    } else if w == seq!['f' as u8, 'a' as u8, 'l' as u8, 's' as u8, 'e' as u8] {
        TokenKind::False
    } else if w == seq!['f' as u8, 'o' as u8, 'r' as u8] {
        TokenKind::For
    } else if w == seq!['f' as u8, 'u' as u8, 'n' as u8] {
        TokenKind::Fun
    } else if w == seq!['i' as u8, 'f' as u8] {
        TokenKind::If
    } else if w == seq!['n' as u8, 'i' as u8, 'l' as u8] {
        TokenKind::Nil
    } else if w == seq!['o' as u8, 'r' as u8] {
        TokenKind::Or
    } else if w == seq!['p' as u8, 'r' as u8, 'i' as u8, 'n' as u8, 't' as u8] {
        TokenKind::Print
    } else if w == seq!['r' as u8, 'e' as u8, 't' as u8, 'u' as u8, 'r' as u8, 'n' as u8] {
        TokenKind::Return
    } else if w == seq!['s' as u8, 'u' as u8, 'p' as u8, 'e' as u8, 'r' as u8] {
        TokenKind::Super
    } else if w == seq!['t' as u8, 'h' as u8, 'i' as u8, 's' as u8] {
        TokenKind::This
    } else if w == seq!['t' as u8, 'r' as u8, 'u' as u8, 'e' as u8] {
        TokenKind::True
    } else if w == seq!['v' as u8, 'a' as u8, 'r' as u8] {
        TokenKind::Var
    } else if w == seq!['w' as u8, 'h' as u8, 'i' as u8, 'l' as u8, 'e' as u8] {
        TokenKind::While
    } else {
        TokenKind::Identifier
    }
}

/// Where the token that starts at `st` (with `st` inside the source) ends.
pub open spec fn token_end(s: Seq<u8>, st: int) -> int {
    let c = s[st];
    if is_single(c) {
        st + 1
    } else if is_pair_start(c) {
        if followed_by_equal(s, st) { st + 2 } else { st + 1 }
    } else if c == '"' as u8 {
        let close = string_close(s, st + 1);
        if close >= s.len() { s.len() as int } else { close + 1 }
    } else if is_digit(c) {
        number_end(s, st)
    } else if is_alpha(c) {
        ident_end(s, st + 1)
    } else {
        st + 1
    }
}

/// The kind of the token that starts at `st` (with `st` inside the source).
pub open spec fn token_kind(s: Seq<u8>, st: int) -> TokenKind {
    let c = s[st];
    if is_single(c) {
        single_kind(c)
    } else if is_pair_start(c) {
        pair_kind(c, followed_by_equal(s, st))
    } else if c == '"' as u8 {
        if string_close(s, st + 1) >= s.len() { TokenKind::Error } else { TokenKind::String }
    } else if is_digit(c) {
        TokenKind::Number
    } else if is_alpha(c) {
        keyword_kind(s.subrange(st, ident_end(s, st + 1)))
    } else {
        TokenKind::Error
    }
}

/// Where the token that the scanner finds at `st` ends.
pub open spec fn scan_end(s: Seq<u8>, st: int) -> int {
    if st >= s.len() { st } else { token_end(s, st) }
}

/// The kind of the token that the scanner finds at `st`: `Eof` past the end.
pub open spec fn scan_kind(s: Seq<u8>, st: int) -> TokenKind {
    if st >= s.len() { TokenKind::Eof } else { token_kind(s, st) }
}

/// The text of the token that the scanner finds at `st`: the source text of
/// the token, or the message of an error token.
pub open spec fn scan_text(s: Seq<u8>, st: int) -> Seq<char> {
    if scan_kind(s, st) == TokenKind::Error {
        if s[st] == '"' as u8 {
            "Unterminated string"@
        } else {
            "Unrecognized character"@
        }
    } else {
        decode_utf8(s.subrange(st, scan_end(s, st)))
    }
}

// ---------------------------------------------------------------------------
// Facts about the grammar
// ---------------------------------------------------------------------------

pub proof fn lemma_ws_end_bounds(s: Seq<u8>, i: int)
    requires
        0 <= i,
    ensures
        i <= ws_end(s, i),
        i <= s.len() ==> ws_end(s, i) <= s.len(),
        0 <= ws_end(s, i) < s.len() ==> !is_space(s[ws_end(s, i)]),
    decreases s.len() - i,
{
    if 0 <= i < s.len() && is_space(s[i]) {
        lemma_ws_end_bounds(s, i + 1);
    }
}

pub proof fn lemma_line_end_bounds(s: Seq<u8>, i: int)
    requires
        0 <= i,
    ensures
        i <= line_end(s, i) || i > s.len(),
        line_end(s, i) <= s.len(),
    decreases s.len() - i,
{
    if 0 <= i < s.len() && s[i] != '\n' as u8 {
        lemma_line_end_bounds(s, i + 1);
    }
}

pub proof fn lemma_skip_trivia_bounds(s: Seq<u8>, i: int)
    requires
        0 <= i <= s.len(),
    ensures
        i <= skip_trivia(s, i) <= s.len(),
        skip_trivia(s, i) < s.len() ==> !is_space(s[skip_trivia(s, i)]) && !comment_at(
            s,
            skip_trivia(s, i),
        ),
    decreases s.len() - i,
{
    lemma_ws_end_bounds(s, i);
    let w = ws_end(s, i);
    if comment_at(s, w) {
        lemma_line_end_bounds(s, w + 2);
        lemma_skip_trivia_bounds(s, line_end(s, w + 2));
    }
}

proof fn lemma_digits_end_bounds(s: Seq<u8>, i: int)
    requires
        0 <= i <= s.len(),
    ensures
        i <= digits_end(s, i) <= s.len(),
    decreases s.len() - i,
{
    if 0 <= i < s.len() && is_digit(s[i]) {
        lemma_digits_end_bounds(s, i + 1);
    }
}

proof fn lemma_ident_end_bounds(s: Seq<u8>, i: int)
    requires
        0 <= i <= s.len(),
    ensures
        i <= ident_end(s, i) <= s.len(),
    decreases s.len() - i,
{
    if 0 <= i < s.len() && is_ident_byte(s[i]) {
        lemma_ident_end_bounds(s, i + 1);
    }
}

proof fn lemma_string_close_bounds(s: Seq<u8>, i: int)
    requires
        0 <= i <= s.len(),
    ensures
        i <= string_close(s, i) <= s.len(),
    decreases s.len() - i,
{
    if 0 <= i < s.len() && s[i] != '"' as u8 {
        lemma_string_close_bounds(s, i + 1);
    }
}

/// A token that starts inside the text ends after its start and within the text.
pub proof fn lemma_token_end_bounds(s: Seq<u8>, st: int)
    requires
        0 <= st < s.len(),
    ensures
        st < token_end(s, st) <= s.len(),
{
    lemma_digits_end_bounds(s, st + 1);
    lemma_ident_end_bounds(s, st + 1);
    lemma_string_close_bounds(s, st + 1);
    let d = digits_end(s, st + 1);
    if d + 1 < s.len() {
        lemma_digits_end_bounds(s, d + 1);
    }
}

/// The scanner always moves forward: from any position in the text, the next
/// token lies after the position and inside the text, and it is `Eof`
/// exactly when only blanks and comments are left, in which case the
/// scanner stays at the end of the text.
pub proof fn lemma_scan_progress(s: Seq<u8>, pos: int)
    requires
        0 <= pos <= s.len(),
    ensures
        pos <= skip_trivia(s, pos) <= s.len(),
        (scan_kind(s, skip_trivia(s, pos)) == TokenKind::Eof) <==> (skip_trivia(s, pos) == s.len()),
        scan_kind(s, skip_trivia(s, pos)) == TokenKind::Eof ==> scan_end(s, skip_trivia(s, pos))
            == s.len(),
        scan_kind(s, skip_trivia(s, pos)) != TokenKind::Eof ==> pos < scan_end(
            s,
            skip_trivia(s, pos),
        ) <= s.len(),
{
    lemma_skip_trivia_bounds(s, pos);
    let st = skip_trivia(s, pos);
    if st < s.len() {
        lemma_token_end_bounds(s, st);
        assert(token_kind(s, st) != TokenKind::Eof);
    }
}

/// Where the `n`-th token (counting from 0) that the scanner finds when it
/// starts reading at `p` begins.
pub open spec fn tok_start(s: Seq<u8>, p: int, n: nat) -> int
    decreases n,
{
    if n == 0 {
        skip_trivia(s, p)
    } else {
        skip_trivia(s, scan_end(s, tok_start(s, p, (n - 1) as nat)))
    }
}

/// The kind of the `n`-th token scanned from `p`.
pub open spec fn tok_kind(s: Seq<u8>, p: int, n: nat) -> TokenKind {
    scan_kind(s, tok_start(s, p, n))
}

/// Where the `n`-th token scanned from `p` ends.
pub open spec fn tok_end(s: Seq<u8>, p: int, n: nat) -> int {
    scan_end(s, tok_start(s, p, n))
}

/// The tokens tile the text: scanning from any position `p`, each token
/// lies inside the text after the one before it, with only blanks and
/// comments between them; a token other than `Eof` takes at least one byte,
/// `Eof` comes exactly at the end of the text and repeats from then on, and
/// it comes within as many tokens as there are bytes left.
pub proof fn lemma_tokens_tile(s: Seq<u8>, p: int, n: nat)
    requires
        0 <= p <= s.len(),
    ensures
        p <= tok_start(s, p, n) <= tok_end(s, p, n) <= s.len(),
        tok_end(s, p, n) <= tok_start(s, p, n + 1),
        tok_start(s, p, n + 1) == skip_trivia(s, tok_end(s, p, n)),
        (tok_kind(s, p, n) == TokenKind::Eof) <==> (tok_start(s, p, n) == s.len()),
        tok_kind(s, p, n) != TokenKind::Eof ==> tok_start(s, p, n) < tok_end(s, p, n),
        tok_kind(s, p, n) != TokenKind::Eof ==> p + n <= tok_start(s, p, n),
        tok_kind(s, p, n) == TokenKind::Eof ==> tok_kind(s, p, n + 1) == TokenKind::Eof,
        n >= s.len() - p ==> tok_kind(s, p, n) == TokenKind::Eof,
    decreases n,
{
    if n == 0 {
        lemma_skip_trivia_bounds(s, p);
    } else {
        lemma_tokens_tile(s, p, (n - 1) as nat);
        lemma_skip_trivia_bounds(s, tok_end(s, p, (n - 1) as nat));
    }
    let st = tok_start(s, p, n);
    if st < s.len() {
        lemma_token_end_bounds(s, st);
        assert(token_kind(s, st) != TokenKind::Eof);
    }
    lemma_skip_trivia_bounds(s, tok_end(s, p, n));
    assert(tok_start(s, p, n + 1) == skip_trivia(s, tok_end(s, p, n)));
    if tok_kind(s, p, n) == TokenKind::Eof {
        assert(tok_end(s, p, n) == s.len());
        assert(skip_trivia(s, s.len() as int) == s.len()) by {
            lemma_skip_trivia_bounds(s, s.len() as int);
        }
    }
}

/// Scanning on from the end of the first token finds the tokens that follow
/// it.
pub proof fn lemma_tok_shift(s: Seq<u8>, p: int, n: nat)
    ensures
        tok_start(s, tok_end(s, p, 0), n) == tok_start(s, p, n + 1),
    decreases n,
{
    if n > 0 {
        lemma_tok_shift(s, p, (n - 1) as nat);
    }
}

/// Scanning on from the end of the `n`-th token finds the tokens that
/// follow it.
pub proof fn lemma_tok_shift_from(s: Seq<u8>, p: int, n: nat, m: nat)
    ensures
        tok_start(s, tok_end(s, p, n), m) == tok_start(s, p, n + 1 + m),
    decreases m,
{
    if m > 0 {
        lemma_tok_shift_from(s, p, n, (m - 1) as nat);
        assert(tok_start(s, p, n + 1 + m) == skip_trivia(
            s,
            scan_end(s, tok_start(s, p, (n + 1 + m - 1) as nat)),
        ));
    }
}

/// Newline counts add up over adjacent ranges.
pub proof fn lemma_newlines_split(s: Seq<u8>, a: int, b: int, c: int)
    requires
        a <= b <= c,
    ensures
        newlines(s, a, c) == newlines(s, a, b) + newlines(s, b, c),
    decreases c - b,
{
    if c > b {
        lemma_newlines_split(s, a, b, c - 1);
    }
}

/// A range holds at most as many newlines as it holds bytes.
pub proof fn lemma_newlines_bound(s: Seq<u8>, a: int, b: int)
    requires
        a <= b,
    ensures
        newlines(s, a, b) <= b - a,
    decreases b - a,
{
    if b > a {
        lemma_newlines_bound(s, a, b - 1);
    }
}

/// In valid UTF-8, a position is a character boundary when it is an end of
/// the text, or when the byte at it or the byte before it is ASCII.
pub proof fn lemma_ascii_boundary(b: Seq<u8>, i: int)
    requires
        valid_utf8(b),
        0 <= i <= b.len(),
        i == 0 || i == b.len() || b[i] < 0x80 || b[i - 1] < 0x80,
    ensures
        is_char_boundary(b, i),
    decreases b.len(),
{
    if i != 0 {
        let l = length_of_first_scalar(b);
        assert(valid_first_scalar(b));
        assert(1 <= l <= 4);
        assert(l <= b.len());
        assert(i >= l) by {
            if i < l {
                assert(is_continuation_byte(b[i]) || i == b.len());
                assert(i - 1 == 0 || is_continuation_byte(b[i - 1]));
                if i - 1 == 0 {
                    assert(b[0] < 0x80 ==> l == 1);
                }
            }
        }
        let rest = pop_first_scalar(b);
        assert(rest.len() == b.len() - l);
        assert(i - l == rest.len() || rest[i - l] == b[i]);
        assert(i - l == 0 || rest[i - l - 1] == b[i - 1]);
        lemma_ascii_boundary(rest, i - l);
    }
}

/// The reserved words sorted by their first byte: a word can only be a
/// keyword that starts with the same byte.
proof fn lemma_keyword_kind_by_first(t: Seq<u8>)
    requires
        t.len() > 0,
    ensures
        t[0] == 'a' as u8 ==> keyword_kind(t) == (if t == seq!['a' as u8, 'n' as u8, 'd' as u8] { TokenKind::And } else { TokenKind::Identifier }),
        t[0] == 'c' as u8 ==> keyword_kind(t) == (if t == seq!['c' as u8, 'l' as u8, 'a' as u8, 's' as u8, 's' as u8] { TokenKind::Class } else { TokenKind::Identifier }),
        t[0] == 'e' as u8 ==> keyword_kind(t) == (if t == seq!['e' as u8, 'l' as u8, 's' as u8, 'e' as u8] { TokenKind::Else } else { TokenKind::Identifier }),
        t[0] == 'f' as u8 ==> keyword_kind(t) == (if t == seq!['f' as u8, 'a' as u8, 'l' as u8, 's' as u8, 'e' as u8] { TokenKind::False } else { if t == seq!['f' as u8, 'o' as u8, 'r' as u8] { TokenKind::For } else { if t == seq!['f' as u8, 'u' as u8, 'n' as u8] { TokenKind::Fun } else { TokenKind::Identifier } } }),
        t[0] == 'i' as u8 ==> keyword_kind(t) == (if t == seq!['i' as u8, 'f' as u8] { TokenKind::If } else { TokenKind::Identifier }),
        t[0] == 'n' as u8 ==> keyword_kind(t) == (if t == seq!['n' as u8, 'i' as u8, 'l' as u8] { TokenKind::Nil } else { TokenKind::Identifier }),
        t[0] == 'o' as u8 ==> keyword_kind(t) == (if t == seq!['o' as u8, 'r' as u8] { TokenKind::Or } else { TokenKind::Identifier }),
        t[0] == 'p' as u8 ==> keyword_kind(t) == (if t == seq!['p' as u8, 'r' as u8, 'i' as u8, 'n' as u8, 't' as u8] { TokenKind::Print } else { TokenKind::Identifier }),
        t[0] == 'r' as u8 ==> keyword_kind(t) == (if t == seq!['r' as u8, 'e' as u8, 't' as u8, 'u' as u8, 'r' as u8, 'n' as u8] { TokenKind::Return } else { TokenKind::Identifier }),
        t[0] == 's' as u8 ==> keyword_kind(t) == (if t == seq!['s' as u8, 'u' as u8, 'p' as u8, 'e' as u8, 'r' as u8] { TokenKind::Super } else { TokenKind::Identifier }),
        t[0] == 't' as u8 ==> keyword_kind(t) == (if t == seq!['t' as u8, 'h' as u8, 'i' as u8, 's' as u8] { TokenKind::This } else { if t == seq!['t' as u8, 'r' as u8, 'u' as u8, 'e' as u8] { TokenKind::True } else { TokenKind::Identifier } }),
        t[0] == 'v' as u8 ==> keyword_kind(t) == (if t == seq!['v' as u8, 'a' as u8, 'r' as u8] { TokenKind::Var } else { TokenKind::Identifier }),
        t[0] == 'w' as u8 ==> keyword_kind(t) == (if t == seq!['w' as u8, 'h' as u8, 'i' as u8, 'l' as u8, 'e' as u8] { TokenKind::While } else { TokenKind::Identifier }),
        t[0] != 'a' as u8 && t[0] != 'c' as u8 && t[0] != 'e' as u8 && t[0] != 'f' as u8 && t[0] != 'i' as u8 && t[0] != 'n' as u8 && t[0] != 'o' as u8 && t[0] != 'p' as u8 && t[0] != 'r' as u8 && t[0] != 's' as u8 && t[0] != 't' as u8 && t[0] != 'v' as u8 && t[0] != 'w' as u8 ==> keyword_kind(t) == TokenKind::Identifier,
{
    if t[0] != 'a' as u8 { assert(t != seq!['a' as u8, 'n' as u8, 'd' as u8]); }
    if t[0] != 'c' as u8 { assert(t != seq!['c' as u8, 'l' as u8, 'a' as u8, 's' as u8, 's' as u8]); }
    if t[0] != 'e' as u8 { assert(t != seq!['e' as u8, 'l' as u8, 's' as u8, 'e' as u8]); }
    if t[0] != 'f' as u8 { assert(t != seq!['f' as u8, 'a' as u8, 'l' as u8, 's' as u8, 'e' as u8]); }
    if t[0] != 'f' as u8 { assert(t != seq!['f' as u8, 'o' as u8, 'r' as u8]); }
    if t[0] != 'f' as u8 { assert(t != seq!['f' as u8, 'u' as u8, 'n' as u8]); }
    if t[0] != 'i' as u8 { assert(t != seq!['i' as u8, 'f' as u8]); }
    if t[0] != 'n' as u8 { assert(t != seq!['n' as u8, 'i' as u8, 'l' as u8]); }
    if t[0] != 'o' as u8 { assert(t != seq!['o' as u8, 'r' as u8]); }
    if t[0] != 'p' as u8 { assert(t != seq!['p' as u8, 'r' as u8, 'i' as u8, 'n' as u8, 't' as u8]); }
    if t[0] != 'r' as u8 { assert(t != seq!['r' as u8, 'e' as u8, 't' as u8, 'u' as u8, 'r' as u8, 'n' as u8]); }
    if t[0] != 's' as u8 { assert(t != seq!['s' as u8, 'u' as u8, 'p' as u8, 'e' as u8, 'r' as u8]); }
    if t[0] != 't' as u8 { assert(t != seq!['t' as u8, 'h' as u8, 'i' as u8, 's' as u8]); }
    if t[0] != 't' as u8 { assert(t != seq!['t' as u8, 'r' as u8, 'u' as u8, 'e' as u8]); }
    if t[0] != 'v' as u8 { assert(t != seq!['v' as u8, 'a' as u8, 'r' as u8]); }
    if t[0] != 'w' as u8 { assert(t != seq!['w' as u8, 'h' as u8, 'i' as u8, 'l' as u8, 'e' as u8]); }
}

/// Words that differ at some index are different words.
proof fn lemma_differs_at(t: Seq<u8>, w: Seq<u8>, i: int)
    requires
        0 <= i < t.len(),
        i < w.len(),
        t[i] != w[i],
    ensures
        t != w,
{
}

/// The check of one keyword branch of the scanner: the word `s[st..cur]`,
/// whose first `off` bytes agree with the keyword `w`, is the keyword exactly
/// when it has the keyword's length and its remaining bytes are `rest`.
proof fn lemma_keyword_branch(s: Seq<u8>, st: int, cur: int, w: Seq<u8>, off: int, rest: Seq<u8>)
    requires
        0 <= st < cur <= s.len(),
        0 < off < w.len(),
        off <= cur - st,
        rest =~= w.subrange(off, w.len() as int),
        forall|i: int| 0 <= i < off ==> s[st + i] == w[i],
    ensures
        (s.subrange(st, cur) == w) <==> (cur - st == off + rest.len() && s.subrange(
            st + off,
            st + off + rest.len(),
        ) == rest),
{
    let t = s.subrange(st, cur);
    if cur - st == off + rest.len() && s.subrange(st + off, st + off + rest.len()) == rest {
        assert forall|i: int| 0 <= i < t.len() implies t[i] == w[i] by {
            if i >= off {
                assert(s.subrange(st + off, st + off + rest.len())[i - off] == rest[i - off]);
            }
        }
        assert(t =~= w);
    }
    if t == w {
        assert(s.subrange(st + off, st + off + rest.len()) =~= rest);
    }
}

// ---------------------------------------------------------------------------
// The scanner
// ---------------------------------------------------------------------------

/// A scanner over a source text.
pub struct Lexer<'a> {
    source: &'a str,
    start: usize,  // index of starting byte of current lexeme
    current: usize,  // current byte under examination
    line: usize,
}

fn is_digit_char(c: char) -> (r: bool)
    ensures
        r == ('0' <= c && c <= '9'),
{
    '0' <= c && c <= '9'
}

fn is_alpha_char(c: char) -> (r: bool)
    ensures
        r == (('a' <= c && c <= 'z') || ('A' <= c && c <= 'Z') || c == '_'),
{
    ('a' <= c && c <= 'z') || ('A' <= c && c <= 'Z') || c == '_'
}

impl<'a> Lexer<'a> {
    /// The UTF-8 bytes of the source text.
    pub closed spec fn source_bytes(&self) -> Seq<u8> {
        self.source.spec_bytes()
    }

    /// The position of the next byte to examine.
    pub closed spec fn pos(&self) -> int {
        self.current as int
    }

    /// The current line.
    pub closed spec fn line_no(&self) -> int {
        self.line as int
    }

    /// The scanner's invariant: its position lies in the text, the text's
    /// length leaves room to count one past it, and the line is one more than
    /// the number of newlines before the position.
    pub closed spec fn wf(&self) -> bool {
        &&& self.current <= self.source_bytes().len()
        &&& self.source_bytes().len() < usize::MAX
        &&& self.line == 1 + newlines(self.source_bytes(), 0, self.current as int)
    }

    /// Bounds that the invariant gives: the position lies in the text and the
    /// text's length is below `usize::MAX`.
    pub proof fn lemma_wf_bounds(&self)
        requires
            self.wf(),
        ensures
            0 <= self.pos() <= self.source_bytes().len(),
            self.source_bytes().len() < usize::MAX,
    {
    }

    /// The line count: the line is one more than the number of newlines in
    /// the text before the position.
    pub proof fn lemma_line_count(&self)
        requires
            self.wf(),
        ensures
            self.line_no() == 1 + newlines(self.source_bytes(), 0, self.pos()),
    {
    }

    /// A scanner at the start of `source`, on line 1.
    pub fn from(source: &'a str) -> (l: Self)
        requires
            source.spec_bytes().len() < usize::MAX,
        ensures
            l.wf(),
            l.source_bytes() == source.spec_bytes(),
            l.pos() == 0,
            l.line_no() == 1,
    {
        Lexer { source, start: 0, current: 0, line: 1 }
    }

    /// The byte under examination as a character, or `'\0'` at the end.
    pub fn peek(&self) -> (c: char)
        ensures
            c == (if 0 <= self.pos() < self.source_bytes().len() {
                self.source_bytes()[self.pos()] as char
            } else {
                '\0'
            }),
    {
        let bytes = self.source.as_bytes();
        if self.current >= bytes.len() {
            return '\0';
        }
        bytes[self.current] as char
    }

    fn peek_next(&self) -> (c: char)
        requires
            self.wf(),
        ensures
            c == (if self.pos() + 1 < self.source_bytes().len() {
                self.source_bytes()[self.pos() + 1] as char
            } else {
                '\0'
            }),
    {
        if self.current + 1 >= self.source.len() {
            return '\0';
        }
        self.source.as_bytes()[self.current + 1] as char
    }

    /// Consumes one byte (not a newline) and returns it as a character.
    fn advance(&mut self) -> (c: char)
        requires
            old(self).wf(),
            old(self).pos() < old(self).source_bytes().len(),
            old(self).source_bytes()[old(self).pos()] != '\n' as u8,
        ensures
            final(self).wf(),
            final(self).source == old(self).source,
            final(self).start == old(self).start,
            final(self).current == old(self).current + 1,
            final(self).line == old(self).line,
            c == old(self).source_bytes()[old(self).pos()] as char,
    {
        self.current += 1;
        self.source.as_bytes()[self.current - 1] as char
    }

    /// Consumes one byte, counting it when it is a newline.
    fn advance_counting(&mut self)
        requires
            old(self).wf(),
            old(self).pos() < old(self).source_bytes().len(),
        ensures
            final(self).wf(),
            final(self).source == old(self).source,
            final(self).start == old(self).start,
            final(self).current == old(self).current + 1,
    {
        if self.peek() == '\n' {
            proof {
                lemma_newlines_bound(self.source_bytes(), 0, self.pos());
            }
            self.line += 1;
            self.current += 1;
        } else {
            self.advance();
        }
    }

    fn expect_match(&mut self, expected: char) -> (r: bool)
        requires
            old(self).wf(),
            expected != '\n',
        ensures
            final(self).wf(),
            final(self).source == old(self).source,
            final(self).start == old(self).start,
            final(self).line == old(self).line,
            r == (old(self).pos() < old(self).source_bytes().len()
                && old(self).source_bytes()[old(self).pos()] as char == expected),
            final(self).current == old(self).current + if r { 1usize } else { 0 },
    {
        if self.current >= self.source.len() || self.peek() != expected {
            return false;
        }
        self.current += 1;
        true
    }

    fn skip_whitespace(&mut self)
        requires
            old(self).wf(),
        ensures
            final(self).wf(),
            final(self).source == old(self).source,
            final(self).start == old(self).start,
            final(self).pos() == ws_end(old(self).source_bytes(), old(self).pos()),
    {
        let ghost s = self.source_bytes();
        loop
            invariant
                self.wf(),
                self.source_bytes() == s,
                self.source == old(self).source,
                self.start == old(self).start,
                old(self).current <= self.current,
                ws_end(s, self.pos()) == ws_end(s, old(self).pos()),
            decreases s.len() - self.current,
        {
            let c = self.peek();
            if c == ' ' || c == '\r' || c == '\t' || c == '\n' {
                self.advance_counting();
            } else {
                return;
            }
        }
    }

    /// Scans the next token: blanks and `//` comments are skipped, then one
    /// token is consumed and returned. At the end of the text every call
    /// returns an `Eof` token with empty text.
    pub fn scan_token(&mut self) -> (tok: Token)
        requires
            old(self).wf(),
        ensures
            final(self).wf(),
            final(self).source_bytes() == old(self).source_bytes(),
            ({
                let s = old(self).source_bytes();
                let st = skip_trivia(s, old(self).pos());
                &&& final(self).pos() == scan_end(s, st)
                &&& tok.kind == scan_kind(s, st)
                &&& tok.lexeme@ == scan_text(s, st)
            }),
            tok.line == final(self).line_no(),
    {
        let ghost s = self.source_bytes();
        let ghost target = skip_trivia(s, self.pos());
        loop
            invariant
                self.wf(),
                s == self.source_bytes(),
                s == old(self).source_bytes(),
                target == skip_trivia(s, old(self).pos()),
                skip_trivia(s, self.pos()) == target,
            decreases s.len() - self.current,
        {
            let ghost before = self.pos();
            self.skip_whitespace();
            self.start = self.current;
            proof {
                lemma_ws_end_bounds(s, before);
            }
            if self.start >= self.source.len() {
                return self.make_token(TokenKind::Eof);
            }
            let c = self.advance();
            if c == '(' {
                return self.make_token(TokenKind::LeftParen);
            } else if c == ')' {
                return self.make_token(TokenKind::RightParen);
            } else if c == '{' {
                return self.make_token(TokenKind::LeftBrace);
            } else if c == '}' {
                return self.make_token(TokenKind::RightBrace);
            } else if c == ';' {
                return self.make_token(TokenKind::Semicolon);
            } else if c == ',' {
                return self.make_token(TokenKind::Comma);
            } else if c == '.' {
                return self.make_token(TokenKind::Dot);
            } else if c == '-' {
                return self.make_token(TokenKind::Minus);
            } else if c == '+' {
                return self.make_token(TokenKind::Plus);
            } else if c == '/' {
                if self.peek() == '/' {
                    // a comment goes until the end of the line.
                    let ghost w = self.start as int;
                    while self.peek() != '\n' && self.current < self.source.len()
                        invariant
                            self.wf(),
                            s == self.source_bytes(),
                            w + 1 <= self.current <= s.len(),
                            comment_at(s, w),
                            line_end(s, self.pos()) == line_end(s, w + 2),
                        decreases s.len() - self.current,
                    {
                        self.advance();
                    }
                    continue;
                } else {
                    return self.make_token(TokenKind::Slash);
                }
            } else if c == '*' {
                return self.make_token(TokenKind::Star);
            } else if c == '!' {
                return if self.expect_match('=') {
                    self.make_token(TokenKind::BangEqual)
                } else {
                    self.make_token(TokenKind::Bang)
                };
            } else if c == '=' {
                return if self.expect_match('=') {
                    self.make_token(TokenKind::EqualEqual)
                } else {
                    self.make_token(TokenKind::Equal)
                };
            } else if c == '<' {
                return if self.expect_match('=') {
                    self.make_token(TokenKind::LessEqual)
                } else {
                    self.make_token(TokenKind::Less)
                };
            } else if c == '>' {
                return if self.expect_match('=') {
                    self.make_token(TokenKind::GreaterEqual)
                } else {
                    self.make_token(TokenKind::Greater)
                };
            } else if c == '"' {
                return self.string_token();
            } else if is_digit_char(c) {
                return self.number_token();
            } else if is_alpha_char(c) {
                return self.ident_token();
            } else {
                return self.error_token("Unrecognized character");
            }
        }
    }

    /// A token of `kind` whose text is the source text from `start` to the
    /// current position.
    fn make_token(&self, kind: TokenKind) -> (tok: Token)
        requires
            self.wf(),
            self.start <= self.current,
            self.start == self.source_bytes().len() || self.source_bytes()[self.start as int]
                < 0x80,
            self.start == self.current || self.source_bytes()[self.current - 1] < 0x80,
        ensures
            tok.kind == kind,
            tok.line == self.line,
            tok.lexeme@ == decode_utf8(
                self.source_bytes().subrange(self.start as int, self.current as int),
            ),
    {
        let ghost s = self.source_bytes();
        proof {
            lemma_ascii_boundary(s, self.start as int);
            valid_utf8_split(s, self.start as int);
        }
        let (_, rest) = self.source.split_at(self.start);
        let ghost rb = rest.spec_bytes();
        proof {
            assert(rb =~= s.subrange(self.start as int, s.len() as int));
            lemma_ascii_boundary(rb, (self.current - self.start) as int);
        }
        let (text, _) = rest.split_at(self.current - self.start);
        proof {
            assert(text.spec_bytes() =~= s.subrange(self.start as int, self.current as int));
        }
        Token { kind, lexeme: text.to_owned(), line: self.line }
    }

    fn error_token(&self, lexeme: &str) -> (tok: Token)
        ensures
            tok.kind == TokenKind::Error,
            tok.line == self.line,
            tok.lexeme@ == lexeme@,
    {
        Token { kind: TokenKind::Error, lexeme: lexeme.to_owned(), line: self.line }
    }

    /// Scans the rest of a string literal whose opening quote is consumed.
    fn string_token(&mut self) -> (tok: Token)
        requires
            old(self).wf(),
            old(self).current == old(self).start + 1,
            old(self).source_bytes()[old(self).start as int] == '"' as u8,
        ensures
            final(self).wf(),
            final(self).source == old(self).source,
            final(self).start == old(self).start,
            final(self).pos() == token_end(old(self).source_bytes(), old(self).start as int),
            tok.kind == token_kind(old(self).source_bytes(), old(self).start as int),
            tok.lexeme@ == scan_text(old(self).source_bytes(), old(self).start as int),
            tok.line == final(self).line,
    {
        let ghost s = self.source_bytes();
        let ghost st = self.start as int;
        while self.peek() != '"' && self.current < self.source.len()
            invariant
                self.wf(),
                self.source == old(self).source,
                self.start == old(self).start,
                st + 1 <= self.current <= s.len(),
                s == self.source_bytes(),
                string_close(s, self.pos()) == string_close(s, st + 1),
            decreases s.len() - self.current,
        {
            self.advance_counting();
        }
        if self.current >= self.source.len() {
            return self.error_token("Unterminated string");
        }
        self.advance();  // consume closing quote
        self.make_token(TokenKind::String)
    }

    /// Scans the rest of a number literal whose first digit is consumed.
    fn number_token(&mut self) -> (tok: Token)
        requires
            old(self).wf(),
            old(self).current == old(self).start + 1,
            is_digit(old(self).source_bytes()[old(self).start as int]),
        ensures
            final(self).wf(),
            final(self).source == old(self).source,
            final(self).start == old(self).start,
            final(self).pos() == number_end(old(self).source_bytes(), old(self).start as int),
            tok.kind == TokenKind::Number,
            tok.lexeme@ == decode_utf8(
                old(self).source_bytes().subrange(old(self).start as int, final(self).pos()),
            ),
            tok.line == final(self).line,
    {
        let ghost s = self.source_bytes();
        let ghost st = self.start as int;
        while is_digit_char(self.peek())
            invariant
                self.wf(),
                self.source == old(self).source,
                self.start == old(self).start,
                st + 1 <= self.current <= s.len(),
                s == self.source_bytes(),
                digits_end(s, self.pos()) == digits_end(s, st + 1),
                is_digit(s[self.current - 1]),
            decreases s.len() - self.current,
        {
            self.advance();
        }
        let ghost d = self.pos();
        if self.peek() == '.' && is_digit_char(self.peek_next()) {
            // consume the '.'
            self.advance();
            while is_digit_char(self.peek())
                invariant
                    self.wf(),
                    self.source == old(self).source,
                    self.start == old(self).start,
                    d + 1 <= self.current <= s.len(),
                    s == self.source_bytes(),
                    digits_end(s, self.pos()) == digits_end(s, d + 1),
                    s[self.current - 1] < 0x80,
                decreases s.len() - self.current,
            {
                self.advance();
            }
        }
        self.make_token(TokenKind::Number)
    }

    /// Scans the rest of an identifier or keyword whose first byte is consumed.
    fn ident_token(&mut self) -> (tok: Token)
        requires
            old(self).wf(),
            old(self).current == old(self).start + 1,
            is_alpha(old(self).source_bytes()[old(self).start as int]),
        ensures
            final(self).wf(),
            final(self).source == old(self).source,
            final(self).start == old(self).start,
            final(self).pos() == ident_end(old(self).source_bytes(), old(self).start + 1),
            tok.kind == keyword_kind(
                old(self).source_bytes().subrange(old(self).start as int, final(self).pos()),
            ),
            tok.lexeme@ == decode_utf8(
                old(self).source_bytes().subrange(old(self).start as int, final(self).pos()),
            ),
            tok.line == final(self).line,
    {
        let ghost s = self.source_bytes();
        let ghost st = self.start as int;
        loop
            invariant
                self.wf(),
                self.source == old(self).source,
                self.start == old(self).start,
                st + 1 <= self.current <= s.len(),
                s == self.source_bytes(),
                ident_end(s, self.pos()) == ident_end(s, st + 1),
                forall|k: int| st <= k < self.current ==> #[trigger] is_ident_byte(s[k]),
            ensures
                self.current == s.len() || !is_ident_byte(s[self.pos()]),
            decreases s.len() - self.current,
        {
            let c = self.peek();
            if is_alpha_char(c) || is_digit_char(c) {
                self.advance();
            } else {
                break;
            }
        }
        proof {
            assert(is_ident_byte(s[self.current - 1]));
        }
        let kind = self.ident_type();
        self.make_token(kind)
    }

    /// The kind of the identifier-shaped word from `start` to the current
    /// position: the reserved words are recognised by their first one or two
    /// bytes and a comparison of the rest.
    fn ident_type(&self) -> (k: TokenKind)
        requires
            self.wf(),
            self.start < self.current,
        ensures
            k == keyword_kind(self.source_bytes().subrange(self.start as int, self.current as int)),
    {
        let ghost s = self.source_bytes();
        let ghost t = s.subrange(self.start as int, self.current as int);
        let bytes = self.source.as_bytes();
        let c = bytes[self.start] as char;
        proof {
            assert(t[0] == s[self.start as int]);
            assert(t.len() > 1 ==> t[1] == s[self.start + 1]);
            lemma_keyword_kind_by_first(t);
        }
        if c == 'a' {
            let r = self.check_keyword(1, 2, &['n' as u8, 'd' as u8], TokenKind::And);
            proof {
                assert(t[0] == 'a' as u8);
                lemma_keyword_branch(s, self.start as int, self.current as int, seq!['a' as u8, 'n' as u8, 'd' as u8], 1, seq!['n' as u8, 'd' as u8]);
            }
            r
        } else if c == 'c' {
            let r = self.check_keyword(1, 4, &['l' as u8, 'a' as u8, 's' as u8, 's' as u8], TokenKind::Class);
            proof {
                assert(t[0] == 'c' as u8);
                lemma_keyword_branch(s, self.start as int, self.current as int, seq!['c' as u8, 'l' as u8, 'a' as u8, 's' as u8, 's' as u8], 1, seq!['l' as u8, 'a' as u8, 's' as u8, 's' as u8]);
                assert(r == keyword_kind(t));
            }
            r
        } else if c == 'e' {
            let r = self.check_keyword(1, 3, &['l' as u8, 's' as u8, 'e' as u8], TokenKind::Else);
            proof {
                assert(t[0] == 'e' as u8);
                lemma_keyword_branch(s, self.start as int, self.current as int, seq!['e' as u8, 'l' as u8, 's' as u8, 'e' as u8], 1, seq!['l' as u8, 's' as u8, 'e' as u8]);
                assert(r == keyword_kind(t));
            }
            r
        } else if c == 'f' {
            if self.current - self.start > 1 {
                let c2 = bytes[self.start + 1] as char;
                if c2 == 'a' {
                    let r = self.check_keyword(2, 3, &['l' as u8, 's' as u8, 'e' as u8], TokenKind::False);
                    proof {
                        assert(t[0] == 'f' as u8);
                        assert(t[1] == 'a' as u8);
                        lemma_keyword_branch(s, self.start as int, self.current as int, seq!['f' as u8, 'a' as u8, 'l' as u8, 's' as u8, 'e' as u8], 2, seq!['l' as u8, 's' as u8, 'e' as u8]);
                        assert(r == keyword_kind(t));
                    }
                    r
                } else if c2 == 'o' {
                    let rest: &[u8] = &['r' as u8];
                    proof {
                        assert(rest@ =~= seq!['r' as u8]);
                    }
                    let r = self.check_keyword(2, 1, rest, TokenKind::For);
                    proof {
                        assert(t[0] == 'f' as u8);
                        assert(t[1] == 'o' as u8);
                        lemma_differs_at(t, seq!['f' as u8, 'a' as u8, 'l' as u8, 's' as u8, 'e' as u8], 1);
                        lemma_keyword_branch(s, self.start as int, self.current as int, seq!['f' as u8, 'o' as u8, 'r' as u8], 2, seq!['r' as u8]);
                        assert(r == keyword_kind(t));
                    }
                    r
                } else if c2 == 'u' {
                    let rest: &[u8] = &['n' as u8];
                    proof {
                        assert(rest@ =~= seq!['n' as u8]);
                    }
                    let r = self.check_keyword(2, 1, rest, TokenKind::Fun);
                    proof {
                        assert(t[0] == 'f' as u8);
                        assert(t[1] == 'u' as u8);
                        lemma_differs_at(t, seq!['f' as u8, 'a' as u8, 'l' as u8, 's' as u8, 'e' as u8], 1);
                        lemma_differs_at(t, seq!['f' as u8, 'o' as u8, 'r' as u8], 1);
                        lemma_keyword_branch(s, self.start as int, self.current as int, seq!['f' as u8, 'u' as u8, 'n' as u8], 2, seq!['n' as u8]);
                        assert(r == keyword_kind(t));
                    }
                    r
                } else {
                    proof {
                        assert(t[0] == 'f' as u8);
                        assert(t[1] != 'a' as u8 && t[1] != 'o' as u8 && t[1] != 'u' as u8);
                        lemma_differs_at(t, seq!['f' as u8, 'a' as u8, 'l' as u8, 's' as u8, 'e' as u8], 1);
                        lemma_differs_at(t, seq!['f' as u8, 'o' as u8, 'r' as u8], 1);
                        lemma_differs_at(t, seq!['f' as u8, 'u' as u8, 'n' as u8], 1);
                        assert(keyword_kind(t) == TokenKind::Identifier);
                    }
                    TokenKind::Identifier
                }
            } else {
                proof {
                    assert(t[0] == 'f' as u8);
                    assert(keyword_kind(t) == TokenKind::Identifier);
                }
                TokenKind::Identifier
            }
        } else if c == 'i' {
            let rest: &[u8] = &['f' as u8];
            proof {
                assert(rest@ =~= seq!['f' as u8]);
            }
            let r = self.check_keyword(1, 1, rest, TokenKind::If);
            proof {
                assert(t[0] == 'i' as u8);
                lemma_keyword_branch(s, self.start as int, self.current as int, seq!['i' as u8, 'f' as u8], 1, seq!['f' as u8]);
                assert(r == keyword_kind(t));
            }
            r
        } else if c == 'n' {
            let r = self.check_keyword(1, 2, &['i' as u8, 'l' as u8], TokenKind::Nil);
            proof {
                assert(t[0] == 'n' as u8);
                lemma_keyword_branch(s, self.start as int, self.current as int, seq!['n' as u8, 'i' as u8, 'l' as u8], 1, seq!['i' as u8, 'l' as u8]);
                assert(r == keyword_kind(t));
            }
            r
        } else if c == 'o' {
            let rest: &[u8] = &['r' as u8];
            proof {
                assert(rest@ =~= seq!['r' as u8]);
            }
            let r = self.check_keyword(1, 1, rest, TokenKind::Or);
            proof {
                assert(t[0] == 'o' as u8);
                lemma_keyword_branch(s, self.start as int, self.current as int, seq!['o' as u8, 'r' as u8], 1, seq!['r' as u8]);
                assert(r == keyword_kind(t));
            }
            r
        } else if c == 'p' {
            let r = self.check_keyword(1, 4, &['r' as u8, 'i' as u8, 'n' as u8, 't' as u8], TokenKind::Print);
            proof {
                assert(t[0] == 'p' as u8);
                lemma_keyword_branch(s, self.start as int, self.current as int, seq!['p' as u8, 'r' as u8, 'i' as u8, 'n' as u8, 't' as u8], 1, seq!['r' as u8, 'i' as u8, 'n' as u8, 't' as u8]);
                assert(r == keyword_kind(t));
            }
            r
        } else if c == 'r' {
            let r = self.check_keyword(1, 5, &['e' as u8, 't' as u8, 'u' as u8, 'r' as u8, 'n' as u8], TokenKind::Return);
            proof {
                assert(t[0] == 'r' as u8);
                lemma_keyword_branch(s, self.start as int, self.current as int, seq!['r' as u8, 'e' as u8, 't' as u8, 'u' as u8, 'r' as u8, 'n' as u8], 1, seq!['e' as u8, 't' as u8, 'u' as u8, 'r' as u8, 'n' as u8]);
                assert(r == keyword_kind(t));
            }
            r
        } else if c == 's' {
            let r = self.check_keyword(1, 4, &['u' as u8, 'p' as u8, 'e' as u8, 'r' as u8], TokenKind::Super);
            proof {
                assert(t[0] == 's' as u8);
                lemma_keyword_branch(s, self.start as int, self.current as int, seq!['s' as u8, 'u' as u8, 'p' as u8, 'e' as u8, 'r' as u8], 1, seq!['u' as u8, 'p' as u8, 'e' as u8, 'r' as u8]);
                assert(r == keyword_kind(t));
            }
            r
        } else if c == 't' {
            if self.current - self.start > 1 {
                let c2 = bytes[self.start + 1] as char;
                if c2 == 'h' {
                    let r = self.check_keyword(2, 2, &['i' as u8, 's' as u8], TokenKind::This);
                    proof {
                        assert(t[0] == 't' as u8);
                        assert(t[1] == 'h' as u8);
                        lemma_keyword_branch(s, self.start as int, self.current as int, seq!['t' as u8, 'h' as u8, 'i' as u8, 's' as u8], 2, seq!['i' as u8, 's' as u8]);
                        assert(r == keyword_kind(t));
                    }
                    r
                } else if c2 == 'r' {
                    let r = self.check_keyword(2, 2, &['u' as u8, 'e' as u8], TokenKind::True);
                    proof {
                        assert(t[0] == 't' as u8);
                        assert(t[1] == 'r' as u8);
                        lemma_differs_at(t, seq!['t' as u8, 'h' as u8, 'i' as u8, 's' as u8], 1);
                        lemma_keyword_branch(s, self.start as int, self.current as int, seq!['t' as u8, 'r' as u8, 'u' as u8, 'e' as u8], 2, seq!['u' as u8, 'e' as u8]);
                        assert(r == keyword_kind(t));
                    }
                    r
                } else {
                    proof {
                        assert(t[0] == 't' as u8);
                        assert(t[1] != 'h' as u8 && t[1] != 'r' as u8);
                        lemma_differs_at(t, seq!['t' as u8, 'h' as u8, 'i' as u8, 's' as u8], 1);
                        lemma_differs_at(t, seq!['t' as u8, 'r' as u8, 'u' as u8, 'e' as u8], 1);
                        assert(keyword_kind(t) == TokenKind::Identifier);
                    }
                    TokenKind::Identifier
                }
            } else {
                proof {
                    assert(t[0] == 't' as u8);
                    assert(keyword_kind(t) == TokenKind::Identifier);
                }
                TokenKind::Identifier
            }
        } else if c == 'v' {
            let r = self.check_keyword(1, 2, &['a' as u8, 'r' as u8], TokenKind::Var);
            proof {
                assert(t[0] == 'v' as u8);
                lemma_keyword_branch(s, self.start as int, self.current as int, seq!['v' as u8, 'a' as u8, 'r' as u8], 1, seq!['a' as u8, 'r' as u8]);
                assert(r == keyword_kind(t));
            }
            r
        } else if c == 'w' {
            let r = self.check_keyword(1, 4, &['h' as u8, 'i' as u8, 'l' as u8, 'e' as u8], TokenKind::While);
            proof {
                assert(t[0] == 'w' as u8);
                lemma_keyword_branch(s, self.start as int, self.current as int, seq!['w' as u8, 'h' as u8, 'i' as u8, 'l' as u8, 'e' as u8], 1, seq!['h' as u8, 'i' as u8, 'l' as u8, 'e' as u8]);
                assert(r == keyword_kind(t));
            }
            r
        } else {
            proof {
                assert(t[0] != 'a' as u8 && t[0] != 'c' as u8 && t[0] != 'e' as u8 && t[0] != 'f' as u8 && t[0] != 'i' as u8 && t[0] != 'n' as u8 && t[0] != 'o' as u8 && t[0] != 'p' as u8 && t[0] != 'r' as u8 && t[0] != 's' as u8 && t[0] != 't' as u8 && t[0] != 'v' as u8 && t[0] != 'w' as u8);
                assert(keyword_kind(t) == TokenKind::Identifier);
            }
            TokenKind::Identifier
        }
    }

    /// `kind` when the word from `start` to the current position is exactly
    /// `start_off + length` bytes long and ends with `rest`; otherwise
    /// `Identifier`.
    fn check_keyword(&self, start_off: usize, length: usize, rest: &[u8], kind: TokenKind) -> (k:
        TokenKind)
        requires
            self.wf(),
            self.start <= self.current,
            rest@.len() == length,
            start_off + length <= 8,
        ensures
            k == (if self.current - self.start == start_off + length && self.source_bytes().subrange(
                self.start + start_off,
                self.start + start_off + length,
            ) == rest@ {
                kind
            } else {
                TokenKind::Identifier
            }),
    {
        let ghost s = self.source_bytes();
        if self.current - self.start != start_off + length {
            return TokenKind::Identifier;
        }
        let bytes = self.source.as_bytes();
        let base = self.start + start_off;
        let mut i: usize = 0;
        while i < length
            invariant
                i <= length,
                base + length == self.current,
                base == self.start + start_off,
                self.current <= s.len(),
                s == self.source_bytes(),
                bytes@ == s,
                rest@.len() == length,
                forall|j: int| 0 <= j < i ==> s[base + j] == rest@[j],
            decreases length - i,
        {
            if bytes[base + i] != rest[i] {
                proof {
                    assert(s.subrange(base as int, base + length)[i as int] != rest@[i as int]);
                }
                return TokenKind::Identifier;
            }
            i += 1;
        }
        proof {
            assert(s.subrange(base as int, base + length) =~= rest@);
        }
        kind
    }
}

} // verus!
