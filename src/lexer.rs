//! The lexer: one forward pass over the source bytes that yields tokens,
//! each with its byte span and its line and column.
use vstd::prelude::*;
use vstd::string::StringSliceAdditionalSpecFns;

use crate::error::{ErrorView, ParseError};
use crate::text::copy_span;

verus! {

pub const NEWLINE: u8 = 10;

pub const SEMICOLON: u8 = 59;

pub const DQUOTE: u8 = 34;

pub const DOT: u8 = 46;

/// ASCII whitespace: space, tab, line feed, form feed, carriage return.
pub open spec fn is_space_byte(c: u8) -> bool {
    c == 32 || c == 9 || c == 10 || c == 12 || c == 13
}

pub open spec fn is_digit_byte(c: u8) -> bool {
    48 <= c <= 57
}

pub open spec fn is_alpha_byte(c: u8) -> bool {
    (65 <= c <= 90) || (97 <= c <= 122)
}

/// Letters, digits and `_ ? ! = < > - + * / % & | ~ #`.
pub open spec fn is_symbol_byte(c: u8) -> bool {
    is_alpha_byte(c) || is_digit_byte(c) || c == 95 || c == 63 || c == 33 || c == 61 || c == 60
        || c == 62 || c == 45 || c == 43 || c == 42 || c == 47 || c == 37 || c == 38 || c == 124
        || c == 126 || c == 35
}

/// The line of the cursor after the first `i` bytes: one more than the newlines among them.
pub open spec fn line_at(b: Seq<u8>, i: nat) -> nat
    decreases i,
{
    if i == 0 {
        1
    } else if b[i - 1] == NEWLINE {
        line_at(b, (i - 1) as nat) + 1
    } else {
        line_at(b, (i - 1) as nat)
    }
}

/// The column of the cursor after the first `i` bytes: a newline resets it to 1,
/// any other byte moves it on by one.
pub open spec fn column_at(b: Seq<u8>, i: nat) -> nat
    decreases i,
{
    if i == 0 {
        1
    } else if b[i - 1] == NEWLINE {
        1
    } else {
        column_at(b, (i - 1) as nat) + 1
    }
}

pub proof fn lemma_position_bounds(b: Seq<u8>, i: nat)
    ensures
        1 <= line_at(b, i) <= i + 1,
        1 <= column_at(b, i) <= i + 1,
    decreases i,
{
    if i > 0 {
        lemma_position_bounds(b, (i - 1) as nat);
    }
}


/// The kinds of token. `Eof` ends every token stream, once.
#[derive(Debug, Clone, Copy, PartialEq, Eq, Structural)]
pub enum TokenKind {
    LParen,
    RParen,
    LBracket,
    RBracket,
    LBrace,
    RBrace,
    Quote,
    Symbol,
    String,
    Number,
    Eof,
}

/// A token as the specification sees it: its kind and the bytes `[start, end)` it spans.
pub struct TokenView {
    pub kind: TokenKind,
    pub start: nat,
    pub end: nat,
}

/// The end of a line comment whose text starts at `i`: just past the next newline,
/// or the end of input.
pub open spec fn comment_end(b: Seq<u8>, i: nat) -> nat
    decreases b.len() - i,
{
    if i >= b.len() {
        i
    } else if b[i as int] == NEWLINE {
        i + 1
    } else {
        comment_end(b, i + 1)
    }
}

/// The first position at or after `i` that holds no digit.
pub open spec fn digits_end(b: Seq<u8>, i: nat) -> nat
    decreases b.len() - i,
{
    if i < b.len() && is_digit_byte(b[i as int]) {
        digits_end(b, i + 1)
    } else {
        i
    }
}

/// The first position at or after `i` that holds no symbol byte.
pub open spec fn symbol_end(b: Seq<u8>, i: nat) -> nat
    decreases b.len() - i,
{
    if i < b.len() && is_symbol_byte(b[i as int]) {
        symbol_end(b, i + 1)
    } else {
        i
    }
}

/// The first position at or after `i` that holds a double quote, or the end of input.
pub open spec fn string_close(b: Seq<u8>, i: nat) -> nat
    decreases b.len() - i,
{
    if i < b.len() && b[i as int] != DQUOTE {
        string_close(b, i + 1)
    } else {
        i
    }
}

/// The end of a number whose first digit stands just before `i`: more digits,
/// then optionally a dot and more digits.
pub open spec fn number_end(b: Seq<u8>, i: nat) -> nat {
    let j = digits_end(b, i);
    if j < b.len() && b[j as int] == DOT {
        digits_end(b, j + 1)
    } else {
        j
    }
}

pub proof fn lemma_scan_ends(b: Seq<u8>, i: nat)
    ensures
        i <= comment_end(b, i),
        i <= digits_end(b, i),
        i <= symbol_end(b, i),
        i <= string_close(b, i),
        i <= number_end(b, i),
        i <= b.len() ==> comment_end(b, i) <= b.len() && digits_end(b, i) <= b.len()
            && symbol_end(b, i) <= b.len() && string_close(b, i) <= b.len() && number_end(b, i)
            <= b.len(),
        forall|k: int| i <= k < digits_end(b, i) ==> is_digit_byte(#[trigger] b[k]),
        forall|k: int| i <= k < symbol_end(b, i) ==> is_symbol_byte(#[trigger] b[k]),
        forall|k: int|
            i <= k < number_end(b, i) ==> is_digit_byte(#[trigger] b[k]) || b[k] == DOT,
        string_close(b, i) < b.len() ==> b[string_close(b, i) as int] == DQUOTE,
    decreases b.len() - i,
{
    if i < b.len() {
        lemma_scan_ends(b, i + 1);
        let j = digits_end(b, i);
        if j < b.len() {
            lemma_scan_ends(b, j + 1);
        }
    }
}

/// The first position at or after `i` that is neither whitespace nor inside a comment.
pub open spec fn trivia_end(b: Seq<u8>, i: nat) -> nat
    decreases b.len() - i,
{
    if i < b.len() && is_space_byte(b[i as int]) {
        trivia_end(b, i + 1)
    } else if i < b.len() && b[i as int] == SEMICOLON {
        proof {
            lemma_scan_ends(b, i + 1);
        }
        trivia_end(b, comment_end(b, i + 1))
    } else {
        i
    }
}

pub proof fn lemma_trivia_end(b: Seq<u8>, i: nat)
    ensures
        i <= trivia_end(b, i),
        i <= b.len() ==> trivia_end(b, i) <= b.len(),
        trivia_end(b, i) < b.len() ==> !is_space_byte(b[trivia_end(b, i) as int]) && b[trivia_end(
            b,
            i,
        ) as int] != SEMICOLON,
    decreases b.len() - i,
{
    if i < b.len() && is_space_byte(b[i as int]) {
        lemma_trivia_end(b, i + 1);
    } else if i < b.len() && b[i as int] == SEMICOLON {
        lemma_scan_ends(b, i + 1);
        lemma_trivia_end(b, comment_end(b, i + 1));
    }
}

/// The token that starts at `s`, where no whitespace or comment stands, or the
/// lexical error found there.
pub open spec fn scan_token(b: Seq<u8>, s: nat) -> Result<TokenView, ErrorView> {
    if s >= b.len() {
        Ok(TokenView { kind: TokenKind::Eof, start: s, end: s })
    } else {
        let c = b[s as int];
        if c == 40 {
            Ok(TokenView { kind: TokenKind::LParen, start: s, end: s + 1 })
        } else if c == 41 {
            Ok(TokenView { kind: TokenKind::RParen, start: s, end: s + 1 })
        } else if c == 91 {
            Ok(TokenView { kind: TokenKind::LBracket, start: s, end: s + 1 })
        } else if c == 93 {
            Ok(TokenView { kind: TokenKind::RBracket, start: s, end: s + 1 })
        } else if c == 123 {
            Ok(TokenView { kind: TokenKind::LBrace, start: s, end: s + 1 })
        } else if c == 125 {
            Ok(TokenView { kind: TokenKind::RBrace, start: s, end: s + 1 })
        } else if c == 39 {
            Ok(TokenView { kind: TokenKind::Quote, start: s, end: s + 1 })
        } else if c == DQUOTE {
            let k = string_close(b, s + 1);
            if k < b.len() {
                Ok(TokenView { kind: TokenKind::String, start: s, end: k + 1 })
            } else {
                Err(ErrorView::UnterminatedString { location: location_of(b, s, b.len()) })
            }
        } else if is_digit_byte(c) {
            Ok(TokenView { kind: TokenKind::Number, start: s, end: number_end(b, s + 1) })
        } else if is_symbol_byte(c) {
            Ok(TokenView { kind: TokenKind::Symbol, start: s, end: symbol_end(b, s + 1) })
        } else {
            Err(ErrorView::InvalidToken { location: location_of(b, s, s + 1) })
        }
    }
}

/// The next token at or after `i`: trivia skipped, then one token scanned.
pub open spec fn next_token(b: Seq<u8>, i: nat) -> Result<TokenView, ErrorView> {
    scan_token(b, trivia_end(b, i))
}

pub proof fn lemma_next_token(b: Seq<u8>, i: nat)
    requires
        i <= b.len(),
    ensures
        next_token(b, i) matches Ok(t) ==> {
            &&& i <= t.start <= t.end <= b.len()
            &&& t.kind == TokenKind::Eof <==> t.start == b.len()
            &&& t.kind != TokenKind::Eof ==> t.start < t.end
            &&& t.kind == TokenKind::Eof ==> t.end == b.len()
        },
{
    lemma_trivia_end(b, i);
    let s = trivia_end(b, i);
    if s < b.len() {
        lemma_scan_ends(b, s + 1);
    }
}

/// What the lexer guarantees of each token it yields.
pub open spec fn token_ok(b: Seq<u8>, t: TokenView) -> bool {
    &&& t.start <= t.end <= b.len()
    &&& t.kind == TokenKind::Eof <==> t.start == b.len()
    &&& t.kind == TokenKind::Eof ==> t.end == b.len()
    &&& t.kind != TokenKind::Eof ==> t.start < t.end
    &&& t.kind == TokenKind::String ==> t.start + 2 <= t.end && b[t.start as int] == DQUOTE && b[t.end
        - 1] == DQUOTE
    &&& t.kind == TokenKind::Symbol ==> forall|k: int|
        t.start <= k < t.end ==> is_symbol_byte(#[trigger] b[k])
    &&& t.kind == TokenKind::Number ==> forall|k: int|
        t.start <= k < t.end ==> is_digit_byte(#[trigger] b[k]) || b[k] == DOT
}

/// What the lexer guarantees of the token stream: well-formed tokens, and `Eof`
/// as the last one and only there.
pub open spec fn tokens_ok(b: Seq<u8>, ts: Seq<TokenView>) -> bool {
    &&& ts.len() >= 1
    &&& ts.last().kind == TokenKind::Eof
    &&& forall|k: int| 0 <= k < ts.len() - 1 ==> (#[trigger] ts[k]).kind != TokenKind::Eof
    &&& forall|k: int| 0 <= k < ts.len() ==> token_ok(b, #[trigger] ts[k])
}

/// Each token ends before the next one starts.
pub open spec fn tokens_ordered(ts: Seq<TokenView>) -> bool {
    forall|k: int, m: int|
        #![trigger ts[k], ts[m]]
        0 <= k && m == k + 1 && m < ts.len() ==> ts[k].end <= ts[m].start
}

pub proof fn lemma_lex_from_ordered(b: Seq<u8>, i: nat)
    requires
        i <= b.len(),
    ensures
        lex_from(b, i) matches Ok(ts) ==> tokens_ordered(ts) && (ts.len() > 0 ==> i <= ts[0].start),
    decreases b.len() - i,
{
    lemma_next_token(b, i);
    if let Ok(t) = next_token(b, i) {
        if t.kind != TokenKind::Eof {
            lemma_lex_from_ordered(b, t.end);
            if let Ok(rest) = lex_from(b, t.end) {
                let ts = seq![t] + rest;
                assert forall|k: int, m: int|
                    #![trigger ts[k], ts[m]]
                    0 <= k && m == k + 1 && m < ts.len() implies ts[k].end <= ts[m].start by {
                    assert(ts[m] == rest[k]);
                    if k > 0 {
                        assert(ts[k] == rest[k - 1]);
                    }
                }
            }
        }
    }
}

pub proof fn lemma_token_ok(b: Seq<u8>, i: nat)
    requires
        i <= b.len(),
    ensures
        next_token(b, i) matches Ok(t) ==> token_ok(b, t) && i <= t.start,
{
    lemma_trivia_end(b, i);
    let s = trivia_end(b, i);
    if s < b.len() {
        lemma_scan_ends(b, s + 1);
        if is_digit_byte(b[s as int]) {
            assert forall|k: int| s <= k < number_end(b, s + 1) implies is_digit_byte(
                #[trigger] b[k],
            ) || b[k] == DOT by {
                if k > s {
                }
            }
        }
        if is_symbol_byte(b[s as int]) {
            assert forall|k: int| s <= k < symbol_end(b, s + 1) implies is_symbol_byte(
                #[trigger] b[k],
            ) by {
                if k > s {
                }
            }
        }
    }
}

pub proof fn lemma_lex_from_ok(b: Seq<u8>, i: nat)
    requires
        i <= b.len(),
    ensures
        lex_from(b, i) matches Ok(ts) ==> tokens_ok(b, ts),
    decreases b.len() - i,
{
    lemma_token_ok(b, i);
    lemma_next_token(b, i);
    if let Ok(t) = next_token(b, i) {
        if t.kind != TokenKind::Eof {
            lemma_lex_from_ok(b, t.end);
            if let Ok(rest) = lex_from(b, t.end) {
                let ts = seq![t] + rest;
                assert(ts.last() == rest.last());
                assert forall|k: int| 0 <= k < ts.len() - 1 implies (#[trigger] ts[k]).kind
                    != TokenKind::Eof by {
                    if k > 0 {
                        assert(ts[k] == rest[k - 1]);
                    }
                }
                assert forall|k: int| 0 <= k < ts.len() implies token_ok(b, #[trigger] ts[k]) by {
                    if k > 0 {
                        assert(ts[k] == rest[k - 1]);
                    }
                }
            }
        }
    }
}

/// The tokens from position `i` on, up to and including `Eof`, or the first lexical error.
pub open spec fn lex_from(b: Seq<u8>, i: nat) -> Result<Seq<TokenView>, ErrorView>
    decreases b.len() - i,
{
    if i > b.len() {
        Ok(seq![])
    } else {
        match next_token(b, i) {
            Err(e) => Err(e),
            Ok(t) => if t.kind == TokenKind::Eof {
                Ok(seq![t])
            } else {
                proof {
                    lemma_next_token(b, i);
                }
                match lex_from(b, t.end) {
                    Ok(rest) => Ok(seq![t] + rest),
                    Err(e) => Err(e),
                }
            },
        }
    }
}

/// The tokens of the whole source, or the first lexical error.
pub open spec fn lex(b: Seq<u8>) -> Result<Seq<TokenView>, ErrorView> {
    lex_from(b, 0)
}

#[derive(Debug, Clone, Copy, PartialEq, Eq, Structural)]
pub struct Span {
    pub start: usize,
    pub end: usize,
}

#[derive(Debug, Clone, Copy, PartialEq, Eq, Structural)]
pub struct Token {
    pub kind: TokenKind,
    pub span: Span,
    pub location: Location,
}

impl Token {
    /// This token is the token `t` of the source `b`, with its location.
    pub open spec fn matches(&self, b: Seq<u8>, t: TokenView) -> bool {
        &&& self.kind == t.kind
        &&& self.span.start == t.start
        &&& self.span.end == t.end
        &&& self.location == location_of(b, t.start, t.end)
    }

    pub fn new(
        kind: TokenKind,
        start: usize,
        end: usize,
        start_line: u32,
        start_column: u32,
        end_line: u32,
        end_column: u32,
    ) -> (r: Self)
        ensures
            r.kind == kind,
            r.span == (Span { start, end }),
            r.location == (Location { start_line, start_column, end_line, end_column }),
    {
        Token {
            kind,
            span: Span { start, end },
            location: Location { start_line, start_column, end_line, end_column },
        }
    }

    /// The bytes of the source that this token spans.
    pub fn text(&self, source: &[u8]) -> (r: Vec<u8>)
        requires
            self.span.start <= self.span.end <= source@.len(),
        ensures
            r@ == source@.subrange(self.span.start as int, self.span.end as int),
    {
        copy_span(source, self.span.start, self.span.end)
    }
}

/// The exec tokens `v` are the tokens `ts` of the source `b`.
pub open spec fn tokens_match(b: Seq<u8>, v: Seq<Token>, ts: Seq<TokenView>) -> bool {
    &&& v.len() == ts.len()
    &&& forall|k: int| 0 <= k < v.len() ==> #[trigger] v[k].matches(b, ts[k])
}

pub fn is_symbol_char(byte: u8) -> (r: bool)
    ensures
        r == is_symbol_byte(byte),
{
    (65 <= byte && byte <= 90) || (97 <= byte && byte <= 122) || (48 <= byte && byte <= 57)
        || byte == 95 || byte == 63 || byte == 33 || byte == 61 || byte == 60 || byte == 62
        || byte == 45 || byte == 43 || byte == 42 || byte == 47 || byte == 37 || byte == 38
        || byte == 124 || byte == 126 || byte == 35
}

fn is_space(byte: u8) -> (r: bool)
    ensures
        r == is_space_byte(byte),
{
    byte == 32 || byte == 9 || byte == 10 || byte == 12 || byte == 13
}

fn is_digit(byte: u8) -> (r: bool)
    ensures
        r == is_digit_byte(byte),
{
    48 <= byte && byte <= 57
}

/// Lines never go back as the cursor moves on.
pub proof fn lemma_line_monotone(b: Seq<u8>, i: nat, j: nat)
    requires
        i <= j,
    ensures
        line_at(b, i) <= line_at(b, j),
    decreases j - i,
{
    if i < j {
        lemma_line_monotone(b, i, (j - 1) as nat);
    }
}

/// Moving over one byte: a newline starts the next line at column 1; any other
/// byte keeps the line and moves one column on, so the column never becomes 1.
pub proof fn lemma_step(b: Seq<u8>, i: nat)
    requires
        i < b.len(),
    ensures
        b[i as int] == NEWLINE ==> line_at(b, i + 1) == line_at(b, i) + 1 && column_at(b, i + 1)
            == 1,
        b[i as int] != NEWLINE ==> line_at(b, i + 1) == line_at(b, i) && column_at(b, i + 1)
            == column_at(b, i) + 1,
        column_at(b, i + 1) == 1 <==> b[i as int] == NEWLINE,
{
    lemma_position_bounds(b, i);
}

/// In an ordered token stream whose tokens start no later than they end,
/// starts never go back.
pub proof fn lemma_token_starts_ordered(ts: Seq<TokenView>, k: int, m: int)
    requires
        tokens_ordered(ts),
        forall|n: int| 0 <= n < ts.len() ==> (#[trigger] ts[n]).start <= ts[n].end,
        0 <= k <= m < ts.len(),
    ensures
        ts[k].start <= ts[m].start,
    decreases m - k,
{
    if k < m {
        lemma_token_starts_ordered(ts, k, m - 1);
        assert(ts[m - 1].start <= ts[m - 1].end);
        assert(ts[m - 1].end <= ts[m].start);
    }
}

/// The tokens of a source come in the order of their places: their start
/// lines never go back.
pub proof fn lemma_token_lines_ordered(b: Seq<u8>, k: int, m: int)
    requires
        lex(b) is Ok,
        0 <= k <= m < lex(b)->Ok_0.len(),
    ensures
        ({
            let ts = lex(b)->Ok_0;
            &&& ts[k].start <= ts[m].start
            &&& line_at(b, ts[k].start) <= line_at(b, ts[m].start)
        }),
{
    let ts = lex(b)->Ok_0;
    lemma_lex_from_ok(b, 0);
    lemma_lex_from_ordered(b, 0);
    assert forall|n: int| 0 <= n < ts.len() implies (#[trigger] ts[n]).start <= ts[n].end by {
        assert(token_ok(b, ts[n]));
    }
    lemma_token_starts_ordered(ts, k, m);
    lemma_line_monotone(b, ts[k].start, ts[m].start);
}

/// How many newlines `s` holds.
pub open spec fn newline_count(s: Seq<u8>) -> nat
    decreases s.len(),
{
    if s.len() == 0 {
        0
    } else {
        newline_count(s.drop_last()) + if s.last() == NEWLINE {
            1nat
        } else {
            0nat
        }
    }
}

/// The position just after the last newline among the first `i` bytes, or 0.
pub open spec fn line_start(b: Seq<u8>, i: nat) -> nat
    decreases i,
{
    if i == 0 {
        0
    } else if b[i - 1] == NEWLINE {
        i
    } else {
        line_start(b, (i - 1) as nat)
    }
}

/// The line after `i` bytes is one more than the newlines among them; the
/// column is one more than the bytes since the last of them.
pub proof fn lemma_line_column_counts(b: Seq<u8>, i: nat)
    requires
        i <= b.len(),
    ensures
        line_at(b, i) == 1 + newline_count(b.subrange(0, i as int)),
        line_start(b, i) <= i,
        line_start(b, i) > 0 ==> b[line_start(b, i) - 1] == NEWLINE,
        forall|p: int| line_start(b, i) <= p < i ==> #[trigger] b[p] != NEWLINE,
        column_at(b, i) == i - line_start(b, i) + 1,
    decreases i,
{
    if i > 0 {
        lemma_line_column_counts(b, (i - 1) as nat);
        assert(b.subrange(0, i as int).drop_last() =~= b.subrange(0, i - 1));
    } else {
        assert(b.subrange(0, 0) =~= Seq::<u8>::empty());
    }
}

/// The place after `i` bytes comes no later than the place after `j` bytes:
/// an earlier line, or the same line and a column no further right.
pub open spec fn position_le(b: Seq<u8>, i: nat, j: nat) -> bool {
    line_at(b, i) < line_at(b, j) || (line_at(b, i) == line_at(b, j) && column_at(b, i)
        <= column_at(b, j))
}

/// `a` ends no later than `c` starts, by line and then column.
pub open spec fn location_before(a: Location, c: Location) -> bool {
    a.end_line < c.start_line || (a.end_line == c.start_line && a.end_column <= c.start_column)
}

/// A location's start comes no later than its end, by line and then column.
pub open spec fn location_ordered(a: Location) -> bool {
    a.start_line < a.end_line || (a.start_line == a.end_line && a.start_column <= a.end_column)
}

/// As the cursor moves on, the (line, column) place never goes back.
pub proof fn lemma_position_order(b: Seq<u8>, i: nat, j: nat)
    requires
        i <= j <= b.len(),
    ensures
        position_le(b, i, j),
    decreases j - i,
{
    if i < j {
        lemma_position_order(b, i, (j - 1) as nat);
        lemma_step(b, (j - 1) as nat);
    }
}

/// The tokens of a source come in order: each one's location starts no later
/// than it ends, and ends no later than any later token starts.
pub proof fn lemma_token_locations_ordered(b: Seq<u8>, k: int, m: int)
    requires
        b.len() < u32::MAX,
        lex(b) is Ok,
        0 <= k <= m < lex(b)->Ok_0.len(),
    ensures
        ({
            let ts = lex(b)->Ok_0;
            let lk = location_of(b, ts[k].start, ts[k].end);
            let lm = location_of(b, ts[m].start, ts[m].end);
            &&& position_le(b, ts[k].start, ts[k].end)
            &&& location_ordered(lk)
            &&& k < m ==> position_le(b, ts[k].end, ts[m].start) && location_before(lk, lm)
        }),
{
    let ts = lex(b)->Ok_0;
    lemma_lex_from_ok(b, 0);
    lemma_lex_from_ordered(b, 0);
    assert(token_ok(b, ts[k]) && token_ok(b, ts[m]));
    assert forall|n: int| 0 <= n < ts.len() implies (#[trigger] ts[n]).start <= ts[n].end by {
        assert(token_ok(b, ts[n]));
    }
    lemma_position_order(b, ts[k].start, ts[k].end);
    lemma_position_bounds(b, ts[k].start);
    lemma_position_bounds(b, ts[k].end);
    lemma_position_bounds(b, ts[m].start);
    if k < m {
        lemma_token_starts_ordered(ts, k + 1, m);
        assert(ts[k].end <= ts[k + 1].start);
        lemma_position_order(b, ts[k].end, ts[m].start);
    }
}

#[derive(Debug, Clone, Copy, PartialEq, Eq, Structural)]
pub struct Location {
    pub start_line: u32,
    pub start_column: u32,
    pub end_line: u32,
    pub end_column: u32,
}

/// The location of the bytes `[s, e)`: where the cursor stood before the first
/// and after the last of them.
pub open spec fn location_of(b: Seq<u8>, s: nat, e: nat) -> Location {
    Location {
        start_line: line_at(b, s) as u32,
        start_column: column_at(b, s) as u32,
        end_line: line_at(b, e) as u32,
        end_column: column_at(b, e) as u32,
    }
}

pub struct Lexer<'src> {
    bytes: &'src [u8],
    start: usize,
    current: usize,
    line: u32,
    column: u32,
}

impl<'src> Lexer<'src> {
    pub closed spec fn source(&self) -> Seq<u8> {
        self.bytes@
    }

    pub closed spec fn cursor(&self) -> nat {
        self.current as nat
    }

    /// Where the token being scanned starts.
    pub closed spec fn token_start(&self) -> nat {
        self.start as nat
    }

    /// The line and column of the cursor.
    pub closed spec fn line_column(&self) -> (nat, nat) {
        (self.line as nat, self.column as nat)
    }

    pub closed spec fn wf(&self) -> bool {
        &&& self.bytes@.len() < u32::MAX
        &&& self.current <= self.bytes@.len()
        &&& self.line == line_at(self.bytes@, self.current as nat)
        &&& self.column == column_at(self.bytes@, self.current as nat)
    }

    /// A lexer at the start of `source`.
    pub fn new(source: &'src str) -> (r: Self)
        requires
            source.spec_bytes().len() < u32::MAX,
        ensures
            r.wf(),
            r.source() == source.spec_bytes(),
            r.cursor() == 0,
            r.token_start() == 0,
            r.line_column() == (1nat, 1nat),
    {
        Lexer { bytes: source.as_bytes(), start: 0, current: 0, line: 1, column: 1 }
    }

    fn peek(&self) -> (r: Option<u8>)
        requires
            self.wf(),
        ensures
            r == (if self.current < self.bytes@.len() {
                Some(self.bytes@[self.current as int])
            } else {
                None::<u8>
            }),
    {
        if self.current < self.bytes.len() {
            Some(self.bytes[self.current])
        } else {
            None
        }
    }

    fn consume(&mut self) -> (r: u8)
        requires
            old(self).wf(),
            old(self).current < old(self).bytes@.len(),
        ensures
            final(self).wf(),
            final(self).bytes == old(self).bytes,
            final(self).start == old(self).start,
            final(self).current == old(self).current + 1,
            r == old(self).bytes@[old(self).current as int],
            r == NEWLINE ==> final(self).line == old(self).line + 1 && final(self).column == 1,
            r != NEWLINE ==> final(self).line == old(self).line && final(self).column == old(
                self,
            ).column + 1,
    {
        let byte = self.bytes[self.current];
        proof {
            lemma_position_bounds(self.bytes@, self.current as nat + 1);
        }
        self.current = self.current + 1;
        if byte == NEWLINE {
            self.line = self.line + 1;
            self.column = 1;
        } else {
            self.column = self.column + 1;
        }
        byte
    }

    fn skip_whitespace(&mut self)
        requires
            old(self).wf(),
        ensures
            final(self).wf(),
            final(self).bytes == old(self).bytes,
            final(self).start == old(self).start,
            old(self).current <= final(self).current,
            trivia_end(old(self).bytes@, final(self).current as nat) == trivia_end(
                old(self).bytes@,
                old(self).current as nat,
            ),
            final(self).current < old(self).bytes@.len() ==> !is_space_byte(
                old(self).bytes@[final(self).current as int],
            ),
    {
        while self.current < self.bytes.len() && is_space(self.bytes[self.current])
            invariant
                self.wf(),
                self.bytes == old(self).bytes,
                self.start == old(self).start,
                old(self).current <= self.current,
                trivia_end(self.bytes@, self.current as nat) == trivia_end(
                    self.bytes@,
                    old(self).current as nat,
                ),
            decreases self.bytes@.len() - self.current,
        {
            self.consume();
        }
    }

    /// Skips the rest of a comment: up to and including the next newline.
    fn skip_comment(&mut self)
        requires
            old(self).wf(),
        ensures
            final(self).wf(),
            final(self).bytes == old(self).bytes,
            final(self).start == old(self).start,
            final(self).current == comment_end(old(self).bytes@, old(self).current as nat),
    {
        while self.current < self.bytes.len() && self.bytes[self.current] != NEWLINE
            invariant
                self.wf(),
                self.bytes == old(self).bytes,
                self.start == old(self).start,
                comment_end(self.bytes@, self.current as nat) == comment_end(
                    self.bytes@,
                    old(self).current as nat,
                ),
            decreases self.bytes@.len() - self.current,
        {
            self.consume();
        }
        if self.current < self.bytes.len() {
            self.consume();
        }
    }

    /// The token of `kind` from `start` to the cursor.
    fn make_token(&self, kind: TokenKind, start_line: u32, start_column: u32) -> (r: Token)
        requires
            self.wf(),
            self.start <= self.current,
            start_line == line_at(self.bytes@, self.start as nat),
            start_column == column_at(self.bytes@, self.start as nat),
        ensures
            r.matches(
                self.bytes@,
                TokenView { kind, start: self.start as nat, end: self.current as nat },
            ),
    {
        Token {
            kind,
            span: Span { start: self.start, end: self.current },
            location: Location {
                start_line,
                start_column,
                end_line: self.line,
                end_column: self.column,
            },
        }
    }

    /// Consumes the one byte of a delimiter or a quote mark and makes its token.
    fn simple_token(&mut self, kind: TokenKind) -> (r: Token)
        requires
            old(self).wf(),
            old(self).start == old(self).current,
            old(self).current < old(self).bytes@.len(),
        ensures
            final(self).wf(),
            final(self).bytes == old(self).bytes,
            final(self).current == old(self).current + 1,
            r.matches(
                old(self).bytes@,
                TokenView {
                    kind,
                    start: old(self).current as nat,
                    end: old(self).current as nat + 1,
                },
            ),
    {
        let start_line = self.line;
        let start_column = self.column;
        self.consume();
        self.make_token(kind, start_line, start_column)
    }

    /// Scans a string literal whose opening quote has been consumed.
    fn string_token(&mut self, start_line: u32, start_column: u32) -> (r: Result<Token, ParseError>)
        requires
            old(self).wf(),
            old(self).start + 1 == old(self).current,
            start_line == line_at(old(self).bytes@, old(self).start as nat),
            start_column == column_at(old(self).bytes@, old(self).start as nat),
        ensures
            final(self).wf(),
            final(self).bytes == old(self).bytes,
            ({
                let b = old(self).bytes@;
                let s = old(self).start as nat;
                let k = string_close(b, s + 1);
                if k < b.len() {
                    &&& r matches Ok(t)
                    &&& t.matches(b, TokenView { kind: TokenKind::String, start: s, end: k + 1 })
                    &&& final(self).current == k + 1
                } else {
                    &&& r matches Err(e)
                    &&& e@ == ErrorView::UnterminatedString { location: location_of(b, s, b.len()) }
                }
            }),
    {
        while self.current < self.bytes.len() && self.bytes[self.current] != DQUOTE
            invariant
                self.wf(),
                self.bytes == old(self).bytes,
                self.start == old(self).start,
                self.start < self.current,
                string_close(self.bytes@, self.current as nat) == string_close(
                    self.bytes@,
                    self.start as nat + 1,
                ),
            decreases self.bytes@.len() - self.current,
        {
            self.consume();
        }
        if self.current >= self.bytes.len() {
            return Err(
                ParseError::UnterminatedString {
                    location: Location {
                        start_line,
                        start_column,
                        end_line: self.line,
                        end_column: self.column,
                    },
                },
            );
        }
        self.consume();
        Ok(self.make_token(TokenKind::String, start_line, start_column))
    }

    fn skip_digits(&mut self)
        requires
            old(self).wf(),
        ensures
            final(self).wf(),
            final(self).bytes == old(self).bytes,
            final(self).start == old(self).start,
            final(self).current == digits_end(old(self).bytes@, old(self).current as nat),
    {
        while self.current < self.bytes.len() && is_digit(self.bytes[self.current])
            invariant
                self.wf(),
                self.bytes == old(self).bytes,
                self.start == old(self).start,
                digits_end(self.bytes@, self.current as nat) == digits_end(
                    self.bytes@,
                    old(self).current as nat,
                ),
            decreases self.bytes@.len() - self.current,
        {
            self.consume();
        }
    }

    /// Scans a number whose first digit has been consumed.
    fn number_token(&mut self, start_line: u32, start_column: u32) -> (r: Token)
        requires
            old(self).wf(),
            old(self).start + 1 == old(self).current,
            start_line == line_at(old(self).bytes@, old(self).start as nat),
            start_column == column_at(old(self).bytes@, old(self).start as nat),
        ensures
            final(self).wf(),
            final(self).bytes == old(self).bytes,
            final(self).current == number_end(old(self).bytes@, old(self).current as nat),
            r.matches(
                old(self).bytes@,
                TokenView {
                    kind: TokenKind::Number,
                    start: old(self).start as nat,
                    end: final(self).current as nat,
                },
            ),
    {
        proof {
            lemma_scan_ends(self.bytes@, self.current as nat);
        }
        self.skip_digits();
        if self.current < self.bytes.len() && self.bytes[self.current] == DOT {
            self.consume();
            self.skip_digits();
        }
        self.make_token(TokenKind::Number, start_line, start_column)
    }

    /// Scans a symbol whose first byte has been consumed.
    fn symbol_token(&mut self, start_line: u32, start_column: u32) -> (r: Token)
        requires
            old(self).wf(),
            old(self).start + 1 == old(self).current,
            start_line == line_at(old(self).bytes@, old(self).start as nat),
            start_column == column_at(old(self).bytes@, old(self).start as nat),
        ensures
            final(self).wf(),
            final(self).bytes == old(self).bytes,
            final(self).current == symbol_end(old(self).bytes@, old(self).current as nat),
            r.matches(
                old(self).bytes@,
                TokenView {
                    kind: TokenKind::Symbol,
                    start: old(self).start as nat,
                    end: final(self).current as nat,
                },
            ),
    {
        while self.current < self.bytes.len() && is_symbol_char(self.bytes[self.current])
            invariant
                self.wf(),
                self.bytes == old(self).bytes,
                self.start == old(self).start,
                self.start < self.current,
                symbol_end(self.bytes@, self.current as nat) == symbol_end(
                    self.bytes@,
                    old(self).current as nat,
                ),
            decreases self.bytes@.len() - self.current,
        {
            self.consume();
        }
        self.make_token(TokenKind::Symbol, start_line, start_column)
    }

    /// Skips whitespace and comments, then scans one token.
    fn next(&mut self) -> (r: Result<Token, ParseError>)
        requires
            old(self).wf(),
        ensures
            final(self).wf(),
            final(self).bytes == old(self).bytes,
            match next_token(old(self).bytes@, old(self).current as nat) {
                Ok(t) => {
                    &&& r matches Ok(tok)
                    &&& tok.matches(old(self).bytes@, t)
                    &&& final(self).current == t.end
                },
                Err(e) => r matches Err(err) && err@ == e,
            },
    {
        loop
            invariant
                self.wf(),
                self.bytes == old(self).bytes,
                trivia_end(self.bytes@, self.current as nat) == trivia_end(
                    self.bytes@,
                    old(self).current as nat,
                ),
            ensures
                self.wf(),
                self.bytes == old(self).bytes,
                trivia_end(self.bytes@, self.current as nat) == trivia_end(
                    self.bytes@,
                    old(self).current as nat,
                ),
                self.current < self.bytes@.len() ==> !is_space_byte(self.bytes@[self.current as int])
                    && self.bytes@[self.current as int] != SEMICOLON,
            decreases self.bytes@.len() - self.current,
        {
            self.skip_whitespace();
            if self.current < self.bytes.len() && self.bytes[self.current] == SEMICOLON {
                self.consume();
                proof {
                    lemma_scan_ends(self.bytes@, self.current as nat);
                }
                self.skip_comment();
            } else {
                break ;
            }
        }
        self.start = self.current;
        let start_line = self.line;
        let start_column = self.column;
        let ghost b = self.bytes@;
        let ghost s = self.current as nat;
        assert(trivia_end(b, s) == s);
        match self.peek() {
            None => Ok(self.make_token(TokenKind::Eof, start_line, start_column)),
            Some(byte) => {
                if byte == 40 {
                    Ok(self.simple_token(TokenKind::LParen))
                } else if byte == 41 {
                    Ok(self.simple_token(TokenKind::RParen))
                } else if byte == 91 {
                    Ok(self.simple_token(TokenKind::LBracket))
                } else if byte == 93 {
                    Ok(self.simple_token(TokenKind::RBracket))
                } else if byte == 123 {
                    Ok(self.simple_token(TokenKind::LBrace))
                } else if byte == 125 {
                    Ok(self.simple_token(TokenKind::RBrace))
                } else if byte == 39 {
                    Ok(self.simple_token(TokenKind::Quote))
                } else if byte == DQUOTE {
                    self.consume();
                    self.string_token(start_line, start_column)
                } else if is_digit(byte) {
                    self.consume();
                    Ok(self.number_token(start_line, start_column))
                } else if is_symbol_char(byte) {
                    self.consume();
                    Ok(self.symbol_token(start_line, start_column))
                } else {
                    self.consume();
                    Err(
                        ParseError::InvalidToken {
                            location: Location {
                                start_line,
                                start_column,
                                end_line: self.line,
                                end_column: self.column,
                            },
                        },
                    )
                }
            },
        }
    }

    /// All the tokens from the cursor on, ending with `Eof`, or the first lexical error.
    pub fn collect(&mut self) -> (r: Result<Vec<Token>, ParseError>)
        requires
            old(self).wf(),
        ensures
            final(self).wf(),
            final(self).source() == old(self).source(),
            match lex_from(old(self).source(), old(self).cursor()) {
                Ok(ts) => r matches Ok(v) && tokens_match(old(self).source(), v@, ts),
                Err(e) => r matches Err(err) && err@ == e,
            },
    {
        let ghost b = self.bytes@;
        let ghost i0 = self.current as nat;
        let ghost mut done: Seq<TokenView> = seq![];
        let mut tokens: Vec<Token> = Vec::new();
        loop
            invariant
                self.wf(),
                self.bytes@ == b,
                b == old(self).bytes@,
                i0 == old(self).current,
                i0 <= self.current <= b.len(),
                tokens_match(b, tokens@, done),
                match lex_from(b, self.current as nat) {
                    Ok(rest) => lex_from(b, i0) == Ok::<Seq<TokenView>, ErrorView>(done + rest),
                    Err(e) => lex_from(b, i0) == Err::<Seq<TokenView>, ErrorView>(e),
                },
            decreases b.len() - self.current,
        {
            let ghost before = self.current as nat;
            proof {
                lemma_next_token(b, before);
            }
            let token = match self.next() {
                Ok(t) => t,
                Err(e) => {
                    return Err(e);
                },
            };
            let ghost t = next_token(b, before)->Ok_0;
            let ghost prev_done = done;
            let ghost prev_tokens = tokens@;
            tokens.push(token);
            proof {
                done = done.push(t);
                assert(tokens_match(b, tokens@, done)) by {
                    assert forall|k: int| 0 <= k < tokens@.len() implies #[trigger] tokens@[k].matches(
                        b,
                        done[k],
                    ) by {
                        if k < tokens@.len() - 1 {
                            assert(tokens@[k] == prev_tokens[k]);
                        }
                    }
                }
            }
            if token.kind == TokenKind::Eof {
                proof {
                    assert(lex_from(b, before) == Ok::<Seq<TokenView>, ErrorView>(seq![t]));
                    assert(done =~= prev_done + seq![t]);
                }
                return Ok(tokens);
            }
            proof {
                match lex_from(b, self.current as nat) {
                    Ok(rest) => {
                        assert(prev_done + (seq![t] + rest) =~= done + rest);
                    },
                    Err(e) => {},
                }
            }
        }
    }
}

} // verus!
