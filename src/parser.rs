//! The parser: recursive descent over the token stream, building cons-cell trees.
use vstd::prelude::*;

use crate::error::{ErrorView, ParseError};
use vstd::string::StringSliceAdditionalSpecFns;
use vstd::utf8::{encode_utf8_valid_utf8, valid_utf8};

use crate::lexer::{
    digits_end, is_digit_byte, is_symbol_byte, lemma_lex_from_ok, lex_from, next_token, number_end,
    trivia_end, lex, location_of, token_ok, tokens_match,
    tokens_ok, Lexer, Location, Token, TokenKind, TokenView, DOT,
};
use crate::model::{cons_all, lemma_cons_all_push, views, Model, ModelView};
use crate::text::{all_ascii, copy_span, lemma_ascii_valid, lemma_valid_between_quotes, utf8_string};

verus! {

/// The bytes of `quote`, the symbol that `'x` stands for.
pub open spec fn quote_bytes() -> Seq<u8> {
    seq![113u8, 117u8, 111u8, 116u8, 101u8]
}

/// The value of a run of decimal digits.
pub open spec fn decimal_value(s: Seq<u8>) -> nat
    decreases s.len(),
{
    if s.len() == 0 {
        0
    } else {
        decimal_value(s.drop_last()) * 10 + (s.last() - 48) as nat
    }
}

/// A number token: a float where its text holds a dot, else an integer, which
/// must fit in an `i64`.
pub open spec fn number_model(b: Seq<u8>, t: TokenView) -> Result<ModelView, ErrorView> {
    let text = b.subrange(t.start as int, t.end as int);
    if text.contains(DOT) {
        Ok(ModelView::Float(text))
    } else if decimal_value(text) <= i64::MAX {
        Ok(ModelView::Int(decimal_value(text) as i64))
    } else {
        Err(ErrorView::InvalidNumber { text, location: location_of(b, t.start, t.end) })
    }
}

/// A string token: its bytes without the two quotes.
pub open spec fn string_model(b: Seq<u8>, t: TokenView) -> Result<ModelView, ErrorView> {
    if t.start + 2 <= t.end {
        Ok(ModelView::Str(b.subrange(t.start + 1 as int, t.end - 1 as int)))
    } else {
        Err(ErrorView::UnterminatedString { location: location_of(b, t.start, t.end) })
    }
}

/// A symbol token: `#t`, `#f` and `null` are literals, any other text a symbol.
pub open spec fn symbol_model(text: Seq<u8>) -> ModelView {
    if text == seq![35u8, 116u8] {
        ModelView::Bool(true)
    } else if text == seq![35u8, 102u8] {
        ModelView::Bool(false)
    } else if text == seq![110u8, 117u8, 108u8, 108u8] {
        ModelView::Null
    } else {
        ModelView::Symbol(text)
    }
}

/// `(quote x)`.
pub open spec fn quoted(x: ModelView) -> ModelView {
    ModelView::Pair(
        Box::new(ModelView::Symbol(quote_bytes())),
        Box::new(ModelView::Pair(Box::new(x), Box::new(ModelView::Null))),
    )
}

/// The location of the end of input, where `Eof` stands.
pub open spec fn end_location(b: Seq<u8>) -> Location {
    location_of(b, b.len(), b.len())
}

/// The expression that starts at token `i`, with the index of the token after
/// it. `outer` is the location of the outermost list still open around it.
pub open spec fn parse_expr_at(
    b: Seq<u8>,
    ts: Seq<TokenView>,
    i: nat,
    outer: Option<Location>,
) -> Result<(ModelView, nat), ErrorView>
    decreases ts.len() - i, 0nat,
{
    if i >= ts.len() {
        Err(ErrorView::UnexpectedEof { expected: "expression"@, location: end_location(b) })
    } else {
        let t = ts[i as int];
        let here = location_of(b, t.start, t.end);
        match t.kind {
            TokenKind::Number => match number_model(b, t) {
                Ok(m) => Ok((m, i + 1)),
                Err(e) => Err(e),
            },
            TokenKind::String => match string_model(b, t) {
                Ok(m) => Ok((m, i + 1)),
                Err(e) => Err(e),
            },
            TokenKind::Symbol => Ok(
                (symbol_model(b.subrange(t.start as int, t.end as int)), i + 1),
            ),
            TokenKind::LParen => parse_items_at(
                b,
                ts,
                i + 1,
                match outer {
                    Some(l) => l,
                    None => here,
                },
            ),
            TokenKind::Quote => match parse_expr_at(b, ts, i + 1, outer) {
                Ok((x, j)) => Ok((quoted(x), j)),
                Err(e) => Err(e),
            },
            TokenKind::Eof => Err(ErrorView::UnexpectedEof { expected: "expression"@, location: here }),
            _ => Err(
                ErrorView::UnexpectedToken { expected: "expression"@, found: t.kind, location: here },
            ),
        }
    }
}

/// The rest of a list from token `i` up to its `)`, as the chain of pairs of
/// its elements, with the index of the token after the `)`. Input that ends
/// first leaves the list open: the error then points at `outer`.
pub open spec fn parse_items_at(b: Seq<u8>, ts: Seq<TokenView>, i: nat, outer: Location) -> Result<
    (ModelView, nat),
    ErrorView,
>
    decreases ts.len() - i, 1nat,
{
    if i >= ts.len() || ts[i as int].kind == TokenKind::Eof {
        Err(ErrorView::UnmatchedParen { location: outer })
    } else if ts[i as int].kind == TokenKind::RParen {
        Ok((ModelView::Null, i + 1))
    } else {
        match parse_expr_at(b, ts, i, Some(outer)) {
            Ok((x, j)) => if i < j <= ts.len() {
                match parse_items_at(b, ts, j, outer) {
                    Ok((rest, k)) => Ok((ModelView::Pair(Box::new(x), Box::new(rest)), k)),
                    Err(e) => Err(e),
                }
            } else {
                Err(ErrorView::UnmatchedParen { location: outer })
            },
            Err(e) => Err(e),
        }
    }
}

/// The top-level forms from token `i` up to `Eof`.
pub open spec fn parse_forms_at(b: Seq<u8>, ts: Seq<TokenView>, i: nat) -> Result<
    Seq<ModelView>,
    ErrorView,
>
    decreases ts.len() - i,
{
    if i >= ts.len() || ts[i as int].kind == TokenKind::Eof {
        Ok(seq![])
    } else {
        match parse_expr_at(b, ts, i, None) {
            Ok((x, j)) => if i < j <= ts.len() {
                match parse_forms_at(b, ts, j) {
                    Ok(rest) => Ok(seq![x] + rest),
                    Err(e) => Err(e),
                }
            } else {
                Ok(seq![x])
            },
            Err(e) => Err(e),
        }
    }
}

/// What the source `b` reads as: its forms, in order, or the first error.
pub open spec fn parse_source(b: Seq<u8>) -> Result<Seq<ModelView>, ErrorView> {
    match lex(b) {
        Ok(ts) => parse_forms_at(b, ts, 0),
        Err(e) => Err(e),
    }
}

/// A parse that began at token `i` and succeeded ended past it, within the `n` tokens.
pub open spec fn consumes(r: Result<(ModelView, nat), ErrorView>, i: nat, n: nat) -> bool {
    r matches Ok((x, j)) ==> i < j <= n
}

/// `r` is what reading the source `b` yields: its forms, or its first error.
pub open spec fn parse_outcome(b: Seq<u8>, r: Result<Vec<Model>, ParseError>) -> bool {
    match parse_source(b) {
        Ok(ms) => r matches Ok(v) && views(v@) == ms,
        Err(e) => r matches Err(err) && err@ == e,
    }
}

/// Reading one source twice gives structurally equal results: the same forms,
/// or the same error.
pub proof fn lemma_parse_twice(
    b: Seq<u8>,
    r1: Result<Vec<Model>, ParseError>,
    r2: Result<Vec<Model>, ParseError>,
)
    requires
        parse_outcome(b, r1),
        parse_outcome(b, r2),
    ensures
        r1 is Ok <==> r2 is Ok,
        r1 matches Ok(v1) ==> r2 matches Ok(v2) && views(v1@) == views(v2@),
        r1 matches Err(e1) ==> r2 matches Err(e2) && e1@ == e2@,
{
}

/// A run of digits that ends where its digits end.
pub proof fn lemma_digits_end(s: Seq<u8>, i: nat, e: nat)
    requires
        i <= e <= s.len(),
        forall|k: int| i <= k < e ==> is_digit_byte(#[trigger] s[k]),
        e == s.len() || !is_digit_byte(s[e as int]),
    ensures
        digits_end(s, i) == e,
    decreases e - i,
{
    if i < e {
        lemma_digits_end(s, i + 1, e);
    }
}

/// A source that is one token and nothing else lexes as that token and `Eof`.
proof fn lemma_single_token(s: Seq<u8>)
    requires
        s.len() > 0,
        is_digit_byte(s[0]),
        number_end(s, 1) == s.len(),
    ensures
        lex(s) == Ok::<Seq<TokenView>, ErrorView>(
            seq![
                TokenView { kind: TokenKind::Number, start: 0, end: s.len() },
                TokenView { kind: TokenKind::Eof, start: s.len(), end: s.len() },
            ],
        ),
{
    assert(trivia_end(s, 0) == 0);
    assert(trivia_end(s, s.len()) == s.len());
    let t = TokenView { kind: TokenKind::Number, start: 0, end: s.len() };
    let eof = TokenView { kind: TokenKind::Eof, start: s.len(), end: s.len() };
    assert(next_token(s, 0) == Ok::<TokenView, ErrorView>(t));
    assert(lex_from(s, s.len()) == Ok::<Seq<TokenView>, ErrorView>(seq![eof]));
    assert(seq![t] + seq![eof] =~= seq![t, eof]);
}

/// A literal of decimal digits whose value fits in an `i64` reads as that integer.
pub proof fn lemma_integer_literal(s: Seq<u8>)
    requires
        s.len() > 0,
        forall|k: int| 0 <= k < s.len() ==> is_digit_byte(#[trigger] s[k]),
        decimal_value(s) <= i64::MAX,
    ensures
        parse_source(s) == Ok::<Seq<ModelView>, ErrorView>(
            seq![ModelView::Int(decimal_value(s) as i64)],
        ),
{
    lemma_digits_end(s, 1, s.len());
    lemma_single_token(s);
    let ts = lex(s)->Ok_0;
    assert(s.subrange(0, s.len() as int) =~= s);
    assert(!s.contains(DOT)) by {
        if s.contains(DOT) {
            let k = choose|k: int| 0 <= k < s.len() && s[k] == DOT;
            assert(is_digit_byte(s[k]));
        }
    }
    let m = ModelView::Int(decimal_value(s) as i64);
    assert(parse_expr_at(s, ts, 0, None) == Ok::<(ModelView, nat), ErrorView>((m, 1)));
    assert(parse_forms_at(s, ts, 1) == Ok::<Seq<ModelView>, ErrorView>(seq![]));
    assert(seq![m] + seq![] =~= seq![m]);
}

/// A literal of digits, one dot and digits reads as a float with that text.
pub proof fn lemma_float_literal(s: Seq<u8>, p: int)
    requires
        0 < p < s.len(),
        s[p] == DOT,
        forall|k: int| 0 <= k < s.len() && k != p ==> is_digit_byte(#[trigger] s[k]),
    ensures
        parse_source(s) == Ok::<Seq<ModelView>, ErrorView>(seq![ModelView::Float(s)]),
{
    lemma_digits_end(s, 1, p as nat);
    lemma_digits_end(s, (p + 1) as nat, s.len());
    lemma_single_token(s);
    let ts = lex(s)->Ok_0;
    assert(s.subrange(0, s.len() as int) =~= s);
    assert(s.contains(DOT));
    let m = ModelView::Float(s);
    assert(parse_expr_at(s, ts, 0, None) == Ok::<(ModelView, nat), ErrorView>((m, 1)));
    assert(parse_forms_at(s, ts, 1) == Ok::<Seq<ModelView>, ErrorView>(seq![]));
    assert(seq![m] + seq![] =~= seq![m]);
}

/// Each expression and each list consumes at least one token.
pub proof fn lemma_parse_advances(b: Seq<u8>, ts: Seq<TokenView>, i: nat)
    ensures
        forall|o: Option<Location>| consumes(#[trigger] parse_expr_at(b, ts, i, o), i, ts.len()),
        forall|l: Location| consumes(#[trigger] parse_items_at(b, ts, i, l), i, ts.len()),
    decreases ts.len() - i,
{
    if i < ts.len() {
        lemma_parse_advances(b, ts, i + 1);
        assert forall|o: Option<Location>|
            consumes(#[trigger] parse_expr_at(b, ts, i, o), i, ts.len()) by {
            let t = ts[i as int];
            if t.kind == TokenKind::LParen {
                let l = match o {
                    Some(l) => l,
                    None => location_of(b, t.start, t.end),
                };
                assert(consumes(parse_items_at(b, ts, i + 1, l), i + 1, ts.len()));
            } else if t.kind == TokenKind::Quote {
                assert(consumes(parse_expr_at(b, ts, i + 1, o), i + 1, ts.len()));
            }
        }
        assert forall|l: Location| consumes(#[trigger] parse_items_at(b, ts, i, l), i, ts.len()) by {
            if ts[i as int].kind != TokenKind::Eof && ts[i as int].kind != TokenKind::RParen {
                assert(consumes(parse_expr_at(b, ts, i, Some(l)), i, ts.len()));
                if let Ok((x, j)) = parse_expr_at(b, ts, i, Some(l)) {
                    lemma_parse_advances(b, ts, j);
                    assert(consumes(parse_items_at(b, ts, j, l), j, ts.len()));
                }
            }
        }
    }
}

/// The kinds of token that can begin an expression.
pub open spec fn starts_expression(k: TokenKind) -> bool {
    k == TokenKind::Number || k == TokenKind::String || k == TokenKind::Symbol || k
        == TokenKind::LParen || k == TokenKind::Quote
}

/// How `expect` names a token kind in its errors.
pub open spec fn kind_name(k: TokenKind) -> Seq<char> {
    match k {
        TokenKind::LParen => "LParen"@,
        TokenKind::RParen => "RParen"@,
        TokenKind::LBracket => "LBracket"@,
        TokenKind::RBracket => "RBracket"@,
        TokenKind::LBrace => "LBrace"@,
        TokenKind::RBrace => "RBrace"@,
        TokenKind::Quote => "Quote"@,
        TokenKind::Symbol => "Symbol"@,
        TokenKind::String => "String"@,
        TokenKind::Number => "Number"@,
        TokenKind::Eof => "Eof"@,
    }
}

fn kind_label(k: TokenKind) -> (r: &'static str)
    ensures
        r@ == kind_name(k),
{
    match k {
        TokenKind::LParen => "LParen",
        TokenKind::RParen => "RParen",
        TokenKind::LBracket => "LBracket",
        TokenKind::RBracket => "RBracket",
        TokenKind::LBrace => "LBrace",
        TokenKind::RBrace => "RBrace",
        TokenKind::Quote => "Quote",
        TokenKind::Symbol => "Symbol",
        TokenKind::String => "String",
        TokenKind::Number => "Number",
        TokenKind::Eof => "Eof",
    }
}

/// Reads a run of decimal digits as an `i64`; `None` where the value does not fit.
pub fn parse_decimal(digits: &[u8]) -> (r: Option<i64>)
    requires
        forall|k: int| 0 <= k < digits@.len() ==> is_digit_byte(#[trigger] digits@[k]),
    ensures
        decimal_value(digits@) <= i64::MAX ==> r == Some(decimal_value(digits@) as i64),
        decimal_value(digits@) > i64::MAX ==> r is None,
{
    let mut v: i64 = 0;
    let mut k: usize = 0;
    while k < digits.len()
        invariant
            k <= digits@.len(),
            forall|m: int| 0 <= m < digits@.len() ==> is_digit_byte(#[trigger] digits@[m]),
            v == decimal_value(digits@.subrange(0, k as int)),
        decreases digits@.len() - k,
    {
        let d = (digits[k] - 48) as i64;
        proof {
            let p = digits@.subrange(0, k as int + 1);
            assert(p.drop_last() =~= digits@.subrange(0, k as int));
        }
        if v > (i64::MAX - d) / 10 {
            proof {
                assert(v * 10 + d > i64::MAX) by (nonlinear_arith)
                    requires
                        v > (i64::MAX - d) / 10,
                        0 <= d <= 9,
                ;
                lemma_decimal_prefix(digits@, k as int + 1);
            }
            return None;
        }
        proof {
            assert(v * 10 + d <= i64::MAX) by (nonlinear_arith)
                requires
                    v <= (i64::MAX - d) / 10,
                    0 <= d <= 9,
            ;
        }
        v = v * 10 + d;
        k = k + 1;
    }
    assert(digits@.subrange(0, k as int) =~= digits@);
    Some(v)
}

/// A longer run of digits is worth at least as much as its prefix.
pub proof fn lemma_decimal_prefix(s: Seq<u8>, k: int)
    requires
        0 <= k <= s.len(),
    ensures
        decimal_value(s.subrange(0, k)) <= decimal_value(s),
    decreases s.len(),
{
    if k < s.len() {
        let t = s.drop_last();
        lemma_decimal_prefix(t, k);
        assert(t.subrange(0, k) =~= s.subrange(0, k));
    } else {
        assert(s.subrange(0, k) =~= s);
    }
}

/// A parser over the token stream of one source text.
pub struct Parser<'src> {
    tokens: Vec<Token>,
    source: &'src [u8],
    idx: usize,
    stack: Vec<Token>,
    spec_tokens: Ghost<Seq<TokenView>>,
}

impl<'src> Parser<'src> {
    /// The source bytes.
    pub closed spec fn bytes(&self) -> Seq<u8> {
        self.source@
    }

    /// The tokens of the source, as the lexer's specification gives them.
    pub closed spec fn token_views(&self) -> Seq<TokenView> {
        self.spec_tokens@
    }

    /// The index of the next token to read.
    pub closed spec fn position(&self) -> nat {
        self.idx as nat
    }

    /// No list is open.
    pub closed spec fn at_top(&self) -> bool {
        self.stack@.len() == 0
    }

    pub closed spec fn wf(&self) -> bool {
        &&& valid_utf8(self.source@)
        &&& tokens_ok(self.source@, self.spec_tokens@)
        &&& tokens_match(self.source@, self.tokens@, self.spec_tokens@)
        &&& self.idx < self.tokens@.len()
    }

    /// The lists open around the position, outermost first, by their `(` tokens.
    pub closed spec fn open_lists(&self) -> Seq<Token> {
        self.stack@
    }

    /// Both parsers read the same tokens of the same source.
    pub closed spec fn same_input(&self, other: &Self) -> bool {
        &&& self.tokens == other.tokens
        &&& self.source == other.source
        &&& self.spec_tokens == other.spec_tokens
    }

    /// The location of the outermost open list, if any.
    closed spec fn outer(&self) -> Option<Location> {
        if self.stack@.len() == 0 {
            None
        } else {
            Some(self.stack@[0].location)
        }
    }

    /// The token at the position.
    pub closed spec fn current_view(&self) -> TokenView {
        self.spec_tokens@[self.idx as int]
    }

    /// Lexes `source` and makes a parser at its first token.
    pub fn new(source: &'src str) -> (r: Result<Self, ParseError>)
        requires
            source.spec_bytes().len() < u32::MAX,
        ensures
            match lex(source.spec_bytes()) {
                Ok(ts) => r matches Ok(p) && {
                    &&& p.wf()
                    &&& p.bytes() == source.spec_bytes()
                    &&& p.token_views() == ts
                    &&& p.position() == 0
                    &&& p.at_top()
                },
                Err(e) => r matches Err(err) && err@ == e,
            },
    {
        let mut lexer = Lexer::new(source);
        match lexer.collect() {
            Ok(tokens) => {
                let ghost b = source.spec_bytes();
                let ghost ts = lex(b)->Ok_0;
                proof {
                    lemma_lex_from_ok(b, 0);
                    encode_utf8_valid_utf8(source@);
                }
                Ok(
                    Parser {
                        tokens,
                        source: source.as_bytes(),
                        idx: 0,
                        stack: Vec::new(),
                        spec_tokens: Ghost(ts),
                    },
                )
            },
            Err(e) => Err(e),
        }
    }

    /// All the top-level forms up to the end of input, or the first error.
    pub fn parse(&mut self) -> (r: Result<Vec<Model>, ParseError>)
        requires
            old(self).wf(),
            old(self).at_top(),
        ensures
            match parse_forms_at(old(self).bytes(), old(self).token_views(), old(self).position()) {
                Ok(ms) => r matches Ok(v) && views(v@) == ms,
                Err(e) => r matches Err(err) && err@ == e,
            },
            old(self).position() == 0 && lex(old(self).bytes()) == Ok::<Seq<TokenView>, ErrorView>(
                old(self).token_views(),
            ) ==> parse_outcome(old(self).bytes(), r),
    {
        let ghost b = self.source@;
        let ghost ts = self.spec_tokens@;
        let ghost i0 = self.idx as nat;
        let mut exprs: Vec<Model> = Vec::new();
        while !self.is_at_end()
            invariant
                self.wf(),
                self.source@ == b,
                self.spec_tokens@ == ts,
                b == old(self).source@,
                ts == old(self).spec_tokens@,
                i0 == old(self).idx,
                self.stack@.len() == 0,
                match parse_forms_at(b, ts, self.idx as nat) {
                    Ok(rest) => parse_forms_at(b, ts, i0) == Ok::<Seq<ModelView>, ErrorView>(
                        views(exprs@) + rest,
                    ),
                    Err(e) => parse_forms_at(b, ts, i0) == Err::<Seq<ModelView>, ErrorView>(e),
                },
            decreases self.tokens@.len() - self.idx,
        {
            let ghost i = self.idx as nat;
            proof {
                lemma_parse_advances(b, ts, i);
                assert(consumes(parse_expr_at(b, ts, i, None), i, ts.len()));
            }
            match self.parse_expr() {
                Ok(m) => {
                    let ghost prev = exprs@;
                    exprs.push(m);
                    proof {
                        assert(views(exprs@) =~= views(prev).push(m@));
                        if let Ok(rest) = parse_forms_at(b, ts, self.idx as nat) {
                            assert(views(prev) + (seq![m@] + rest) =~= views(exprs@) + rest);
                        }
                    }
                },
                Err(e) => {
                    return Err(e);
                },
            }
        }
        proof {
            assert(views(exprs@) + seq![] =~= views(exprs@));
        }
        Ok(exprs)
    }

    fn is_at_end(&self) -> (r: bool)
        requires
            self.wf(),
        ensures
            r == (self.current_view().kind == TokenKind::Eof),
    {
        self.current_token().kind == TokenKind::Eof
    }

    fn current_token(&self) -> (r: Token)
        requires
            self.wf(),
        ensures
            r == self.tokens@[self.idx as int],
            r.matches(self.source@, self.current_view()),
    {
        self.tokens[self.idx]
    }

    fn advance(&mut self) -> (r: Token)
        requires
            old(self).wf(),
            old(self).current_view().kind != TokenKind::Eof,
        ensures
            final(self).wf(),
            final(self).same_input(old(self)),
            final(self).stack == old(self).stack,
            final(self).idx == old(self).idx + 1,
            r.matches(old(self).source@, old(self).current_view()),
    {
        let token = self.current_token();
        let count = self.tokens.len();
        proof {
            // Eof stands last and only there, so a token other than Eof has a successor.
            let ts = self.spec_tokens@;
            if self.idx + 1 == count {
                assert(ts[self.idx as int] == ts.last());
            }
        }
        self.idx = self.idx + 1;
        token
    }

    /// Consumes the next token where it is of kind `expected`.
    fn expect(&mut self, expected: TokenKind) -> (r: Result<Token, ParseError>)
        requires
            old(self).wf(),
            expected != TokenKind::Eof,
        ensures
            final(self).wf(),
            final(self).same_input(old(self)),
            final(self).stack == old(self).stack,
            ({
                let t = old(self).current_view();
                let here = location_of(old(self).source@, t.start, t.end);
                if t.kind == expected {
                    &&& r matches Ok(tok)
                    &&& tok.matches(old(self).source@, t)
                    &&& final(self).idx == old(self).idx + 1
                } else if t.kind == TokenKind::Eof {
                    r matches Err(e) && e@ == ErrorView::UnexpectedEof {
                        expected: kind_name(expected),
                        location: here,
                    }
                } else {
                    r matches Err(e) && e@ == ErrorView::UnexpectedToken {
                        expected: kind_name(expected),
                        found: t.kind,
                        location: here,
                    }
                }
            }),
            r is Err ==> final(self).idx == old(self).idx,
    {
        let token = self.current_token();
        if token.kind == expected {
            Ok(self.advance())
        } else if token.kind == TokenKind::Eof {
            Err(
                ParseError::UnexpectedEof {
                    expected: String::from_str(kind_label(expected)),
                    location: token.location,
                },
            )
        } else {
            Err(
                ParseError::UnexpectedToken {
                    expected: String::from_str(kind_label(expected)),
                    found: token.kind,
                    location: token.location,
                },
            )
        }
    }

    /// The expression at the next token.
    fn parse_expr(&mut self) -> (r: Result<Model, ParseError>)
        requires
            old(self).wf(),
        ensures
            final(self).wf(),
            final(self).same_input(old(self)),
            match parse_expr_at(
                old(self).source@,
                old(self).spec_tokens@,
                old(self).idx as nat,
                old(self).outer(),
            ) {
                Ok((m, j)) => r matches Ok(v) && {
                    &&& v@ == m
                    &&& final(self).idx == j
                    &&& final(self).stack@ == old(self).stack@
                },
                Err(e) => r matches Err(err) && err@ == e,
            },
            !starts_expression(old(self).current_view().kind) ==> final(self).idx == old(self).idx
                && final(self).stack == old(self).stack,
        decreases old(self).spec_tokens@.len() - old(self).idx, 2nat,
    {
        let token = self.current_token();
        match token.kind {
            TokenKind::Number => self.parse_number(),
            TokenKind::String => self.parse_string(),
            TokenKind::Symbol => self.parse_symbol(),
            TokenKind::LParen => self.parse_list(),
            TokenKind::Quote => self.parse_quote(),
            TokenKind::Eof => Err(
                ParseError::UnexpectedEof {
                    expected: String::from_str("expression"),
                    location: token.location,
                },
            ),
            _ => Err(
                ParseError::UnexpectedToken {
                    expected: String::from_str("expression"),
                    found: token.kind,
                    location: token.location,
                },
            ),
        }
    }

    pub fn parse_number(&mut self) -> (r: Result<Model, ParseError>)
        requires
            old(self).wf(),
            old(self).current_view().kind == TokenKind::Number,
        ensures
            final(self).wf(),
            final(self).same_input(old(self)),
            final(self).open_lists() == old(self).open_lists(),
            final(self).position() == old(self).position() + 1,
            match number_model(old(self).bytes(), old(self).current_view()) {
                Ok(m) => r matches Ok(v) && v@ == m,
                Err(e) => r matches Err(err) && err@ == e,
            },
    {
        let ghost t = self.current_view();
        let ghost b = self.source@;
        let token = self.advance();
        let text = token.text(self.source);
        proof {
            assert(token_ok(b, t));
            assert(all_ascii(text@)) by {
                assert forall|k: int| 0 <= k < text@.len() implies #[trigger] text@[k] < 128 by {
                    assert(text@[k] == b[t.start + k]);
                }
            }
            lemma_ascii_valid(text@);
        }
        let mut has_dot = false;
        let mut k: usize = 0;
        while k < text.len()
            invariant
                k <= text@.len(),
                has_dot == (exists|m: int| 0 <= m < k && text@[m] == DOT),
            decreases text@.len() - k,
        {
            if text[k] == DOT {
                has_dot = true;
            }
            k = k + 1;
        }
        if has_dot {
            Ok(Model::Float(utf8_string(text.as_slice())))
        } else {
            proof {
                assert forall|m: int| 0 <= m < text@.len() implies is_digit_byte(
                    #[trigger] text@[m],
                ) by {
                    assert(text@[m] == b[t.start + m]);
                }
            }
            match parse_decimal(text.as_slice()) {
                Some(n) => Ok(Model::Int(n)),
                None => Err(
                    ParseError::InvalidNumber {
                        text: utf8_string(text.as_slice()),
                        location: token.location,
                    },
                ),
            }
        }
    }

    pub fn parse_string(&mut self) -> (r: Result<Model, ParseError>)
        requires
            old(self).wf(),
            old(self).current_view().kind == TokenKind::String,
        ensures
            final(self).wf(),
            final(self).same_input(old(self)),
            final(self).open_lists() == old(self).open_lists(),
            final(self).position() == old(self).position() + 1,
            match string_model(old(self).bytes(), old(self).current_view()) {
                Ok(m) => r matches Ok(v) && v@ == m,
                Err(e) => r matches Err(err) && err@ == e,
            },
    {
        let ghost t = self.current_view();
        let ghost b = self.source@;
        let token = self.advance();
        proof {
            assert(token_ok(b, t));
        }
        if token.span.end - token.span.start < 2 {
            return Err(ParseError::UnterminatedString { location: token.location });
        }
        let content = copy_span(self.source, token.span.start + 1, token.span.end - 1);
        proof {
            lemma_valid_between_quotes(b, t.start as int, t.end - 1);
        }
        Ok(Model::String(utf8_string(content.as_slice())))
    }

    pub fn parse_symbol(&mut self) -> (r: Result<Model, ParseError>)
        requires
            old(self).wf(),
            old(self).current_view().kind == TokenKind::Symbol,
        ensures
            final(self).wf(),
            final(self).same_input(old(self)),
            final(self).open_lists() == old(self).open_lists(),
            final(self).position() == old(self).position() + 1,
            r matches Ok(v) && v@ == symbol_model(
                old(self).bytes().subrange(
                    old(self).current_view().start as int,
                    old(self).current_view().end as int,
                ),
            ),
    {
        let ghost t = self.current_view();
        let ghost b = self.source@;
        let token = self.advance();
        let text = token.text(self.source);
        proof {
            assert(token_ok(b, t));
        }
        if text.len() == 2 && text[0] == 35 && text[1] == 116 {
            assert(text@ =~= seq![35u8, 116u8]);
            Ok(Model::Bool(true))
        } else if text.len() == 2 && text[0] == 35 && text[1] == 102 {
            assert(text@ =~= seq![35u8, 102u8]);
            Ok(Model::Bool(false))
        } else if text.len() == 4 && text[0] == 110 && text[1] == 117 && text[2] == 108 && text[3]
            == 108 {
            assert(text@ =~= seq![110u8, 117u8, 108u8, 108u8]);
            Ok(Model::Null)
        } else {
            proof {
                assert(text@ != seq![35u8, 116u8]);
                assert(text@ != seq![35u8, 102u8]);
                assert(text@ != seq![110u8, 117u8, 108u8, 108u8]);
                assert(all_ascii(text@)) by {
                    assert forall|k: int| 0 <= k < text@.len() implies #[trigger] text@[k] < 128 by {
                        assert(text@[k] == b[t.start + k]);
                        assert(is_symbol_byte(b[t.start + k]));
                    }
                }
                lemma_ascii_valid(text@);
            }
            Ok(Model::Symbol(utf8_string(text.as_slice())))
        }
    }

    /// A list: its elements up to the matching `)`, as a chain of pairs.
    fn parse_list(&mut self) -> (r: Result<Model, ParseError>)
        requires
            old(self).wf(),
            old(self).current_view().kind == TokenKind::LParen,
        ensures
            final(self).wf(),
            final(self).same_input(old(self)),
            match parse_expr_at(
                old(self).source@,
                old(self).spec_tokens@,
                old(self).idx as nat,
                old(self).outer(),
            ) {
                Ok((m, j)) => r matches Ok(v) && {
                    &&& v@ == m
                    &&& final(self).idx == j
                    &&& final(self).stack@ == old(self).stack@
                },
                Err(e) => r matches Err(err) && err@ == e,
            },
        decreases old(self).spec_tokens@.len() - old(self).idx, 1nat,
    {
        let ghost b = self.source@;
        let ghost ts = self.spec_tokens@;
        let ghost i0 = self.idx as nat;
        let ghost stack0 = self.stack@;
        let ghost t0 = self.current_view();
        let ghost outer = match self.outer() {
            Some(l) => l,
            None => location_of(b, t0.start, t0.end),
        };
        let open_paren = match self.expect(TokenKind::LParen) {
            Ok(t) => t,
            Err(e) => {
                return Err(e);
            },
        };
        self.stack.push(open_paren);
        assert(self.stack@[0].location == outer);
        let mut elements: Vec<Model> = Vec::new();
        while self.current_token().kind != TokenKind::RParen && self.current_token().kind
            != TokenKind::Eof
            invariant
                self.wf(),
                self.source@ == b,
                self.spec_tokens@ == ts,
                self.tokens == old(self).tokens,
                self.source == old(self).source,
                self.spec_tokens == old(self).spec_tokens,
                b == old(self).source@,
                ts == old(self).spec_tokens@,
                i0 == old(self).idx,
                i0 < self.idx,
                t0 == ts[i0 as int],
                t0.kind == TokenKind::LParen,
                outer == (match old(self).outer() {
                    Some(l) => l,
                    None => location_of(b, t0.start, t0.end),
                }),
                stack0 == old(self).stack@,
                self.stack@ == stack0.push(open_paren),
                self.stack@[0].location == outer,
                match parse_items_at(b, ts, self.idx as nat, outer) {
                    Ok((m, k)) => parse_items_at(b, ts, i0 + 1, outer) == Ok::<
                        (ModelView, nat),
                        ErrorView,
                    >((cons_all(views(elements@), m), k)),
                    Err(e) => parse_items_at(b, ts, i0 + 1, outer) == Err::<
                        (ModelView, nat),
                        ErrorView,
                    >(e),
                },
            decreases self.tokens@.len() - self.idx,
        {
            let ghost i = self.idx as nat;
            proof {
                lemma_parse_advances(b, ts, i);
                assert(consumes(parse_expr_at(b, ts, i, Some(outer)), i, ts.len()));
            }
            match self.parse_expr() {
                Ok(m) => {
                    let ghost prev = elements@;
                    elements.push(m);
                    proof {
                        assert(views(elements@) =~= views(prev).push(m@));
                        if let Ok((rest, k)) = parse_items_at(b, ts, self.idx as nat, outer) {
                            lemma_cons_all_push(views(prev), m@, rest);
                        }
                    }
                },
                Err(e) => {
                    return Err(e);
                },
            }
        }
        if self.current_token().kind == TokenKind::Eof {
            return Err(ParseError::UnmatchedParen { location: self.stack[0].location });
        }
        match self.expect(TokenKind::RParen) {
            Ok(_) => {},
            Err(e) => {
                return Err(e);
            },
        }
        self.stack.pop();
        assert(self.stack@ =~= stack0);
        let ghost evs = views(elements@);
        let mut result = Model::Null;
        while elements.len() > 0
            invariant
                evs.len() >= elements@.len(),
                views(elements@) == evs.subrange(0, elements@.len() as int),
                result@ == cons_all(evs.subrange(elements@.len() as int, evs.len() as int), ModelView::Null),
            decreases elements@.len(),
        {
            let ghost n = elements@.len() as int;
            let ghost prev = elements@;
            let last = elements.pop().unwrap();
            proof {
                assert(views(elements@) =~= evs.subrange(0, n - 1)) by {
                    assert forall|k: int| 0 <= k < n - 1 implies views(elements@)[k] == evs[k] by {
                        assert(views(prev)[k] == evs[k]);
                    }
                }
                assert(last@ == evs[n - 1]) by {
                    assert(views(prev)[n - 1] == evs[n - 1]);
                }
                let tail = evs.subrange(n - 1, evs.len() as int);
                assert(tail.drop_first() =~= evs.subrange(n, evs.len() as int));
            }
            result = Model::Pair(Box::new(last), Box::new(result));
        }
        assert(evs.subrange(0, evs.len() as int) =~= evs);
        Ok(result)
    }

    /// `'x`, read as `(quote x)`.
    fn parse_quote(&mut self) -> (r: Result<Model, ParseError>)
        requires
            old(self).wf(),
            old(self).current_view().kind == TokenKind::Quote,
        ensures
            final(self).wf(),
            final(self).same_input(old(self)),
            match parse_expr_at(
                old(self).source@,
                old(self).spec_tokens@,
                old(self).idx as nat,
                old(self).outer(),
            ) {
                Ok((m, j)) => r matches Ok(v) && {
                    &&& v@ == m
                    &&& final(self).idx == j
                    &&& final(self).stack@ == old(self).stack@
                },
                Err(e) => r matches Err(err) && err@ == e,
            },
        decreases old(self).spec_tokens@.len() - old(self).idx, 1nat,
    {
        self.advance();
        let expr = match self.parse_expr() {
            Ok(x) => x,
            Err(e) => {
                return Err(e);
            },
        };
        let name: Vec<u8> = vec![113u8, 117u8, 111u8, 116u8, 101u8];
        proof {
            assert(name@ =~= quote_bytes());
            assert(all_ascii(name@));
            lemma_ascii_valid(name@);
        }
        let quote_symbol = Model::Symbol(utf8_string(name.as_slice()));
        let null = Model::Null;
        assert(null@ == ModelView::Null);
        let quoted_expr = Model::Pair(Box::new(expr), Box::new(null));
        assert(quote_symbol@ == ModelView::Symbol(quote_bytes()));
        assert(quoted_expr@ == ModelView::Pair(Box::new(expr@), Box::new(ModelView::Null)));
        Ok(Model::Pair(Box::new(quote_symbol), Box::new(quoted_expr)))
    }
}

/// Reads all the top-level forms of `source`, in order, or fails with the
/// first lexical or syntax error.
pub fn parse(source: &str) -> (r: Result<Vec<Model>, ParseError>)
    requires
        source.spec_bytes().len() < u32::MAX,
    ensures
        parse_outcome(source.spec_bytes(), r),
{
    let mut parser = match Parser::new(source) {
        Ok(p) => p,
        Err(e) => {
            return Err(e);
        },
    };
    parser.parse()
}

} // verus!
