//! Comments are transparent: a line comment put in at the start of a source,
//! or just before any of its tokens, changes nothing in what it reads as.
use vstd::prelude::*;

use crate::error::ErrorView;
use crate::lexer::{
    comment_end, is_space_byte, lemma_lex_from_ok, lemma_lex_from_ordered, token_ok, tokens_ok, digits_end, lemma_next_token, lemma_scan_ends, lemma_trivia_end, lex, lex_from,
    next_token, number_end, scan_token, string_close, symbol_end, trivia_end, Location, TokenKind,
    TokenView, NEWLINE, SEMICOLON,
};
use crate::model::ModelView;
use crate::parser::{
    lemma_parse_advances, number_model, parse_expr_at, parse_forms_at, parse_items_at,
    parse_source, string_model, symbol_model,
};

verus! {

/// `s` is `b` with `n` more bytes in front.
pub open spec fn shifted(s: Seq<u8>, b: Seq<u8>, n: nat) -> bool {
    &&& s.len() == n + b.len()
    &&& forall|k: int| 0 <= k < b.len() ==> #[trigger] b[k] == s[n + k]
}

proof fn lemma_shift_runs(s: Seq<u8>, b: Seq<u8>, n: nat, i: nat)
    requires
        shifted(s, b, n),
        i <= b.len(),
    ensures
        comment_end(s, n + i) == n + comment_end(b, i),
        digits_end(s, n + i) == n + digits_end(b, i),
        symbol_end(s, n + i) == n + symbol_end(b, i),
        string_close(s, n + i) == n + string_close(b, i),
        number_end(s, n + i) == n + number_end(b, i),
    decreases b.len() - i,
{
    if i < b.len() {
        assert(s[(n + i) as int] == b[i as int]);
        lemma_shift_runs(s, b, n, i + 1);
        lemma_scan_ends(b, i);
        let j = digits_end(b, i);
        if j < b.len() {
            assert(s[(n + j) as int] == b[j as int]);
            lemma_shift_runs(s, b, n, j + 1);
        }
    }
}

proof fn lemma_shift_trivia(s: Seq<u8>, b: Seq<u8>, n: nat, i: nat)
    requires
        shifted(s, b, n),
        i <= b.len(),
    ensures
        trivia_end(s, n + i) == n + trivia_end(b, i),
    decreases b.len() - i,
{
    if i < b.len() {
        assert(s[(n + i) as int] == b[i as int]);
        lemma_shift_trivia(s, b, n, i + 1);
        lemma_shift_runs(s, b, n, i + 1);
        lemma_scan_ends(b, i + 1);
        if b[i as int] == SEMICOLON {
            lemma_shift_trivia(s, b, n, comment_end(b, i + 1));
        }
    }
}

/// Two lexer outcomes that agree but for where things are in the source: the
/// same token kinds at spans shifted by `n`, or both an error.
pub open spec fn lex_agree(r1: Result<Seq<TokenView>, ErrorView>, r2: Result<Seq<TokenView>, ErrorView>, n: nat) -> bool {
    match (r1, r2) {
        (Ok(ts1), Ok(ts2)) => ts1.len() == ts2.len() && forall|k: int|
            0 <= k < ts1.len() ==> {
                &&& (#[trigger] ts1[k]).kind == ts2[k].kind
                &&& ts1[k].start == n + ts2[k].start
                &&& ts1[k].end == n + ts2[k].end
            },
        (Err(_), Err(_)) => true,
        _ => false,
    }
}

proof fn lemma_shift_lex(s: Seq<u8>, b: Seq<u8>, n: nat, i: nat)
    requires
        shifted(s, b, n),
        i <= b.len(),
    ensures
        lex_agree(lex_from(s, n + i), lex_from(b, i), n),
    decreases b.len() - i,
{
    lemma_shift_trivia(s, b, n, i);
    lemma_trivia_end(b, i);
    let t = trivia_end(b, i);
    if t < b.len() {
        assert(s[(n + t) as int] == b[t as int]);
        lemma_shift_runs(s, b, n, t + 1);
    }
    lemma_next_token(b, i);
    match next_token(b, i) {
        Ok(tb) => {
            let ts = next_token(s, n + i)->Ok_0;
            assert(next_token(s, n + i) is Ok);
            assert(ts.kind == tb.kind && ts.start == n + tb.start && ts.end == n + tb.end);
            if tb.kind != TokenKind::Eof {
                lemma_shift_lex(s, b, n, tb.end);
                match (lex_from(s, n + tb.end), lex_from(b, tb.end)) {
                    (Ok(r1), Ok(r2)) => {
                        let a1 = seq![ts] + r1;
                        let a2 = seq![tb] + r2;
                        assert forall|k: int| 0 <= k < a1.len() implies {
                            &&& (#[trigger] a1[k]).kind == a2[k].kind
                            &&& a1[k].start == n + a2[k].start
                            &&& a1[k].end == n + a2[k].end
                        } by {
                            if k > 0 {
                                assert(a1[k] == r1[k - 1]);
                                assert(a2[k] == r2[k - 1]);
                            }
                        }
                    },
                    _ => {},
                }
            }
        },
        Err(_) => {
            assert(next_token(s, n + i) is Err);
        },
    }
}

/// Two parses that agree: the same value at the same token index, or both an error.
pub open spec fn parse_agree(r1: Result<(ModelView, nat), ErrorView>, r2: Result<(ModelView, nat), ErrorView>) -> bool {
    match (r1, r2) {
        (Ok(a), Ok(b)) => a == b,
        (Err(_), Err(_)) => true,
        _ => false,
    }
}

/// Token streams of two sources that agree token by token: the same kinds,
/// and the same text under each token.
pub open spec fn texts_agree(s: Seq<u8>, ts1: Seq<TokenView>, b: Seq<u8>, ts2: Seq<TokenView>) -> bool {
    &&& ts1.len() == ts2.len()
    &&& forall|k: int|
        0 <= k < ts1.len() ==> {
            &&& (#[trigger] ts1[k]).kind == ts2[k].kind
            &&& ts1[k].start <= ts1[k].end <= s.len()
            &&& s.subrange(ts1[k].start as int, ts1[k].end as int) == b.subrange(
                ts2[k].start as int,
                ts2[k].end as int,
            )
        }
}

proof fn lemma_shift_texts(s: Seq<u8>, b: Seq<u8>, n: nat, ts1: Seq<TokenView>, ts2: Seq<TokenView>)
    requires
        shifted(s, b, n),
        tokens_ok(b, ts2),
        lex_agree(Ok(ts1), Ok(ts2), n),
    ensures
        texts_agree(s, ts1, b, ts2),
{
    assert forall|k: int| 0 <= k < ts1.len() implies {
        &&& (#[trigger] ts1[k]).kind == ts2[k].kind
        &&& ts1[k].start <= ts1[k].end <= s.len()
        &&& s.subrange(ts1[k].start as int, ts1[k].end as int) == b.subrange(
            ts2[k].start as int,
            ts2[k].end as int,
        )
    } by {
        assert(token_ok(b, ts2[k]));
        assert(s.subrange(ts1[k].start as int, ts1[k].end as int) =~= b.subrange(
            ts2[k].start as int,
            ts2[k].end as int,
        ));
    }
}

proof fn lemma_agree_token(s: Seq<u8>, b: Seq<u8>, t1: TokenView, t2: TokenView)
    requires
        token_ok(b, t2),
        t1.kind == t2.kind,
        t1.start <= t1.end <= s.len(),
        s.subrange(t1.start as int, t1.end as int) == b.subrange(t2.start as int, t2.end as int),
    ensures
        s.subrange(t1.start as int, t1.end as int) == b.subrange(t2.start as int, t2.end as int),
        t2.start + 2 <= t2.end ==> s.subrange(t1.start + 1 as int, t1.end - 1 as int) == b.subrange(
            t2.start + 1 as int,
            t2.end - 1 as int,
        ),
        number_model(s, t1) is Ok <==> number_model(b, t2) is Ok,
        number_model(s, t1) is Ok ==> number_model(s, t1) == number_model(b, t2),
        string_model(s, t1) is Ok <==> string_model(b, t2) is Ok,
        string_model(s, t1) is Ok ==> string_model(s, t1) == string_model(b, t2),
{
    let w1 = s.subrange(t1.start as int, t1.end as int);
    let w2 = b.subrange(t2.start as int, t2.end as int);
    assert(w1.len() == w2.len());
    if t2.start + 2 <= t2.end {
        assert(s.subrange(t1.start + 1 as int, t1.end - 1 as int) =~= w1.subrange(
            1,
            w1.len() - 1,
        ));
        assert(b.subrange(t2.start + 1 as int, t2.end - 1 as int) =~= w2.subrange(
            1,
            w2.len() - 1,
        ));
    }
}

proof fn lemma_parse_agree(
    s: Seq<u8>,
    b: Seq<u8>,
    ts1: Seq<TokenView>,
    ts2: Seq<TokenView>,
    i: nat,
)
    requires
        tokens_ok(b, ts2),
        texts_agree(s, ts1, b, ts2),
    ensures
        forall|o1: Option<Location>, o2: Option<Location>|
            parse_agree(
                #[trigger] parse_expr_at(s, ts1, i, o1),
                #[trigger] parse_expr_at(b, ts2, i, o2),
            ),
        forall|l1: Location, l2: Location|
            parse_agree(
                #[trigger] parse_items_at(s, ts1, i, l1),
                #[trigger] parse_items_at(b, ts2, i, l2),
            ),
    decreases ts2.len() - i,
{
    if i < ts2.len() {
        lemma_parse_agree(s, b, ts1, ts2, i + 1);
        let t1 = ts1[i as int];
        let t2 = ts2[i as int];
        assert(token_ok(b, t2));
        lemma_agree_token(s, b, t1, t2);
        assert forall|o1: Option<Location>, o2: Option<Location>|
            parse_agree(
                #[trigger] parse_expr_at(s, ts1, i, o1),
                #[trigger] parse_expr_at(b, ts2, i, o2),
            ) by {
            if t2.kind == TokenKind::LParen {
                let l1 = match o1 {
                    Some(l) => l,
                    None => crate::lexer::location_of(s, t1.start, t1.end),
                };
                let l2 = match o2 {
                    Some(l) => l,
                    None => crate::lexer::location_of(b, t2.start, t2.end),
                };
                assert(parse_agree(parse_items_at(s, ts1, i + 1, l1), parse_items_at(b, ts2, i + 1, l2)));
            } else if t2.kind == TokenKind::Quote {
                assert(parse_agree(parse_expr_at(s, ts1, i + 1, o1), parse_expr_at(b, ts2, i + 1, o2)));
            }
        }
        assert forall|l1: Location, l2: Location|
            parse_agree(
                #[trigger] parse_items_at(s, ts1, i, l1),
                #[trigger] parse_items_at(b, ts2, i, l2),
            ) by {
            if t2.kind != TokenKind::Eof && t2.kind != TokenKind::RParen {
                assert(parse_agree(parse_expr_at(s, ts1, i, Some(l1)), parse_expr_at(b, ts2, i, Some(l2))));
                lemma_parse_advances(b, ts2, i);
                assert(crate::parser::consumes(parse_expr_at(b, ts2, i, Some(l2)), i, ts2.len()));
                if let Ok((x, j)) = parse_expr_at(b, ts2, i, Some(l2)) {
                    lemma_parse_agree(s, b, ts1, ts2, j);
                    assert(parse_agree(parse_items_at(s, ts1, j, l1), parse_items_at(b, ts2, j, l2)));
                }
            }
        }
    }
}

/// Two readings of whole sources that agree: the same forms, or both an error.
pub open spec fn forms_agree(r1: Result<Seq<ModelView>, ErrorView>, r2: Result<Seq<ModelView>, ErrorView>) -> bool {
    match (r1, r2) {
        (Ok(a), Ok(b)) => a == b,
        (Err(_), Err(_)) => true,
        _ => false,
    }
}

proof fn lemma_forms_agree(
    s: Seq<u8>,
    b: Seq<u8>,
    ts1: Seq<TokenView>,
    ts2: Seq<TokenView>,
    i: nat,
)
    requires
        tokens_ok(b, ts2),
        texts_agree(s, ts1, b, ts2),
    ensures
        forms_agree(parse_forms_at(s, ts1, i), parse_forms_at(b, ts2, i)),
    decreases ts2.len() - i,
{
    if i < ts2.len() && ts2[i as int].kind != TokenKind::Eof {
        lemma_parse_agree(s, b, ts1, ts2, i);
        assert(parse_agree(parse_expr_at(s, ts1, i, None), parse_expr_at(b, ts2, i, None)));
        lemma_parse_advances(b, ts2, i);
        assert(crate::parser::consumes(parse_expr_at(b, ts2, i, None), i, ts2.len()));
        if let Ok((x, j)) = parse_expr_at(b, ts2, i, None) {
            lemma_forms_agree(s, b, ts1, ts2, j);
        }
    }
}

proof fn lemma_comment_runs_to_newline(s: Seq<u8>, n: nat, k: nat)
    requires
        2 <= n <= s.len(),
        1 <= k < n,
        s[n - 1] == NEWLINE,
        forall|m: int| 1 <= m < n - 1 ==> #[trigger] s[m] != NEWLINE,
    ensures
        comment_end(s, k) == n,
    decreases n - k,
{
    if k < n - 1 {
        lemma_comment_runs_to_newline(s, n, k + 1);
    }
}

/// A line comment in front of a source changes nothing in what it reads as:
/// the result is the same forms, or an error for both.
pub proof fn lemma_leading_comment(c: Seq<u8>, b: Seq<u8>)
    requires
        forall|k: int| 0 <= k < c.len() ==> #[trigger] c[k] != NEWLINE,
    ensures
        ({
            let s = seq![SEMICOLON] + c + seq![NEWLINE] + b;
            &&& parse_source(s) is Ok <==> parse_source(b) is Ok
            &&& parse_source(b) is Ok ==> parse_source(s) == parse_source(b)
        }),
{
    let s = seq![SEMICOLON] + c + seq![NEWLINE] + b;
    let n = c.len() + 2;
    assert(shifted(s, b, n)) by {
        assert forall|k: int| 0 <= k < b.len() implies #[trigger] b[k] == s[n + k] by {}
    }
    assert(s[0] == SEMICOLON);
    assert(s[n - 1] == NEWLINE);
    assert forall|m: int| 1 <= m < n - 1 implies #[trigger] s[m] != NEWLINE by {
        assert(s[m] == c[m - 1]);
    }
    lemma_comment_runs_to_newline(s, n, 1);
    assert(trivia_end(s, 0) == trivia_end(s, n));
    assert(next_token(s, 0) == next_token(s, n));
    assert(lex(s) == lex_from(s, n));
    lemma_shift_lex(s, b, n, 0);
    lemma_lex_from_ok(b, 0);
    if let (Ok(ts1), Ok(ts2)) = (lex(s), lex(b)) {
        lemma_shift_texts(s, b, n, ts1, ts2);
        lemma_forms_agree(s, b, ts1, ts2, 0);
    }
}

/// `s2` is `s` with a line comment of `n` bytes put in at position `a`, before
/// the end of `s`.
pub open spec fn comment_inserted(s: Seq<u8>, s2: Seq<u8>, a: nat, n: nat) -> bool {
    &&& a < s.len()
    &&& n >= 2
    &&& s2.len() == s.len() + n
    &&& forall|j: int| 0 <= j < a ==> #[trigger] s2[j] == s[j]
    &&& forall|j: int| a <= j < s.len() ==> #[trigger] s2[j + n] == s[j]
    &&& s2[a as int] == SEMICOLON
    &&& s2[a + n - 1] == NEWLINE
    &&& forall|j: int| a < j < a + n - 1 ==> #[trigger] s2[j] != NEWLINE
}

proof fn lemma_inserted_comment_end(s: Seq<u8>, s2: Seq<u8>, a: nat, n: nat, x: nat)
    requires
        comment_inserted(s, s2, a, n),
        a < x <= a + n - 1,
    ensures
        comment_end(s2, x) == a + n,
    decreases a + n - x,
{
    if x < a + n - 1 {
        lemma_inserted_comment_end(s, s2, a, n, x + 1);
    }
}

proof fn lemma_prefix_runs(s: Seq<u8>, s2: Seq<u8>, a: nat, n: nat, x: nat)
    requires
        comment_inserted(s, s2, a, n),
        x <= a,
    ensures
        comment_end(s, x) <= a ==> comment_end(s2, x) == comment_end(s, x),
        digits_end(s, x) <= a ==> digits_end(s2, x) == digits_end(s, x),
        symbol_end(s, x) <= a ==> symbol_end(s2, x) == symbol_end(s, x),
        string_close(s, x) < a ==> string_close(s2, x) == string_close(s, x),
    decreases a - x,
{
    lemma_scan_ends(s, x);
    lemma_scan_ends(s, x + 1);
    if x < a {
        assert(s2[x as int] == s[x as int]);
        lemma_prefix_runs(s, s2, a, n, x + 1);
    } else {
        assert(s2[a as int] == SEMICOLON);
    }
}

proof fn lemma_prefix_trivia(s: Seq<u8>, s2: Seq<u8>, a: nat, n: nat, j: nat)
    requires
        comment_inserted(s, s2, a, n),
        j <= trivia_end(s, j) <= a,
    ensures
        trivia_end(s, j) < a ==> trivia_end(s2, j) == trivia_end(s, j),
        trivia_end(s, j) == a ==> trivia_end(s2, j) == trivia_end(s2, a),
    decreases a - j,
{
    if j < a {
        assert(s2[j as int] == s[j as int]);
        if is_space_byte(s[j as int]) {
            lemma_trivia_end(s, j + 1);
            lemma_prefix_trivia(s, s2, a, n, j + 1);
        } else if s[j as int] == SEMICOLON {
            lemma_scan_ends(s, j + 1);
            let ce = comment_end(s, j + 1);
            lemma_trivia_end(s, ce);
            lemma_prefix_runs(s, s2, a, n, j + 1);
            lemma_prefix_trivia(s, s2, a, n, ce);
        }
    }
}

proof fn lemma_prefix_scan(s: Seq<u8>, s2: Seq<u8>, a: nat, n: nat, t: nat)
    requires
        comment_inserted(s, s2, a, n),
        t < a,
        scan_token(s, t) matches Ok(tok) && tok.end <= a,
    ensures
        scan_token(s2, t) == scan_token(s, t),
{
    assert(s2[t as int] == s[t as int]);
    lemma_scan_ends(s, t + 1);
    lemma_prefix_runs(s, s2, a, n, t + 1);
    let d = digits_end(s, t + 1);
    if d < a {
        assert(s2[d as int] == s[d as int]);
    }
    if crate::lexer::is_digit_byte(s[t as int]) && d < s.len() && s[d as int] == crate::lexer::DOT {
        lemma_scan_ends(s, d + 1);
        assert(d < a);
        assert(s2[d as int] == s[d as int]);
        lemma_prefix_runs(s, s2, a, n, d + 1);
    }
}

proof fn lemma_texts_from_shifts(
    s: Seq<u8>,
    s2: Seq<u8>,
    bb: Seq<u8>,
    ts: Seq<TokenView>,
    ts2: Seq<TokenView>,
    tsb: Seq<TokenView>,
)
    requires
        texts_agree(s, ts, bb, tsb),
        texts_agree(s2, ts2, bb, tsb),
    ensures
        texts_agree(s2, ts2, s, ts),
{
    assert forall|k: int| 0 <= k < ts2.len() implies {
        &&& (#[trigger] ts2[k]).kind == ts[k].kind
        &&& ts2[k].start <= ts2[k].end <= s2.len()
        &&& s2.subrange(ts2[k].start as int, ts2[k].end as int) == s.subrange(
            ts[k].start as int,
            ts[k].end as int,
        )
    } by {
        assert(ts[k].kind == tsb[k].kind);
    }
}

proof fn lemma_prefix_lex(s: Seq<u8>, s2: Seq<u8>, a: nat, n: nat, i: nat, k: int)
    requires
        comment_inserted(s, s2, a, n),
        i <= a,
        lex_from(s, i) is Ok,
        0 <= k < lex_from(s, i)->Ok_0.len(),
        lex_from(s, i)->Ok_0[k].start == a,
    ensures
        lex_from(s2, i) is Ok,
        texts_agree(s2, lex_from(s2, i)->Ok_0, s, lex_from(s, i)->Ok_0),
    decreases a - i,
{
    let ts = lex_from(s, i)->Ok_0;
    lemma_lex_from_ok(s, i);
    lemma_lex_from_ordered(s, i);
    lemma_next_token(s, i);
    lemma_trivia_end(s, i);
    let t = trivia_end(s, i);
    let tok = next_token(s, i)->Ok_0;
    assert(tok == ts[0]);
    assert forall|m: int| 0 <= m < ts.len() implies (#[trigger] ts[m]).start <= ts[m].end by {
        assert(token_ok(s, ts[m]));
    }
    crate::lexer::lemma_token_starts_ordered(ts, 0, k);
    if t == a {
        let bb = s.subrange(a as int, s.len() as int);
        assert(shifted(s, bb, a));
        assert(shifted(s2, bb, a + n)) by {
            assert forall|j: int| 0 <= j < bb.len() implies #[trigger] bb[j] == s2[(a + n) + j] by {
                assert(s2[(a + j) + n] == s[a + j]);
            }
        }
        lemma_prefix_trivia(s, s2, a, n, i);
        lemma_inserted_comment_end(s, s2, a, n, a + 1);
        assert(trivia_end(s2, a) == trivia_end(s2, a + n));
        assert(next_token(s2, i) == next_token(s2, a + n));
        assert(lex_from(s2, i) == lex_from(s2, a + n));
        lemma_trivia_end(s, a);
        assert(next_token(s, i) == next_token(s, a));
        assert(lex_from(s, i) == lex_from(s, a));
        lemma_shift_lex(s, bb, a, 0);
        lemma_shift_lex(s2, bb, a + n, 0);
        lemma_lex_from_ok(bb, 0);
        let tsb = lex_from(bb, 0)->Ok_0;
        let ts2 = lex_from(s2, a + n)->Ok_0;
        lemma_shift_texts(s, bb, a, ts, tsb);
        lemma_shift_texts(s2, bb, a + n, ts2, tsb);
        lemma_texts_from_shifts(s, s2, bb, ts, ts2, tsb);
    } else {
        assert(k > 0);
        assert(tok.end <= ts[1].start);
        crate::lexer::lemma_token_starts_ordered(ts, 1, k);
        lemma_prefix_trivia(s, s2, a, n, i);
        lemma_prefix_scan(s, s2, a, n, t);
        assert(next_token(s2, i) == next_token(s, i));
        let rest = lex_from(s, tok.end)->Ok_0;
        assert(ts == seq![tok] + rest);
        assert(rest[k - 1] == ts[k]);
        lemma_prefix_lex(s, s2, a, n, tok.end, k - 1);
        let rest2 = lex_from(s2, tok.end)->Ok_0;
        let ts2 = lex_from(s2, i)->Ok_0;
        assert(ts2 == seq![tok] + rest2);
        assert forall|m: int| 0 <= m < ts2.len() implies {
            &&& (#[trigger] ts2[m]).kind == ts[m].kind
            &&& ts2[m].start <= ts2[m].end <= s2.len()
            &&& s2.subrange(ts2[m].start as int, ts2[m].end as int) == s.subrange(
                ts[m].start as int,
                ts[m].end as int,
            )
        } by {
            if m == 0 {
                assert(s2.subrange(tok.start as int, tok.end as int) =~= s.subrange(
                    tok.start as int,
                    tok.end as int,
                ));
            } else {
                assert(ts2[m] == rest2[m - 1]);
                assert(ts[m] == rest[m - 1]);
            }
        }
    }
}

/// A line comment put in just before any token of a source but `Eof` changes
/// nothing in what it reads as: the same tokens, by kind and by text, and the
/// same forms, or an error for both.
pub proof fn lemma_inserted_comment(a: Seq<u8>, c: Seq<u8>, b: Seq<u8>, k: int)
    requires
        forall|j: int| 0 <= j < c.len() ==> #[trigger] c[j] != NEWLINE,
        b.len() > 0,
        lex(a + b) is Ok,
        0 <= k < lex(a + b)->Ok_0.len(),
        lex(a + b)->Ok_0[k].start == a.len(),
    ensures
        ({
            let s = a + b;
            let s2 = a + seq![SEMICOLON] + c + seq![NEWLINE] + b;
            &&& lex(s2) is Ok
            &&& texts_agree(s2, lex(s2)->Ok_0, s, lex(s)->Ok_0)
            &&& parse_source(s2) is Ok <==> parse_source(s) is Ok
            &&& parse_source(s) is Ok ==> parse_source(s2) == parse_source(s)
        }),
{
    let s = a + b;
    let s2 = a + seq![SEMICOLON] + c + seq![NEWLINE] + b;
    let n = c.len() + 2;
    let x = a.len();
    assert(comment_inserted(s, s2, x, n)) by {
        assert forall|j: int| 0 <= j < x implies #[trigger] s2[j] == s[j] by {}
        assert forall|j: int| x <= j < s.len() implies #[trigger] s2[j + n] == s[j] by {}
        assert forall|j: int| x < j < x + n - 1 implies #[trigger] s2[j] != NEWLINE by {
            assert(s2[j] == c[j - x - 1]);
        }
    }
    lemma_prefix_lex(s, s2, x, n, 0, k);
    lemma_lex_from_ok(s, 0);
    lemma_forms_agree(s2, s, lex(s2)->Ok_0, lex(s)->Ok_0, 0);
}

} // verus!
