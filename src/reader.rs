//! A character-level reader: symbols and numbers, and lists of them, each
//! expression with the line and column where it starts.
use vstd::prelude::*;
use vstd::string::StrSliceExecFns;

use crate::ast::{forms_of, form_of, pos_of, Expression, Form, Program};
use crate::pos::Pos;

verus! {

/// Whether `c` is alphabetic or numeric in Unicode's sense.
pub uninterp spec fn is_alnum(c: char) -> bool;

/// Relies on `char::is_alphanumeric`: its answer depends on the character alone.
#[verifier::external_body]
fn alphanumeric(c: char) -> (r: bool)
    ensures
        r == is_alnum(c),
{
    c.is_alphanumeric()
}

/// Unicode's `White_Space` characters.
pub open spec fn is_white(c: char) -> bool {
    ('\u{9}' <= c <= '\u{d}') || c == ' ' || c == '\u{85}' || c == '\u{a0}' || c == '\u{1680}'
        || ('\u{2000}' <= c <= '\u{200a}') || c == '\u{2028}' || c == '\u{2029}' || c
        == '\u{202f}' || c == '\u{205f}' || c == '\u{3000}'
}

fn white(c: char) -> (r: bool)
    ensures
        r == is_white(c),
{
    ('\u{9}' <= c && c <= '\u{d}') || c == ' ' || c == '\u{85}' || c == '\u{a0}' || c == '\u{1680}'
        || ('\u{2000}' <= c && c <= '\u{200a}') || c == '\u{2028}' || c == '\u{2029}' || c
        == '\u{202f}' || c == '\u{205f}' || c == '\u{3000}'
}

pub open spec fn is_decimal_digit(c: char) -> bool {
    '0' <= c <= '9'
}

/// The punctuation that symbols may hold besides letters and digits.
pub open spec fn is_symbol_punct(c: char) -> bool {
    c == '!' || c == '?' || c == '+' || c == '-' || c == '*' || c == '/' || c == '=' || c == '<'
        || c == '>' || c == '&' || c == '|' || c == '%'
}

pub open spec fn is_symbol_char_spec(c: char) -> bool {
    is_alnum(c) || is_symbol_punct(c)
}

pub fn is_symbol_char(c: char) -> (r: bool)
    ensures
        r == is_symbol_char_spec(c),
{
    alphanumeric(c) || c == '!' || c == '?' || c == '+' || c == '-' || c == '*' || c == '/' || c
        == '=' || c == '<' || c == '>' || c == '&' || c == '|' || c == '%'
}

/// The line after the first `i` characters.
pub open spec fn char_line(cs: Seq<char>, i: nat) -> nat
    decreases i,
{
    if i == 0 {
        1
    } else if cs[i - 1] == '\n' {
        char_line(cs, (i - 1) as nat) + 1
    } else {
        char_line(cs, (i - 1) as nat)
    }
}

/// The column after the first `i` characters.
pub open spec fn char_column(cs: Seq<char>, i: nat) -> nat
    decreases i,
{
    if i == 0 {
        1
    } else if cs[i - 1] == '\n' {
        1
    } else {
        char_column(cs, (i - 1) as nat) + 1
    }
}

pub proof fn lemma_char_position_bounds(cs: Seq<char>, i: nat)
    ensures
        1 <= char_line(cs, i) <= i + 1,
        1 <= char_column(cs, i) <= i + 1,
    decreases i,
{
    if i > 0 {
        lemma_char_position_bounds(cs, (i - 1) as nat);
    }
}

pub open spec fn pos_at(cs: Seq<char>, i: nat) -> Pos {
    Pos { line: char_line(cs, i) as usize, column: char_column(cs, i) as usize }
}

/// The first position at or after `i` that holds no whitespace.
pub open spec fn space_end(cs: Seq<char>, i: nat) -> nat
    decreases cs.len() - i,
{
    if i < cs.len() && is_white(cs[i as int]) {
        space_end(cs, i + 1)
    } else {
        i
    }
}

/// The first position at or after `i` that holds no symbol character.
pub open spec fn symbol_run_end(cs: Seq<char>, i: nat) -> nat
    decreases cs.len() - i,
{
    if i < cs.len() && is_symbol_char_spec(cs[i as int]) {
        symbol_run_end(cs, i + 1)
    } else {
        i
    }
}

/// The first position at or after `i` that holds no decimal digit.
pub open spec fn digit_run_end(cs: Seq<char>, i: nat) -> nat
    decreases cs.len() - i,
{
    if i < cs.len() && is_decimal_digit(cs[i as int]) {
        digit_run_end(cs, i + 1)
    } else {
        i
    }
}

/// The end of a number from `i`: digits, then optionally a dot and digits.
pub open spec fn number_run_end(cs: Seq<char>, i: nat) -> nat {
    let j = digit_run_end(cs, i);
    if j < cs.len() && cs[j as int] == '.' {
        digit_run_end(cs, j + 1)
    } else {
        j
    }
}

pub proof fn lemma_run_ends(cs: Seq<char>, i: nat)
    ensures
        i <= space_end(cs, i),
        i <= symbol_run_end(cs, i),
        i <= digit_run_end(cs, i),
        i <= number_run_end(cs, i),
        i <= cs.len() ==> space_end(cs, i) <= cs.len() && symbol_run_end(cs, i) <= cs.len()
            && digit_run_end(cs, i) <= cs.len() && number_run_end(cs, i) <= cs.len(),
        space_end(cs, i) < cs.len() ==> !is_white(cs[space_end(cs, i) as int]),
    decreases cs.len() - i,
{
    if i < cs.len() {
        lemma_run_ends(cs, i + 1);
        let j = digit_run_end(cs, i);
        if j < cs.len() {
            lemma_run_ends(cs, j + 1);
        }
    }
}

/// Why reading failed, and where.
#[derive(Debug, Clone, Copy, PartialEq, Eq, Structural)]
pub enum ReadError {
    /// A `)` with no list open.
    UnexpectedClose(Pos),
    /// A character that starts no expression.
    InvalidExpression(Pos),
    /// The input ended where an expression was expected.
    UnexpectedEof(Pos),
}

/// `x` put in front of the items of the list `f`.
pub open spec fn prepend(x: Form, f: Form) -> Form {
    match f {
        Form::List(items) => Form::List(seq![x] + items),
        other => other,
    }
}

/// The expression read from position `i` on, with the position after it.
pub open spec fn read_expr_at(cs: Seq<char>, i: nat) -> Result<(Form, nat), ReadError>
    decreases cs.len() - i, 0nat,
{
    let j = space_end(cs, i);
    if j >= cs.len() {
        Err(ReadError::UnexpectedEof(pos_at(cs, j)))
    } else if cs[j as int] == '(' {
        proof {
            lemma_run_ends(cs, i);
        }
        read_items_at(cs, j + 1)
    } else if is_symbol_char_spec(cs[j as int]) {
        let e = symbol_run_end(cs, j);
        Ok((Form::Symbol(cs.subrange(j as int, e as int)), e))
    } else if is_decimal_digit(cs[j as int]) {
        let e = number_run_end(cs, j);
        Ok((Form::Number(cs.subrange(j as int, e as int)), e))
    } else {
        Err(ReadError::InvalidExpression(pos_at(cs, j)))
    }
}

/// The items of a list from position `i` up to its `)` or the end of input,
/// as a list, with the position after it.
pub open spec fn read_items_at(cs: Seq<char>, i: nat) -> Result<(Form, nat), ReadError>
    decreases cs.len() - i, 1nat,
{
    if i >= cs.len() {
        Ok((Form::List(seq![]), i))
    } else if cs[i as int] == ')' {
        Ok((Form::List(seq![]), i + 1))
    } else {
        match read_expr_at(cs, i) {
            Ok((x, j)) => if i < j <= cs.len() {
                match read_items_at(cs, j) {
                    Ok((rest, k)) => Ok((prepend(x, rest), k)),
                    Err(e) => Err(e),
                }
            } else {
                Ok((Form::List(seq![x]), j))
            },
            Err(e) => Err(e),
        }
    }
}

/// All the expressions from position `i` to the end of input.
pub open spec fn read_all_at(cs: Seq<char>, i: nat) -> Result<Seq<Form>, ReadError>
    decreases cs.len() - i,
{
    if i >= cs.len() {
        Ok(seq![])
    } else {
        match read_expr_at(cs, i) {
            Ok((x, j)) => if i < j <= cs.len() {
                match read_all_at(cs, j) {
                    Ok(rest) => Ok(seq![x] + rest),
                    Err(e) => Err(e),
                }
            } else {
                Ok(seq![x])
            },
            Err(e) => Err(e),
        }
    }
}

/// A read that began at `i` and succeeded ended past it, within the `n` characters.
pub open spec fn read_consumes(r: Result<(Form, nat), ReadError>, i: nat, n: nat) -> bool {
    r matches Ok((x, j)) ==> i < j <= n
}

pub proof fn lemma_read_advances(cs: Seq<char>, i: nat)
    requires
        i <= cs.len(),
    ensures
        i < cs.len() ==> read_consumes(read_expr_at(cs, i), i, cs.len()),
        i < cs.len() ==> read_consumes(read_items_at(cs, i), i, cs.len()),
        read_items_at(cs, i) is Ok ==> i <= read_items_at(cs, i)->Ok_0.1 <= cs.len(),
        read_items_at(cs, i) matches Ok((f, k)) ==> f is List,
    decreases cs.len() - i,
{
    lemma_run_ends(cs, i);
    if i < cs.len() {
        let j = space_end(cs, i);
        if j < cs.len() {
            lemma_run_ends(cs, j + 1);
            let d = digit_run_end(cs, j);
            if d < cs.len() {
                lemma_run_ends(cs, d + 1);
            }
            if cs[j as int] == '(' {
                lemma_read_advances(cs, j + 1);
            }
        }
        assert(read_consumes(read_expr_at(cs, i), i, cs.len()));
        if cs[i as int] != ')' {
            if let Ok((x, j)) = read_expr_at(cs, i) {
                if i < j <= cs.len() {
                    lemma_read_advances(cs, j);
                }
            }
        }
    }
}

/// A reader over the characters of one source text.
pub struct Reader<'src> {
    source: &'src str,
    chars: Vec<char>,
    paren_depth: usize,
    current: usize,
    line: usize,
    column: usize,
}

impl<'src> Reader<'src> {
    /// The characters of the source.
    pub closed spec fn text(&self) -> Seq<char> {
        self.chars@
    }

    /// How many characters have been read.
    pub closed spec fn cursor(&self) -> nat {
        self.current as nat
    }

    pub closed spec fn wf(&self) -> bool {
        &&& self.chars@ == self.source@
        &&& self.chars@.len() < usize::MAX
        &&& self.current <= self.chars@.len()
        &&& self.paren_depth <= self.current
        &&& self.line == char_line(self.chars@, self.current as nat)
        &&& self.column == char_column(self.chars@, self.current as nat)
    }

    closed spec fn same_text(&self, other: &Self) -> bool {
        &&& self.source == other.source
        &&& self.chars == other.chars
    }

    /// A reader at the start of `source`.
    pub fn new(source: &'src str) -> (r: Self)
        requires
            source@.len() < usize::MAX,
        ensures
            r.wf(),
            r.text() == source@,
            r.cursor() == 0,
    {
        let n = source.unicode_len();
        let mut chars: Vec<char> = Vec::new();
        let mut k: usize = 0;
        while k < n
            invariant
                n == source@.len(),
                k <= n,
                chars@ == source@.subrange(0, k as int),
            decreases n - k,
        {
            chars.push(source.get_char(k));
            k = k + 1;
            assert(chars@ =~= source@.subrange(0, k as int));
        }
        assert(chars@ =~= source@);
        Reader { source, chars, paren_depth: 0, current: 0, line: 1, column: 1 }
    }

    /// Closes a list: fails where none is open.
    fn pop(&mut self) -> (r: Result<(), ReadError>)
        requires
            old(self).wf(),
        ensures
            final(self).wf(),
            final(self).same_text(old(self)),
            final(self).current == old(self).current,
            old(self).paren_depth == 0 ==> r == Err::<(), ReadError>(
                ReadError::UnexpectedClose(pos_at(old(self).chars@, old(self).current as nat)),
            ) && final(self).paren_depth == 0,
            old(self).paren_depth > 0 ==> r is Ok && final(self).paren_depth == old(
                self,
            ).paren_depth - 1,
    {
        if self.paren_depth == 0 {
            return Err(ReadError::UnexpectedClose(Pos::new(self.line, self.column)));
        }
        self.paren_depth = self.paren_depth - 1;
        Ok(())
    }

    /// Opens a list, whose `(` has just been read.
    fn push(&mut self)
        requires
            old(self).wf(),
            old(self).paren_depth < old(self).current,
        ensures
            final(self).wf(),
            final(self).same_text(old(self)),
            final(self).current == old(self).current,
            final(self).paren_depth == old(self).paren_depth + 1,
    {
        self.paren_depth = self.paren_depth + 1;
    }

    fn peek(&self) -> (r: Option<char>)
        requires
            self.wf(),
        ensures
            r == (if self.current < self.chars@.len() {
                Some(self.chars@[self.current as int])
            } else {
                None::<char>
            }),
    {
        if self.current < self.chars.len() {
            Some(self.chars[self.current])
        } else {
            None
        }
    }

    fn consume(&mut self) -> (r: Option<char>)
        requires
            old(self).wf(),
        ensures
            final(self).wf(),
            final(self).same_text(old(self)),
            final(self).paren_depth == old(self).paren_depth,
            old(self).current < old(self).chars@.len() ==> final(self).current == old(self).current
                + 1 && r == Some(old(self).chars@[old(self).current as int]),
            old(self).current >= old(self).chars@.len() ==> final(self).current == old(
                self,
            ).current && r is None,
    {
        if self.current >= self.chars.len() {
            return None;
        }
        let c = self.chars[self.current];
        proof {
            lemma_char_position_bounds(self.chars@, self.current as nat + 1);
        }
        self.current = self.current + 1;
        if c == '\n' {
            self.line = self.line + 1;
            self.column = 1;
        } else {
            self.column = self.column + 1;
        }
        Some(c)
    }

    /// The line and column of the next character.
    fn pos(&self) -> (r: Pos)
        requires
            self.wf(),
        ensures
            r == pos_at(self.chars@, self.current as nat),
    {
        Pos::new(self.line, self.column)
    }

    fn skip_whitespace(&mut self)
        requires
            old(self).wf(),
        ensures
            final(self).wf(),
            final(self).same_text(old(self)),
            final(self).paren_depth == old(self).paren_depth,
            final(self).current == space_end(old(self).chars@, old(self).current as nat),
    {
        while self.current < self.chars.len() && white(self.chars[self.current])
            invariant
                self.wf(),
                self.same_text(old(self)),
                self.paren_depth == old(self).paren_depth,
                space_end(self.chars@, self.current as nat) == space_end(
                    self.chars@,
                    old(self).current as nat,
                ),
            decreases self.chars@.len() - self.current,
        {
            self.consume();
        }
    }

    fn skip_digits(&mut self)
        requires
            old(self).wf(),
        ensures
            final(self).wf(),
            final(self).same_text(old(self)),
            final(self).paren_depth == old(self).paren_depth,
            final(self).current == digit_run_end(old(self).chars@, old(self).current as nat),
    {
        while self.current < self.chars.len() && '0' <= self.chars[self.current]
            && self.chars[self.current] <= '9'
            invariant
                self.wf(),
                self.same_text(old(self)),
                self.paren_depth == old(self).paren_depth,
                digit_run_end(self.chars@, self.current as nat) == digit_run_end(
                    self.chars@,
                    old(self).current as nat,
                ),
            decreases self.chars@.len() - self.current,
        {
            self.consume();
        }
    }

    /// The text of the characters `[start, end)`.
    fn slice(&self, start: usize, end: usize) -> (r: String)
        requires
            self.wf(),
            start <= end <= self.chars@.len(),
        ensures
            r@ == self.chars@.subrange(start as int, end as int),
    {
        self.source.substring_char(start, end).to_owned()
    }

    fn read_number(&mut self) -> (r: Expression)
        requires
            old(self).wf(),
            old(self).current < old(self).chars@.len(),
            is_decimal_digit(old(self).chars@[old(self).current as int]),
        ensures
            final(self).wf(),
            final(self).same_text(old(self)),
            final(self).paren_depth == old(self).paren_depth,
            final(self).current == number_run_end(old(self).chars@, old(self).current as nat),
            form_of(&r) == Form::Number(
                old(self).chars@.subrange(old(self).current as int, final(self).current as int),
            ),
            pos_of(&r) == pos_at(old(self).chars@, old(self).current as nat),
    {
        let pos = self.pos();
        let start = self.current;
        proof {
            lemma_run_ends(self.chars@, start as nat);
        }
        self.skip_digits();
        if self.current < self.chars.len() && self.chars[self.current] == '.' {
            self.consume();
            proof {
                lemma_run_ends(self.chars@, self.current as nat);
            }
            self.skip_digits();
        }
        let text = self.slice(start, self.current);
        Expression::Number { text, pos }
    }

    fn read_symbol(&mut self) -> (r: Expression)
        requires
            old(self).wf(),
        ensures
            final(self).wf(),
            final(self).same_text(old(self)),
            final(self).paren_depth == old(self).paren_depth,
            final(self).current == symbol_run_end(old(self).chars@, old(self).current as nat),
            form_of(&r) == Form::Symbol(
                old(self).chars@.subrange(old(self).current as int, final(self).current as int),
            ),
            pos_of(&r) == pos_at(old(self).chars@, old(self).current as nat),
    {
        let pos = self.pos();
        let start = self.current;
        while self.current < self.chars.len() && is_symbol_char(self.chars[self.current])
            invariant
                self.wf(),
                self.same_text(old(self)),
                self.paren_depth == old(self).paren_depth,
                start == old(self).current,
                start <= self.current,
                symbol_run_end(self.chars@, self.current as nat) == symbol_run_end(
                    self.chars@,
                    old(self).current as nat,
                ),
            decreases self.chars@.len() - self.current,
        {
            self.consume();
        }
        let name = self.slice(start, self.current);
        Expression::Symbol { name, pos }
    }

    /// A list from its `(` up to its `)`, or to the end of input.
    fn read_list(&mut self) -> (r: Result<Expression, ReadError>)
        requires
            old(self).wf(),
            old(self).current < old(self).chars@.len(),
            old(self).chars@[old(self).current as int] == '(',
        ensures
            final(self).wf(),
            final(self).same_text(old(self)),
            match read_items_at(old(self).chars@, old(self).current as nat + 1) {
                Ok((f, k)) => r matches Ok(e) && form_of(&e) == f && final(self).current == k
                    && final(self).paren_depth == old(self).paren_depth,
                Err(e) => r == Err::<Expression, ReadError>(e),
            },
            r matches Ok(e) ==> pos_of(&e) == pos_at(old(self).chars@, old(self).current as nat),
        decreases old(self).chars@.len() - old(self).current, 0nat,
    {
        let ghost cs = self.chars@;
        let ghost i0 = self.current as nat + 1;
        let pos = self.pos();
        self.consume();
        let mut exprs: Vec<Expression> = Vec::new();
        self.push();
        proof {
            lemma_read_advances(cs, i0);
            if let Ok((f, k)) = read_items_at(cs, i0) {
                assert(forms_of(exprs@) + f->List_0 =~= f->List_0);
            }
        }
        loop
            invariant
                self.wf(),
                self.same_text(old(self)),
                self.chars@ == cs,
                cs == old(self).chars@,
                i0 == old(self).current + 1,
                i0 <= self.current,
                pos == pos_at(cs, old(self).current as nat),
                self.paren_depth == old(self).paren_depth + 1,
                match read_items_at(cs, self.current as nat) {
                    Ok((f, k)) => f is List && read_items_at(cs, i0) == Ok::<(Form, nat), ReadError>(
                        (Form::List(forms_of(exprs@) + f->List_0), k),
                    ),
                    Err(e) => read_items_at(cs, i0) == Err::<(Form, nat), ReadError>(e),
                },
            decreases cs.len() - self.current,
        {
            proof {
                lemma_read_advances(cs, self.current as nat);
            }
            match self.peek() {
                None => {
                    self.paren_depth = self.paren_depth - 1;
                    let e = Expression::List { items: exprs, pos };
                    proof {
                        assert(forms_of(exprs@) + seq![] =~= forms_of(exprs@));
                        assert(form_of(&e) matches Form::List(fs) && fs =~= forms_of(exprs@));
                    }
                    return Ok(e);
                },
                Some(c) => {
                    if c == ')' {
                        match self.pop() {
                            Ok(()) => {},
                            Err(e) => {
                                return Err(e);
                            },
                        }
                        self.consume();
                        let e = Expression::List { items: exprs, pos };
                        proof {
                            assert(forms_of(exprs@) + seq![] =~= forms_of(exprs@));
                            assert(form_of(&e) matches Form::List(fs) && fs =~= forms_of(exprs@));
                        }
                        return Ok(e);
                    }
                    let ghost i = self.current as nat;
                    match self.read_expression() {
                        Ok(x) => {
                            let ghost prev = exprs@;
                            exprs.push(x);
                            proof {
                                assert(forms_of(exprs@) =~= forms_of(prev).push(form_of(&x)));
                                if let Ok((f, k)) = read_items_at(cs, self.current as nat) {
                                    lemma_read_advances(cs, self.current as nat);
                                    assert(forms_of(prev) + (seq![form_of(&x)] + f->List_0)
                                        =~= forms_of(exprs@) + f->List_0);
                                }
                            }
                        },
                        Err(e) => {
                            return Err(e);
                        },
                    }
                },
            }
        }
    }

    /// One expression, after any whitespace.
    fn read_expression(&mut self) -> (r: Result<Expression, ReadError>)
        requires
            old(self).wf(),
        ensures
            final(self).wf(),
            final(self).same_text(old(self)),
            match read_expr_at(old(self).chars@, old(self).current as nat) {
                Ok((f, k)) => r matches Ok(e) && form_of(&e) == f && final(self).current == k
                    && final(self).paren_depth == old(self).paren_depth,
                Err(e) => r == Err::<Expression, ReadError>(e),
            },
            r matches Ok(e) ==> pos_of(&e) == pos_at(
                old(self).chars@,
                space_end(old(self).chars@, old(self).current as nat),
            ),
        decreases old(self).chars@.len() - old(self).current, 1nat,
    {
        proof {
            lemma_run_ends(self.chars@, self.current as nat);
        }
        self.skip_whitespace();
        match self.peek() {
            Some(c) => {
                if c == '(' {
                    self.read_list()
                } else if is_symbol_char(c) {
                    Ok(self.read_symbol())
                } else if '0' <= c && c <= '9' {
                    Ok(self.read_number())
                } else {
                    Err(ReadError::InvalidExpression(self.pos()))
                }
            },
            None => Err(ReadError::UnexpectedEof(self.pos())),
        }
    }

    /// All the expressions up to the end of input, or the first error.
    pub fn read(&mut self) -> (r: Result<Program, ReadError>)
        requires
            old(self).wf(),
        ensures
            match read_all_at(old(self).text(), old(self).cursor()) {
                Ok(fs) => r matches Ok(p) && forms_of(p.expressions@) == fs,
                Err(e) => r == Err::<Program, ReadError>(e),
            },
    {
        let ghost cs = self.chars@;
        let ghost i0 = self.current as nat;
        let mut exprs: Vec<Expression> = Vec::new();
        while self.current < self.chars.len()
            invariant
                self.wf(),
                self.chars@ == cs,
                cs == old(self).chars@,
                i0 == old(self).current,
                match read_all_at(cs, self.current as nat) {
                    Ok(rest) => read_all_at(cs, i0) == Ok::<Seq<Form>, ReadError>(
                        forms_of(exprs@) + rest,
                    ),
                    Err(e) => read_all_at(cs, i0) == Err::<Seq<Form>, ReadError>(e),
                },
            decreases cs.len() - self.current,
        {
            proof {
                lemma_read_advances(cs, self.current as nat);
            }
            match self.read_expression() {
                Ok(x) => {
                    let ghost prev = exprs@;
                    exprs.push(x);
                    proof {
                        assert(forms_of(exprs@) =~= forms_of(prev).push(form_of(&x)));
                        if let Ok(rest) = read_all_at(cs, self.current as nat) {
                            assert(forms_of(prev) + (seq![form_of(&x)] + rest) =~= forms_of(exprs@)
                                + rest);
                        }
                    }
                },
                Err(e) => {
                    return Err(e);
                },
            }
        }
        proof {
            assert(forms_of(exprs@) + seq![] =~= forms_of(exprs@));
        }
        Ok(Program::new(exprs))
    }
}

} // verus!
