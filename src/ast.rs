//! The expressions that the reader builds, and how they print.
use vstd::prelude::*;
use vstd::string::StringExecFns;

use crate::pos::Pos;

verus! {

/// An expression with the position where it starts. A number keeps its
/// literal text (digits, optionally a dot and digits).
#[derive(Debug, PartialEq)]
pub enum Expression {
    Number { text: String, pos: Pos },
    Symbol { name: String, pos: Pos },
    List { items: Vec<Expression>, pos: Pos },
}

/// An expression without positions.
pub enum Form {
    Number(Seq<char>),
    Symbol(Seq<char>),
    List(Seq<Form>),
}

/// Where an expression starts.
pub open spec fn pos_of(e: &Expression) -> Pos {
    match e {
        Expression::Number { pos, .. } => *pos,
        Expression::Symbol { pos, .. } => *pos,
        Expression::List { pos, .. } => *pos,
    }
}

pub open spec fn form_of(e: &Expression) -> Form
    decreases e,
{
    match e {
        Expression::Number { text, .. } => Form::Number(text@),
        Expression::Symbol { name, .. } => Form::Symbol(name@),
        Expression::List { items, .. } => Form::List(
            Seq::new(
                items@.len(),
                |i: int|
                    if 0 <= i < items@.len() {
                        form_of(&items@[i])
                    } else {
                        Form::List(seq![])
                    },
            ),
        ),
    }
}

/// The text of a form: atoms as written, a list as its items between
/// parentheses, separated by single spaces.
pub open spec fn render(f: Form) -> Seq<char>
    decreases f,
{
    match f {
        Form::Number(t) => t,
        Form::Symbol(n) => n,
        Form::List(items) => seq!['('] + render_items(items) + seq![')'],
    }
}

/// The texts of `items`, separated by single spaces.
pub open spec fn render_items(items: Seq<Form>) -> Seq<char>
    decreases items,
{
    if items.len() == 0 {
        seq![]
    } else {
        proof {
            assert(decreases_to!(items => items[0]));
        }
        if items.len() == 1 {
            render(items[0])
        } else {
            render(items[0]) + seq![' '] + render_items(items.drop_first())
        }
    }
}

/// The forms of a sequence of expressions.
pub open spec fn forms_of(v: Seq<Expression>) -> Seq<Form> {
    Seq::new(v.len(), |i: int| form_of(&v[i]))
}

/// Each form's text followed by a newline.
pub open spec fn render_lines(forms: Seq<Form>) -> Seq<char>
    decreases forms.len(),
{
    if forms.len() == 0 {
        seq![]
    } else {
        render_lines(forms.drop_last()) + render(forms.last()) + seq!['\n']
    }
}

proof fn lemma_render_items_push(items: Seq<Form>, f: Form)
    requires
        items.len() > 0,
    ensures
        render_items(items.push(f)) == render_items(items) + seq![' '] + render(f),
    decreases items.len(),
{
    let longer = items.push(f);
    assert(longer[0] == items[0]);
    assert(longer.drop_first() =~= items.drop_first().push(f));
    if items.len() == 1 {
        assert(items.drop_first().push(f) =~= seq![f]);
        assert(render_items(seq![f]) == render(seq![f][0]));
    } else {
        lemma_render_items_push(items.drop_first(), f);
        assert(render(items[0]) + seq![' '] + (render_items(items.drop_first()) + seq![' '] + render(
            f,
        )) =~= render(items[0]) + seq![' '] + render_items(items.drop_first()) + seq![' '] + render(
            f,
        ));
    }
}

impl Expression {
    /// Appends the text of this expression to `out`.
    pub fn render_into(&self, out: &mut String)
        ensures
            final(out)@ == old(out)@ + render(form_of(self)),
        decreases self,
    {
        match self {
            Expression::Number { text, .. } => {
                out.append(text.as_str());
            },
            Expression::Symbol { name, .. } => {
                out.append(name.as_str());
            },
            Expression::List { items, pos } => {
                proof {
                    reveal_strlit("(");
                    reveal_strlit(")");
                    reveal_strlit(" ");
                }
                let ghost start = out@;
                let ghost forms = match form_of(self) {
                    Form::List(fs) => fs,
                    _ => seq![],
                };
                assert(forms.len() == items@.len());
                assert forall|i: int| 0 <= i < items@.len() implies forms[i] == form_of(
                    &items@[i],
                ) by {}
                out.append("(");
                let mut k: usize = 0;
                while k < items.len()
                    invariant
                        *self == (Expression::List { items: *items, pos: *pos }),
                        k <= items@.len(),
                        forms.len() == items@.len(),
                        forall|i: int| 0 <= i < items@.len() ==> forms[i] == form_of(&items@[i]),
                        out@ == start + seq!['('] + render_items(forms.subrange(0, k as int)),
                    decreases items@.len() - k,
                {
                    let ghost before = out@;
                    proof {
                        reveal_strlit(" ");
                    }
                    if k > 0 {
                        out.append(" ");
                    }
                    proof {
                        vstd::std_specs::vec::axiom_vec_index_decreases(*items, k as int);
                        assert(decreases_to!(*items => items[k as int]));
                        assert(decreases_to!(*self => self->items));
                        assert(decreases_to!(self->items => self->items@));
                        assert(decreases_to!(*self => items@[k as int]));
                        assert(decreases_to!(*items => items@[k as int]));
                    }
                    items[k].render_into(out);
                    assert(out@ == before + (if k > 0 { seq![' '] } else { seq![] }) + render(forms[k as int]));
                    proof {
                        let done = forms.subrange(0, k as int);
                        assert(forms.subrange(0, k as int + 1) =~= done.push(forms[k as int]));
                        if k == 0 {
                            assert(done.push(forms[0]) =~= seq![forms[0]]);
                            assert(render_items(seq![forms[0]]) == render(seq![forms[0]][0]));
                            assert(render_items(done) == Seq::<char>::empty());
                            assert(out@ =~= start + seq!['('] + render_items(
                                forms.subrange(0, k as int + 1),
                            ));
                        } else {
                            lemma_render_items_push(done, forms[k as int]);
                            assert(out@ =~= start + seq!['('] + render_items(
                                forms.subrange(0, k as int + 1),
                            ));
                        }
                    }
                    k = k + 1;
                }
                assert(forms.subrange(0, k as int) =~= forms);
                out.append(")");
            },
        }
    }
}

/// The expressions that a source text reads as, in order.
#[derive(Debug, PartialEq)]
pub struct Program {
    pub expressions: Vec<Expression>,
}

impl Program {
    pub fn new(expressions: Vec<Expression>) -> (r: Self)
        ensures
            r.expressions@ == expressions@,
    {
        Program { expressions }
    }

    /// Each expression's text on a line of its own.
    pub fn to_string(&self) -> (r: String)
        ensures
            r@ == render_lines(forms_of(self.expressions@)),
    {
        proof {
            reveal_strlit("\n");
        }
        let mut out = String::new();
        let mut k: usize = 0;
        while k < self.expressions.len()
            invariant
                k <= self.expressions@.len(),
                out@ == render_lines(forms_of(self.expressions@.subrange(0, k as int))),
            decreases self.expressions@.len() - k,
        {
            proof {
                reveal_strlit("\n");
            }
            self.expressions[k].render_into(&mut out);
            out.append("\n");
            proof {
                let next = forms_of(self.expressions@.subrange(0, k as int + 1));
                assert(next.drop_last() =~= forms_of(self.expressions@.subrange(0, k as int)));
                assert(next.last() == form_of(&self.expressions@[k as int]));
                assert(out@ =~= render_lines(next));
            }
            k = k + 1;
        }
        assert(self.expressions@.subrange(0, k as int) =~= self.expressions@);
        out
    }
}

} // verus!
