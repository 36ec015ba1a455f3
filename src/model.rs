//! The parsed value: atoms and pairs, with lists as chains of pairs ending in `Null`.
use vstd::prelude::*;
use vstd::utf8::encode_utf8;

verus! {

/// A parsed form. A float is kept as its literal text (digits, a dot, digits);
/// converting it to a machine float is left to the caller.
#[derive(Debug, PartialEq)]
pub enum Model {
    Int(i64),
    Float(String),
    String(String),
    Bool(bool),
    Null,
    Symbol(String),
    Pair(Box<Model>, Box<Model>),
}

/// A `Model` with its texts as their UTF-8 bytes.
pub enum ModelView {
    Int(i64),
    Float(Seq<u8>),
    Str(Seq<u8>),
    Bool(bool),
    Null,
    Symbol(Seq<u8>),
    Pair(Box<ModelView>, Box<ModelView>),
}

/// The view of a model, with each text as its UTF-8 bytes.
pub open spec fn model_view(m: &Model) -> ModelView
    decreases m,
{
    match m {
        Model::Int(n) => ModelView::Int(*n),
        Model::Float(t) => ModelView::Float(encode_utf8(t@)),
        Model::String(t) => ModelView::Str(encode_utf8(t@)),
        Model::Bool(v) => ModelView::Bool(*v),
        Model::Null => ModelView::Null,
        Model::Symbol(t) => ModelView::Symbol(encode_utf8(t@)),
        Model::Pair(car, cdr) => ModelView::Pair(
            Box::new(model_view(car)),
            Box::new(model_view(cdr)),
        ),
    }
}

impl View for Model {
    type V = ModelView;

    open spec fn view(&self) -> ModelView {
        model_view(self)
    }
}

/// The list whose elements are `xs`, in order, ending in `tail`.
pub open spec fn cons_all(xs: Seq<ModelView>, tail: ModelView) -> ModelView
    decreases xs.len(),
{
    if xs.len() == 0 {
        tail
    } else {
        ModelView::Pair(Box::new(xs[0]), Box::new(cons_all(xs.drop_first(), tail)))
    }
}

pub proof fn lemma_cons_all_push(xs: Seq<ModelView>, x: ModelView, tail: ModelView)
    ensures
        cons_all(xs.push(x), tail) == cons_all(
            xs,
            ModelView::Pair(Box::new(x), Box::new(tail)),
        ),
    decreases xs.len(),
{
    if xs.len() > 0 {
        assert(xs.push(x).drop_first() =~= xs.drop_first().push(x));
        lemma_cons_all_push(xs.drop_first(), x, tail);
        assert(xs.push(x)[0] == xs[0]);
    } else {
        assert(xs.push(x).drop_first() =~= xs);
        assert(cons_all(xs.push(x).drop_first(), tail) == tail);
        assert(xs.push(x)[0] == x);
    }
}

/// The views of a sequence of models.
pub open spec fn views(v: Seq<Model>) -> Seq<ModelView> {
    v.map_values(|m: Model| m@)
}

} // verus!
