//! The parsed value and the layout tree, with their mathematical models.

use vstd::prelude::*;

verus! {

/// A parsed value: an integer, a piece of text, or an ordered list of
/// key/value entries.
#[derive(Debug, PartialEq)]
pub enum Value {
    Int(i32),
    String(String),
    Dict(Vec<(String, Value)>),
}

/// The mathematical model of a `Value`.
pub enum ValueView {
    Int(i32),
    Str(Seq<char>),
    Dict(Seq<(Seq<char>, ValueView)>),
}

/// The layout tree built from a parsed example.
#[derive(Debug, PartialEq)]
pub enum IR {
    VStack(Vec<IR>),
    HStack(Vec<IR>),
    Text(String),
    Button(String),
    Image(String),
    Spacer,
}

/// The mathematical model of an `IR` tree.
pub enum IRView {
    VStack(Seq<IRView>),
    HStack(Seq<IRView>),
    Text(Seq<char>),
    Button(Seq<char>),
    Image(Seq<char>),
    Spacer,
}

pub open spec fn value_view(v: Value) -> ValueView
    decreases v,
{
    match v {
        Value::Int(i) => ValueView::Int(i),
        Value::String(s) => ValueView::Str(s@),
        Value::Dict(d) => ValueView::Dict(entries_view(d@)),
    }
}

/// The model of a list of entries, element by element.
pub open spec fn entries_view(es: Seq<(String, Value)>) -> Seq<(Seq<char>, ValueView)>
    decreases es,
{
    if es.len() == 0 {
        Seq::empty()
    } else {
        entries_view(es.drop_last()).push((es.last().0@, value_view(es.last().1)))
    }
}

impl View for Value {
    type V = ValueView;

    open spec fn view(&self) -> ValueView {
        value_view(*self)
    }
}

pub open spec fn ir_view(ir: IR) -> IRView
    decreases ir,
{
    match ir {
        IR::VStack(c) => IRView::VStack(irs_view(c@)),
        IR::HStack(c) => IRView::HStack(irs_view(c@)),
        IR::Text(s) => IRView::Text(s@),
        IR::Button(s) => IRView::Button(s@),
        IR::Image(s) => IRView::Image(s@),
        IR::Spacer => IRView::Spacer,
    }
}

/// The model of a list of trees, tree by tree.
pub open spec fn irs_view(cs: Seq<IR>) -> Seq<IRView>
    decreases cs,
{
    if cs.len() == 0 {
        Seq::empty()
    } else {
        irs_view(cs.drop_last()).push(ir_view(cs.last()))
    }
}

/// Appending an entry appends its model.
pub proof fn lemma_entries_view_push(es: Seq<(String, Value)>, e: (String, Value))
    ensures
        entries_view(es.push(e)) == entries_view(es).push((e.0@, e.1@)),
{
    assert(es.push(e).drop_last() =~= es);
}

/// The model of an entry list has one entry per entry, in order.
pub proof fn lemma_entries_view_index(es: Seq<(String, Value)>, i: int)
    requires
        0 <= i < es.len(),
    ensures
        entries_view(es).len() == es.len(),
        entries_view(es)[i] == (es[i].0@, es[i].1@),
    decreases es.len(),
{
    if i < es.len() - 1 {
        lemma_entries_view_index(es.drop_last(), i);
    } else {
        lemma_entries_view_len(es.drop_last());
    }
}

/// The model of an entry list is as long as the list.
pub proof fn lemma_entries_view_len(es: Seq<(String, Value)>)
    ensures
        entries_view(es).len() == es.len(),
    decreases es.len(),
{
    if es.len() > 0 {
        lemma_entries_view_len(es.drop_last());
    }
}

/// Appending a tree appends its model.
pub proof fn lemma_irs_view_push(cs: Seq<IR>, c: IR)
    ensures
        irs_view(cs.push(c)) == irs_view(cs).push(c@),
{
    assert(cs.push(c).drop_last() =~= cs);
}

impl View for IR {
    type V = IRView;

    open spec fn view(&self) -> IRView {
        ir_view(*self)
    }
}

} // verus!
