use vstd::prelude::*;
use crate::ast::{
    IR, IRView, Value, ValueView, entries_view, irs_view, lemma_entries_view_index,
    lemma_entries_view_len, lemma_entries_view_push, lemma_irs_view_push,
};
use crate::text::{chars_of, is_text, slice, string_of};

verus! {

/// The value under the first entry of `es` from the `i`-th on whose key is `k`.
pub open spec fn lookup_from(es: Seq<(Seq<char>, ValueView)>, k: Seq<char>, i: int) -> Option<
    ValueView,
>
    decreases es.len() - i,
{
    if i < 0 || i >= es.len() {
        None
    } else if es[i].0 == k {
        Some(es[i].1)
    } else {
        lookup_from(es, k, i + 1)
    }
}

/// The value under the first entry of `es` whose key is `k`.
pub open spec fn lookup(es: Seq<(Seq<char>, ValueView)>, k: Seq<char>) -> Option<ValueView> {
    lookup_from(es, k, 0)
}

/// The text under the first entry of `es` keyed `k`, where that value is text.
pub open spec fn text_under(es: Seq<(Seq<char>, ValueView)>, k: Seq<char>) -> Option<Seq<char>> {
    match lookup(es, k) {
        Some(ValueView::Str(t)) => Some(t),
        _ => None,
    }
}

/// `s` without the run of `c` at its start.
pub open spec fn drop_leading(s: Seq<char>, c: char) -> Seq<char>
    decreases s.len(),
{
    if s.len() > 0 && s[0] == c {
        drop_leading(s.drop_first(), c)
    } else {
        s
    }
}

/// `s` without the run of `c` at its end.
pub open spec fn drop_trailing(s: Seq<char>, c: char) -> Seq<char>
    decreases s.len(),
{
    if s.len() > 0 && s.last() == c {
        drop_trailing(s.drop_last(), c)
    } else {
        s
    }
}

/// `s` without the double quotes at either end.
pub open spec fn strip_quotes(s: Seq<char>) -> Seq<char> {
    drop_trailing(drop_leading(s, '"'), '"')
}

/// The node that a row child with text `t` becomes.
pub open spec fn row_node(t: Seq<char>) -> IRView {
    if strip_quotes(t) == "Spacer"@ {
        IRView::Spacer
    } else {
        IRView::Text(strip_quotes(t))
    }
}

/// The nodes of a row, one per text child, in order; other children are
/// left out.
pub open spec fn row_nodes(cs: Seq<(Seq<char>, ValueView)>) -> Seq<IRView>
    decreases cs.len(),
{
    if cs.len() == 0 {
        Seq::empty()
    } else {
        match cs.last().1 {
            ValueView::Str(t) => row_nodes(cs.drop_last()).push(row_node(t)),
            _ => row_nodes(cs.drop_last()),
        }
    }
}

/// The children of the vertical stack: the image, the title, a spacer, and
/// the button unless its label is empty.
pub open spec fn column_nodes(es: Seq<(Seq<char>, ValueView)>) -> Seq<IRView> {
    let image = match text_under(es, "Image"@) {
        Some(t) => seq![IRView::Image(t)],
        None => Seq::empty(),
    };
    let title = match text_under(es, "title"@) {
        Some(t) => seq![IRView::Text(t)],
        None => Seq::empty(),
    };
    let button = match text_under(es, "button"@) {
        Some(t) => if t.len() > 0 {
            seq![IRView::Button(t)]
        } else {
            Seq::empty()
        },
        None => Seq::empty(),
    };
    image + title + seq![IRView::Spacer] + button
}

/// The tree built from an elements mapping: a horizontal stack when an
/// `HStack` mapping is present, a vertical stack otherwise.
pub open spec fn layout_of(elements: ValueView) -> IRView {
    match elements {
        ValueView::Dict(es) => match lookup(es, "HStack"@) {
            Some(ValueView::Dict(cs)) => IRView::HStack(row_nodes(cs)),
            _ => IRView::VStack(column_nodes(es)),
        },
        _ => IRView::VStack(column_nodes(Seq::empty())),
    }
}

/// The position of the first entry keyed `key`.
fn find_entry(es: &Vec<(String, Value)>, key: &str) -> (r: Option<usize>)
    ensures
        r matches Some(i) ==> i < es@.len() && lookup(entries_view(es@), key@) == Some(
            es@[i as int].1@,
        ),
        r is None ==> lookup(entries_view(es@), key@) is None,
{
    let ghost ev = entries_view(es@);
    proof {
        lemma_entries_view_len(es@);
    }
    let mut i: usize = 0;
    while i < es.len()
        invariant
            i <= es.len(),
            ev == entries_view(es@),
            ev.len() == es@.len(),
            lookup(ev, key@) == lookup_from(ev, key@, i as int),
        decreases es.len() - i,
    {
        proof {
            lemma_entries_view_index(es@, i as int);
        }
        if is_text(&chars_of(es[i].0.as_str()), key) {
            return Some(i);
        }
        i += 1;
    }
    None
}

/// The text under the first entry keyed `key`, where that value is text.
fn text_entry(es: &Vec<(String, Value)>, key: &str) -> (r: Option<String>)
    ensures
        r matches Some(s) ==> text_under(entries_view(es@), key@) == Some(s@),
        r is None ==> text_under(entries_view(es@), key@) is None,
{
    match find_entry(es, key) {
        Some(i) => match &es[i].1 {
            Value::String(s) => Some(s.clone()),
            _ => None,
        },
        None => None,
    }
}

/// `v` without the double quotes at either end.
fn strip_quote_chars(v: &Vec<char>) -> (r: Vec<char>)
    ensures
        r@ == strip_quotes(v@),
{
    let n = v.len();
    assert(v@.subrange(0, n as int) =~= v@);
    let mut i: usize = 0;
    while i < n && v[i] == '"'
        invariant
            n == v.len(),
            i <= n,
            drop_leading(v@, '"') == drop_leading(v@.subrange(i as int, n as int), '"'),
        decreases n - i,
    {
        assert(v@.subrange(i as int, n as int).drop_first() =~= v@.subrange(i + 1, n as int));
        i += 1;
    }
    let mut j: usize = n;
    while j > i && v[j - 1] == '"'
        invariant
            n == v.len(),
            i <= j <= n,
            strip_quotes(v@) == drop_trailing(v@.subrange(i as int, j as int), '"'),
        decreases j,
    {
        assert(v@.subrange(i as int, j as int).drop_last() =~= v@.subrange(i as int, j - 1));
        j -= 1;
    }
    slice(v, i, j)
}

/// The nodes of a row, one per text child.
fn row_children(cs: &Vec<(String, Value)>) -> (r: Vec<IR>)
    ensures
        irs_view(r@) == row_nodes(entries_view(cs@)),
{
    let mut out: Vec<IR> = Vec::new();
    let mut i: usize = 0;
    assert(cs@.subrange(0, 0) =~= Seq::<(String, Value)>::empty());
    while i < cs.len()
        invariant
            i <= cs.len(),
            irs_view(out@) == row_nodes(entries_view(cs@.subrange(0, i as int))),
        decreases cs.len() - i,
    {
        let ghost pre = cs@.subrange(0, i as int);
        assert(cs@.subrange(0, i + 1) =~= pre.push(cs@[i as int]));
        proof {
            lemma_entries_view_push(pre, cs@[i as int]);
            assert(entries_view(pre).push((cs@[i as int].0@, cs@[i as int].1@)).drop_last()
                =~= entries_view(pre));
        }
        match &cs[i].1 {
            Value::String(s) => {
                let t = strip_quote_chars(&chars_of(s.as_str()));
                let node = if is_text(&t, "Spacer") {
                    IR::Spacer
                } else {
                    IR::Text(string_of(&t))
                };
                proof {
                    lemma_irs_view_push(out@, node);
                }
                out.push(node);
            },
            _ => {},
        }
        i += 1;
    }
    assert(cs@.subrange(0, cs.len() as int) =~= cs@);
    out
}

/// The children of the vertical stack.
fn column_children(es: &Vec<(String, Value)>) -> (r: Vec<IR>)
    ensures
        irs_view(r@) == column_nodes(entries_view(es@)),
{
    let ghost ev = entries_view(es@);
    let mut out: Vec<IR> = Vec::new();
    assert(irs_view(out@) =~= Seq::empty());
    match text_entry(es, "Image") {
        Some(t) => {
            let node = IR::Image(t);
            proof {
                lemma_irs_view_push(out@, node);
            }
            out.push(node);
        },
        None => {},
    }
    match text_entry(es, "title") {
        Some(t) => {
            let node = IR::Text(t);
            proof {
                lemma_irs_view_push(out@, node);
            }
            out.push(node);
        },
        None => {},
    }
    proof {
        lemma_irs_view_push(out@, IR::Spacer);
    }
    out.push(IR::Spacer);
    match text_entry(es, "button") {
        Some(t) => {
            if t.as_str().unicode_len() > 0 {
                let node = IR::Button(t);
                proof {
                    lemma_irs_view_push(out@, node);
                }
                out.push(node);
            }
        },
        None => {},
    }
    assert(irs_view(out@) =~= column_nodes(ev));
    out
}

/// Builds the layout tree for the first example: `None` only when there is
/// no example.
pub fn synthesize_layout(examples: Vec<(Value, Value)>) -> (r: Option<IR>)
    ensures
        examples@.len() == 0 ==> r is None,
        examples@.len() > 0 ==> (r matches Some(ir) && ir@ == layout_of(examples@[0].1@)),
{
    if examples.len() == 0 {
        return None;
    }
    let elements = &examples[0].1;
    match elements {
        Value::Dict(es) => {
            match find_entry(es, "HStack") {
                Some(i) => match &es[i].1 {
                    Value::Dict(cs) => {
                        return Some(IR::HStack(row_children(cs)));
                    },
                    _ => {},
                },
                None => {},
            }
            Some(IR::VStack(column_children(es)))
        },
        _ => {
            let empty: Vec<(String, Value)> = Vec::new();
            assert(entries_view(empty@) =~= Seq::empty());
            Some(IR::VStack(column_children(&empty)))
        },
    }
}

} // verus!

verus! {

/// When the elements hold an `HStack` mapping, the tree is a horizontal stack
/// of that mapping's text children and nothing else: any two element lists
/// whose first `HStack` entry is the same mapping give the same tree.
pub proof fn lemma_hstack_exclusive(
    es: Seq<(Seq<char>, ValueView)>,
    others: Seq<(Seq<char>, ValueView)>,
    cs: Seq<(Seq<char>, ValueView)>,
)
    requires
        lookup(es, "HStack"@) == Some(ValueView::Dict(cs)),
        lookup(others, "HStack"@) == Some(ValueView::Dict(cs)),
    ensures
        layout_of(ValueView::Dict(es)) == IRView::HStack(row_nodes(cs)),
        layout_of(ValueView::Dict(es)) == layout_of(ValueView::Dict(others)),
{
}

} // verus!
