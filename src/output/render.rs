use vstd::prelude::*;
use crate::ast::{IR, IRView, irs_view};
use crate::text::{
    chars_of, push_chars, push_text, split, split_at_char, string_of, trim_end, trimmed_end, views,
};

verus! {

/// `n` spaces.
pub open spec fn spaces(n: nat) -> Seq<char> {
    Seq::new(n, |i: int| ' ')
}

/// The indentation of a line at nesting level `indent`: four spaces a level.
pub open spec fn indentation(indent: nat) -> Seq<char> {
    spaces(4 * indent)
}

/// `s` with each `"` written `\"`.
pub open spec fn escape_quotes(s: Seq<char>) -> Seq<char>
    decreases s.len(),
{
    if s.len() == 0 {
        Seq::empty()
    } else {
        escape_quotes(s.drop_last()) + if s.last() == '"' {
            seq!['\\', '"']
        } else {
            seq![s.last()]
        }
    }
}

/// The source text of a node at nesting level `indent`, before the lines are
/// normalized. A nested stack ends with its modifier and no line break; only
/// the outermost one ends its last line.
pub open spec fn render_node(n: IRView, indent: nat) -> Seq<char>
    decreases n,
{
    let p = indentation(indent);
    match n {
        IRView::VStack(cs) => p + "VStack {\n"@ + render_all(cs, indent + 1) + p + "}\n"@ + p
            + ".padding()"@ + if indent == 0 {
            "\n"@
        } else {
            Seq::empty()
        },
        IRView::HStack(cs) => p + "HStack {\n"@ + render_all(cs, indent + 1) + p + "}\n"@ + p
            + ".padding()"@ + if indent == 0 {
            "\n"@
        } else {
            Seq::empty()
        },
        IRView::Text(t) => p + "Text(\""@ + escape_quotes(t) + "\")\n"@ + p + "    .font(.title)\n"@
            + p + "    .padding()\n"@,
        IRView::Button(t) => p + "Button(\""@ + escape_quotes(t) + "\") { }\n"@ + p
            + "    .padding()\n"@,
        IRView::Image(t) => p + "Image(\""@ + escape_quotes(t) + "\")\n"@,
        IRView::Spacer => p + "Spacer()\n"@,
    }
}

/// The source text of a list of nodes, one after the other.
pub open spec fn render_all(cs: Seq<IRView>, indent: nat) -> Seq<char>
    decreases cs,
{
    if cs.len() == 0 {
        Seq::empty()
    } else {
        render_all(cs.drop_last(), indent) + render_node(cs.last(), indent)
    }
}

/// The lines of `s`: the pieces between line breaks, without an empty piece
/// after a final break.
pub open spec fn lines(s: Seq<char>) -> Seq<Seq<char>> {
    let pieces = split(s, '\n');
    if pieces.last().len() == 0 {
        pieces.drop_last()
    } else {
        pieces
    }
}

/// The lines `ls` joined with single line breaks.
pub open spec fn join_lines(ls: Seq<Seq<char>>) -> Seq<char>
    decreases ls.len(),
{
    if ls.len() == 0 {
        Seq::empty()
    } else if ls.len() == 1 {
        ls[0]
    } else {
        join_lines(ls.drop_last()) + seq!['\n'] + ls.last()
    }
}

/// `s` with the trailing white space of every line removed, the lines joined
/// by single line breaks and no break at the end.
pub open spec fn normalize(s: Seq<char>) -> Seq<char> {
    join_lines(lines(s).map_values(|l: Seq<char>| trim_end(l)))
}

/// The final text for a tree.
pub open spec fn swiftui_text(ir: IRView) -> Seq<char> {
    normalize(render_node(ir, 0))
}

/// Removes trailing white space from each line and joins the lines with
/// single line breaks.
fn normalize_whitespace_internal(s: &str) -> (r: String)
    ensures
        r@ == normalize(s@),
{
    let v = chars_of(s);
    let pieces = split_at_char(&v, '\n');
    let ghost ps = views(pieces@);
    let mut count = pieces.len();
    assert(ps.len() == pieces@.len() && ps.len() >= 1);
    assert(ps.last() == pieces@[count - 1]@);
    if pieces[count - 1].len() == 0 {
        count -= 1;
    }
    let ghost ls = lines(s@).map_values(|l: Seq<char>| trim_end(l));
    assert(ls.len() == count);
    let mut out: Vec<char> = Vec::new();
    let mut i: usize = 0;
    assert(ls.subrange(0, 0) =~= Seq::<Seq<char>>::empty());
    while i < count
        invariant
            i <= count <= pieces.len(),
            ps == views(pieces@),
            ls.len() == count,
            forall|k: int| 0 <= k < count ==> ls[k] == trim_end(#[trigger] ps[k]),
            out@ == join_lines(ls.subrange(0, i as int)),
        decreases count - i,
    {
        assert(ps[i as int] == pieces@[i as int]@);
        let t = trimmed_end(&pieces[i]);
        let ghost before = out@;
        let ghost pre = ls.subrange(0, i as int);
        assert(ls.subrange(0, i + 1).drop_last() =~= pre);
        if i > 0 {
            out.push('\n');
        }
        push_chars(&mut out, &t);
        if i == 0 {
            assert(out@ =~= join_lines(ls.subrange(0, i + 1)));
        } else {
            assert(out@ =~= before + seq!['\n'] + t@);
        }
        i += 1;
    }
    assert(ls.subrange(0, count as int) =~= ls);
    string_of(&out)
}

/// Appends `s` with each `"` written `\"`.
fn push_escaped(out: &mut Vec<char>, s: &String)
    ensures
        final(out)@ == old(out)@ + escape_quotes(s@),
{
    let v = chars_of(s.as_str());
    let mut i: usize = 0;
    assert(v@.subrange(0, 0) =~= Seq::<char>::empty());
    assert(old(out)@ + escape_quotes(Seq::<char>::empty()) =~= old(out)@);
    while i < v.len()
        invariant
            i <= v.len(),
            out@ == old(out)@ + escape_quotes(v@.subrange(0, i as int)),
        decreases v.len() - i,
    {
        let ghost before = out@;
        assert(v@.subrange(0, i + 1).drop_last() =~= v@.subrange(0, i as int));
        if v[i] == '"' {
            out.push('\\');
            out.push('"');
            assert(out@ =~= before + seq!['\\', '"']);
        } else {
            out.push(v[i]);
            assert(out@ =~= before + seq![v@[i as int]]);
        }
        i += 1;
    }
    assert(v@.subrange(0, v.len() as int) =~= v@);
}

/// Appends the text of `ir`, whose lines are indented by `pad`.
fn render(ir: &IR, pad: &Vec<char>, indent: Ghost<nat>, out: &mut Vec<char>)
    requires
        pad@ == indentation(indent@),
    ensures
        final(out)@ == old(out)@ + render_node(ir@, indent@),
    decreases ir,
{
    let ghost p = pad@;
    match ir {
        IR::VStack(children) => {
            push_chars(out, pad);
            push_text(out, "VStack {\n");
            render_children(children, pad, indent, out);
            push_chars(out, pad);
            push_text(out, "}\n");
            push_chars(out, pad);
            push_text(out, ".padding()");
            if pad.len() == 0 {
                push_text(out, "\n");
            }
        },
        IR::HStack(children) => {
            push_chars(out, pad);
            push_text(out, "HStack {\n");
            render_children(children, pad, indent, out);
            push_chars(out, pad);
            push_text(out, "}\n");
            push_chars(out, pad);
            push_text(out, ".padding()");
            if pad.len() == 0 {
                push_text(out, "\n");
            }
        },
        IR::Text(t) => {
            push_chars(out, pad);
            push_text(out, "Text(\"");
            push_escaped(out, t);
            push_text(out, "\")\n");
            push_chars(out, pad);
            push_text(out, "    .font(.title)\n");
            push_chars(out, pad);
            push_text(out, "    .padding()\n");
        },
        IR::Button(t) => {
            push_chars(out, pad);
            push_text(out, "Button(\"");
            push_escaped(out, t);
            push_text(out, "\") { }\n");
            push_chars(out, pad);
            push_text(out, "    .padding()\n");
        },
        IR::Image(t) => {
            push_chars(out, pad);
            push_text(out, "Image(\"");
            push_escaped(out, t);
            push_text(out, "\")\n");
        },
        IR::Spacer => {
            push_chars(out, pad);
            push_text(out, "Spacer()\n");
        },
    }
}

/// Appends the text of each child, one level deeper than `pad`.
fn render_children(children: &Vec<IR>, pad: &Vec<char>, indent: Ghost<nat>, out: &mut Vec<char>)
    requires
        pad@ == indentation(indent@),
    ensures
        final(out)@ == old(out)@ + render_all(irs_view(children@), indent@ + 1),
    decreases children,
{
    let mut inner: Vec<char> = Vec::new();
    push_chars(&mut inner, pad);
    push_text(&mut inner, "    ");
    proof {
        reveal_strlit("    ");
        assert(inner@ =~= indentation(indent@ + 1));
    }
    let mut i: usize = 0;
    assert(children@.subrange(0, 0) =~= Seq::<IR>::empty());
    assert(old(out)@ + render_all(Seq::empty(), indent@ + 1) =~= old(out)@);
    while i < children.len()
        invariant
            i <= children.len(),
            inner@ == indentation(indent@ + 1),
            out@ == old(out)@ + render_all(irs_view(children@.subrange(0, i as int)), indent@ + 1),
        decreases children.len() - i,
    {
        let ghost pre = children@.subrange(0, i as int);
        assert(children@.subrange(0, i + 1) =~= pre.push(children@[i as int]));
        proof {
            crate::ast::lemma_irs_view_push(pre, children@[i as int]);
            assert(irs_view(pre).push(children@[i as int]@).drop_last() =~= irs_view(pre));
        }
        let ghost before = out@;
        render(&children[i], &inner, Ghost(indent@ + 1), out);
        assert(out@ =~= before + render_node(children@[i as int]@, indent@ + 1));
        i += 1;
    }
    assert(children@.subrange(0, children.len() as int) =~= children@);
}

/// The SwiftUI source text of a layout tree, four spaces an indentation level,
/// with no trailing white space on any line and no line break at the end.
pub fn render_swiftui(ir: &IR) -> (r: String)
    ensures
        r@ == swiftui_text(ir@),
{
    let mut out: Vec<char> = Vec::new();
    let pad: Vec<char> = Vec::new();
    assert(pad@ =~= indentation(0));
    render(ir, &pad, Ghost(0), &mut out);
    assert(out@ =~= render_node(ir@, 0));
    let text = string_of(&out);
    normalize_whitespace_internal(text.as_str())
}

} // verus!
