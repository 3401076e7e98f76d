//! Writing an [`XmlElement`] tree as indented XML text.

use vstd::prelude::*;
use crate::strmap::StrMap;
use crate::text::{chars_to_string, push_all, push_str, str_chars};
use crate::xml::{lemma_nodes_model_index, node_model, nodes_model, ElemModel, NodeModel, XmlElement, XmlNode};

verus! {

broadcast use vstd::string::group_string_axioms;

/// Two spaces per level.
pub open spec fn indent_text(level: nat) -> Seq<char>
    decreases level,
{
    if level == 0 {
        seq![]
    } else {
        indent_text((level - 1) as nat) + "  "@
    }
}

/// ` key="value"` for each attribute, in order.
pub open spec fn attrs_text(a: Seq<(Seq<char>, Seq<char>)>) -> Seq<char>
    decreases a.len(),
{
    if a.len() == 0 {
        seq![]
    } else {
        attrs_text(a.drop_last()) + " "@ + a.last().0 + "=\""@ + a.last().1 + "\""@
    }
}

/// All children are text.
pub open spec fn only_text(ns: Seq<NodeModel>) -> bool {
    forall|i: int| 0 <= i < ns.len() ==> (#[trigger] ns[i]) is Text
}

/// The text of an element at an indentation level: `<name attrs />` when it
/// has no children; otherwise its children between start and end tags, each
/// child element on a new line one level deeper, and the end tag on a line of
/// its own unless all children are text.
pub open spec fn element_text(e: ElemModel, level: nat) -> Seq<char>
    decreases e,
{
    let head = indent_text(level) + "<"@ + e.name + attrs_text(e.attrs);
    if e.children.len() == 0 {
        head + " />"@
    } else if only_text(e.children) {
        head + ">"@ + children_text(e.children, level) + "</"@ + e.name + ">"@
    } else {
        head + ">"@ + children_text(e.children, level) + "\n"@ + indent_text(level) + "</"@ + e.name
            + ">"@
    }
}

/// The children of an element written at `level`, in order.
pub open spec fn children_text(ns: Seq<NodeModel>, level: nat) -> Seq<char>
    decreases ns,
{
    if ns.len() == 0 {
        seq![]
    } else {
        children_text(ns.drop_last(), level) + node_text(ns.last(), level)
    }
}

/// A child element goes on a new line, one level deeper; text is written as is.
pub open spec fn node_text(n: NodeModel, level: nat) -> Seq<char>
    decreases n,
{
    match n {
        NodeModel::Element(e) => "\n"@ + element_text(e, level + 1),
        NodeModel::Text(t) => t,
    }
}

/// Nesting depth of elements below `e`.
pub open spec fn elem_depth(e: ElemModel) -> nat
    decreases e,
{
    nodes_depth(e.children)
}

pub open spec fn nodes_depth(ns: Seq<NodeModel>) -> nat
    decreases ns,
{
    if ns.len() == 0 {
        0
    } else {
        let d = match ns.last() {
            NodeModel::Element(c) => 1 + elem_depth(c),
            NodeModel::Text(_) => 0,
        };
        let r = nodes_depth(ns.drop_last());
        if d > r {
            d
        } else {
            r
        }
    }
}

pub proof fn lemma_nodes_depth(ns: Seq<NodeModel>, i: int)
    requires
        0 <= i < ns.len(),
    ensures
        ns[i] matches NodeModel::Element(c) ==> 1 + elem_depth(c) <= nodes_depth(ns),
    decreases ns.len(),
{
    if i < ns.len() - 1 {
        lemma_nodes_depth(ns.drop_last(), i);
    }
}

fn push_indent(out: &mut Vec<char>, level: usize)
    ensures
        final(out)@ == old(out)@ + indent_text(level as nat),
{
    let mut i: usize = 0;
    while i < level
        invariant
            i <= level,
            out@ == old(out)@ + indent_text(i as nat),
        decreases level - i,
    {
        push_str(out, "  ");
        assert(indent_text((i + 1) as nat) == indent_text(i as nat) + "  "@);
        assert(out@ =~= old(out)@ + indent_text((i + 1) as nat));
        i = i + 1;
    }
}

fn write_attrs(attrs: &StrMap<String>, out: &mut Vec<char>)
    ensures
        final(out)@ == old(out)@ + attrs_text(attrs@),
{
    let mut k: usize = 0;
    let n_attrs = attrs.len();
    while k < n_attrs
        invariant
            k <= n_attrs,
            n_attrs == attrs@.len(),
            out@ == old(out)@ + attrs_text(attrs@.take(k as int)),
        decreases n_attrs - k,
    {
        let key = str_chars(attrs.key_at(k).as_str());
        let value = str_chars(attrs.value_at(k).as_str());
        push_str(out, " ");
        push_all(out, key.as_slice());
        push_str(out, "=\"");
        push_all(out, value.as_slice());
        push_str(out, "\"");
        proof {
            assert(attrs@.take(k + 1).drop_last() =~= attrs@.take(k as int));
            assert(out@ =~= old(out)@ + attrs_text(attrs@.take(k + 1)));
        }
        k = k + 1;
    }
    assert(attrs@.take(n_attrs as int) =~= attrs@);
}

proof fn lemma_only_text_push(ns: Seq<NodeModel>, n: NodeModel)
    ensures
        only_text(ns.push(n)) == (only_text(ns) && n is Text),
{
    if only_text(ns) && n is Text {
        assert forall|j: int| 0 <= j < ns.len() + 1 implies (#[trigger] ns.push(n)[j]) is Text by {
            if j < ns.len() {
                assert(ns.push(n)[j] == ns[j]);
            }
        }
    } else if !only_text(ns) {
        let j = choose|j: int| 0 <= j < ns.len() && !(#[trigger] ns[j] is Text);
        assert(ns.push(n)[j] == ns[j]);
    } else {
        assert(ns.push(n)[ns.len() as int] == n);
    }
}

fn write_children(children: &Vec<XmlNode>, level: usize, out: &mut Vec<char>) -> (only: bool)
    requires
        level + nodes_depth(nodes_model(children@)) <= usize::MAX,
    ensures
        final(out)@ == old(out)@ + children_text(nodes_model(children@), level as nat),
        only == only_text(nodes_model(children@)),
    decreases children,
{
    let ghost ms = nodes_model(children@);
    proof {
        lemma_nodes_model_index(children@);
    }
    let mut only = true;
    let mut i: usize = 0;
    while i < children.len()
        invariant
            i <= children@.len(),
            ms == nodes_model(children@),
            ms.len() == children@.len(),
            forall|j: int| 0 <= j < children@.len() ==> #[trigger] ms[j] == node_model(children@[j]),
            level + nodes_depth(ms) <= usize::MAX,
            out@ == old(out)@ + children_text(ms.take(i as int), level as nat),
            only == only_text(ms.take(i as int)),
        decreases children.len() - i,
    {
        let ghost before = out@;
        proof {
            assert(ms.take(i + 1).drop_last() =~= ms.take(i as int));
            assert(ms.take(i + 1) =~= ms.take(i as int).push(ms[i as int]));
            lemma_only_text_push(ms.take(i as int), ms[i as int]);
        }
        match &children[i] {
            XmlNode::Element(c) => {
                only = false;
                proof {
                    lemma_nodes_depth(ms, i as int);
                }
                push_str(out, "\n");
                write_element(c, level + 1, out);
            },
            XmlNode::Text(t) => {
                let tc = str_chars(t.as_str());
                push_all(out, tc.as_slice());
            },
        }
        assert(out@ =~= before + node_text(ms[i as int], level as nat));
        assert(out@ =~= old(out)@ + children_text(ms.take(i + 1), level as nat));
        i = i + 1;
    }
    assert(ms.take(i as int) =~= ms);
    only
}

fn write_element(e: &XmlElement, level: usize, out: &mut Vec<char>)
    requires
        level + elem_depth(e@) <= usize::MAX,
    ensures
        final(out)@ == old(out)@ + element_text(e@, level as nat),
    decreases e,
{
    let ghost m = e@;
    let name = str_chars(e.name.as_str());
    push_indent(out, level);
    push_str(out, "<");
    push_all(out, name.as_slice());
    write_attrs(&e.attributes, out);
    let ghost head = out@;
    assert(head =~= old(out)@ + (indent_text(level as nat) + "<"@ + m.name + attrs_text(m.attrs)));
    proof {
        lemma_nodes_model_index(e.children@);
    }
    if e.children.len() == 0 {
        push_str(out, " />");
        assert(out@ =~= old(out)@ + element_text(m, level as nat));
        return ;
    }
    push_str(out, ">");
    let only = write_children(&e.children, level, out);
    if only {
        push_str(out, "</");
        push_all(out, name.as_slice());
        push_str(out, ">");
    } else {
        push_str(out, "\n");
        push_indent(out, level);
        push_str(out, "</");
        push_all(out, name.as_slice());
        push_str(out, ">");
    }
    assert(out@ =~= old(out)@ + element_text(m, level as nat));
}

/// Writes an element as indented XML text, starting at `indent_level`.
/// Attributes appear in ascending key order.
pub fn serialize_xml(element: &XmlElement, indent_level: usize) -> (r: String)
    requires
        indent_level + elem_depth(element@) <= usize::MAX,
    ensures
        r@ == element_text(element@, indent_level as nat),
{
    let mut out: Vec<char> = Vec::new();
    write_element(element, indent_level, &mut out);
    assert(out@ =~= element_text(element@, indent_level as nat));
    chars_to_string(out.as_slice())
}

} // verus!
