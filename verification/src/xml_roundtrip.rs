//! Reading back written XML: for elements whose names, attributes and text
//! the writer can represent, parsing the written text gives the element back.

use vstd::prelude::*;
use crate::strmap::{keys_sorted, map_insert};
use crate::text::{
    all_ws, is_ws, lemma_text_lt_asymmetric, lemma_text_lt_irreflexive, text_lt, trim,
    ws_prefix_len, ws_suffix_len,
};
use crate::xml::{ElemModel, NodeModel};
use crate::strmap::{lemma_map_insert_get, map_get};
use crate::xml_crypt::{
    child_inverts, decrypt_nodes, encrypt_nodes, lemma_decrypt_encrypt_nodes, min_loader_version,
    reparse_nodes, transformed_attrs,
};
use crate::xml_parse::{parse_attrs, parse_children, parse_element, scan, skip_ws, stops_at, Stop};
use crate::xml_write::{attrs_text, children_text, element_text, indent_text, node_text, only_text};

verus! {

// ---------------------------------------------------------------------------
// What the writer can represent
// ---------------------------------------------------------------------------

/// A tag name the parser reads back whole: no whitespace, `>` or `/`, and
/// not starting like a comment or declaration.
pub open spec fn name_ok(n: Seq<char>) -> bool {
    &&& forall|i: int| 0 <= i < n.len() ==> !stops_at(Stop::Name, #[trigger] n[i])
    &&& n.len() > 0 ==> n[0] != '!' && n[0] != '?'
}

/// Attributes in key order, keys without whitespace, `=`, `>` or `/`, values
/// without `"`.
pub open spec fn attrs_ok(a: Seq<(Seq<char>, Seq<char>)>) -> bool {
    &&& keys_sorted(a)
    &&& forall|i: int, j: int|
        0 <= i < a.len() && 0 <= j < a[i].0.len() ==> !stops_at(Stop::AttrName, #[trigger] a[i].0[j])
    &&& forall|i: int, j: int| 0 <= i < a.len() && 0 <= j < a[i].1.len() ==> #[trigger] a[i].1[j] != '"'
}

/// Text that is read back as one text node: no `<` and not only whitespace.
pub open spec fn text_ok(t: Seq<char>) -> bool {
    &&& forall|j: int| 0 <= j < t.len() ==> #[trigger] t[j] != '<'
    &&& !all_ws(t)
}

/// An element the writer can represent: a readable name and attributes, and
/// as children either one readable text or only such elements.
pub open spec fn serializable(e: ElemModel) -> bool
    decreases e,
{
    &&& name_ok(e.name)
    &&& attrs_ok(e.attrs)
    &&& (one_text_ok(e.children) || elems_serializable(e.children))
}

/// A single text node that is read back as it is.
pub open spec fn one_text_ok(ns: Seq<NodeModel>) -> bool {
    ns.len() == 1 && match ns[0] {
        NodeModel::Text(t) => text_ok(t),
        NodeModel::Element(_) => false,
    }
}

/// Every node is an element the writer can represent.
pub open spec fn elems_serializable(ns: Seq<NodeModel>) -> bool
    decreases ns,
{
    if ns.len() == 0 {
        true
    } else {
        &&& match ns[0] {
            NodeModel::Element(x) => serializable(x),
            NodeModel::Text(_) => false,
        }
        &&& elems_serializable(ns.drop_first())
    }
}

// ---------------------------------------------------------------------------
// Positions in text
// ---------------------------------------------------------------------------

/// `s` stands in `c` at `pos`.
pub open spec fn at(c: Seq<char>, pos: int, s: Seq<char>) -> bool {
    0 <= pos && pos + s.len() <= c.len() && c.subrange(pos, pos + s.len()) == s
}

proof fn lemma_at_split(c: Seq<char>, pos: int, x: Seq<char>, y: Seq<char>)
    requires
        at(c, pos, x + y),
    ensures
        at(c, pos, x),
        at(c, pos + x.len(), y),
{
    let xy = x + y;
    assert forall|i: int| 0 <= i < x.len() implies c.subrange(pos, pos + x.len())[i] == x[i] by {
        assert(c.subrange(pos, pos + xy.len())[i] == xy[i]);
    }
    assert(c.subrange(pos, pos + x.len()) =~= x);
    assert forall|i: int| 0 <= i < y.len() implies c.subrange(pos + x.len(), pos + x.len() + y.len())[i]
        == y[i] by {
        assert(c.subrange(pos, pos + xy.len())[x.len() + i] == xy[x.len() + i]);
    }
    assert(c.subrange(pos + x.len(), pos + x.len() + y.len()) =~= y);
}

proof fn lemma_at_index(c: Seq<char>, pos: int, s: Seq<char>, i: int)
    requires
        at(c, pos, s),
        0 <= i < s.len(),
    ensures
        c[pos + i] == s[i],
{
    assert(c.subrange(pos, pos + s.len())[i] == s[i]);
}

proof fn lemma_scan_over(c: Seq<char>, pos: int, s: Seq<char>, k: Stop)
    requires
        at(c, pos, s),
        forall|j: int| 0 <= j < s.len() ==> !stops_at(k, #[trigger] s[j]),
        pos + s.len() < c.len(),
        stops_at(k, c[pos + s.len()]),
    ensures
        scan(c, pos, k) == pos + s.len(),
    decreases s.len(),
{
    if s.len() > 0 {
        lemma_at_index(c, pos, s, 0);
        assert(s =~= s.take(1) + s.skip(1));
        lemma_at_split(c, pos, s.take(1), s.skip(1));
        assert forall|j: int| 0 <= j < s.skip(1).len() implies !stops_at(k, #[trigger] s.skip(1)[j]) by {
            assert(s.skip(1)[j] == s[j + 1]);
        }
        lemma_scan_over(c, pos + 1, s.skip(1), k);
    }
}

proof fn lemma_skip_ws_over(c: Seq<char>, pos: int, s: Seq<char>)
    requires
        at(c, pos, s),
        all_ws(s),
        pos + s.len() < c.len(),
        !is_ws(c[pos + s.len()]),
    ensures
        skip_ws(c, pos) == pos + s.len(),
    decreases s.len(),
{
    if s.len() > 0 {
        lemma_at_index(c, pos, s, 0);
        assert(s =~= s.take(1) + s.skip(1));
        lemma_at_split(c, pos, s.take(1), s.skip(1));
        assert forall|j: int| 0 <= j < s.skip(1).len() implies is_ws(#[trigger] s.skip(1)[j]) by {
            assert(s.skip(1)[j] == s[j + 1]);
        }
        lemma_skip_ws_over(c, pos + 1, s.skip(1));
    }
}

proof fn lemma_indent(level: nat)
    ensures
        indent_text(level).len() == 2 * level,
        forall|j: int| 0 <= j < indent_text(level).len() ==> #[trigger] indent_text(level)[j] == ' ',
    decreases level,
{
    reveal_strlit("  ");
    if level > 0 {
        lemma_indent((level - 1) as nat);
        let a = indent_text((level - 1) as nat);
        assert forall|j: int| 0 <= j < indent_text(level).len() implies #[trigger] indent_text(level)[j]
            == ' ' by {
            if j < a.len() {
                assert(indent_text(level)[j] == a[j]);
            } else {
                assert(indent_text(level)[j] == "  "@[j - a.len()]);
            }
        }
    }
}

proof fn lemma_indent_ws(level: nat)
    ensures
        all_ws(indent_text(level)),
{
    lemma_indent(level);
    assert forall|j: int| 0 <= j < indent_text(level).len() implies is_ws(#[trigger] indent_text(level)[j]) by {
        assert(indent_text(level)[j] == ' ');
    }
}

// ---------------------------------------------------------------------------
// Attributes
// ---------------------------------------------------------------------------

proof fn lemma_attrs_text_front(a: Seq<(Seq<char>, Seq<char>)>)
    requires
        a.len() > 0,
    ensures
        attrs_text(a) == " "@ + a[0].0 + "=\""@ + a[0].1 + "\""@ + attrs_text(a.drop_first()),
    decreases a.len(),
{
    if a.len() == 1 {
        assert(a.drop_last() =~= Seq::<(Seq<char>, Seq<char>)>::empty());
        assert(a.drop_first() =~= Seq::<(Seq<char>, Seq<char>)>::empty());
        assert(attrs_text(a) =~= " "@ + a[0].0 + "=\""@ + a[0].1 + "\""@ + attrs_text(a.drop_first()));
    } else {
        lemma_attrs_text_front(a.drop_last());
        assert(a.drop_last().drop_first() =~= a.drop_first().drop_last());
        assert(a.drop_first().last() == a.last());
        assert(attrs_text(a) =~= " "@ + a[0].0 + "=\""@ + a[0].1 + "\""@ + attrs_text(a.drop_first()));
    }
}

proof fn lemma_map_insert_greatest(s: Seq<(Seq<char>, Seq<char>)>, k: Seq<char>, v: Seq<char>)
    requires
        forall|i: int| 0 <= i < s.len() ==> text_lt(#[trigger] s[i].0, k),
    ensures
        map_insert(s, k, v) == s.push((k, v)),
    decreases s.len(),
{
    if s.len() > 0 {
        assert(text_lt(s[0].0, k));
        lemma_text_lt_irreflexive(k);
        lemma_text_lt_asymmetric(s[0].0, k);
        assert forall|i: int| 0 <= i < s.drop_first().len() implies text_lt(#[trigger] s.drop_first()[i].0, k) by {
            assert(s.drop_first()[i] == s[i + 1]);
        }
        lemma_map_insert_greatest(s.drop_first(), k, v);
        assert(seq![s[0]] + s.drop_first().push((k, v)) =~= s.push((k, v)));
    }
}

/// The written attributes, followed by `end` (` />` or `>`), are read back
/// in order after those already read.
proof fn lemma_parse_attrs_text(
    c: Seq<char>,
    q: int,
    a: Seq<(Seq<char>, Seq<char>)>,
    acc: Seq<(Seq<char>, Seq<char>)>,
    end: Seq<char>,
)
    requires
        end == " />"@ || end == ">"@,
        attrs_ok(a),
        keys_sorted(acc + a),
        at(c, q, attrs_text(a) + end),
    ensures
        parse_attrs(c, q, acc) == Ok::<(Seq<(Seq<char>, Seq<char>)>, int, bool), Seq<char>>(
            (acc + a, q + attrs_text(a).len() + end.len(), end == " />"@),
        ),
    decreases a.len(),
{
    reveal_strlit(" />");
    reveal_strlit(">");
    reveal_strlit(" ");
    reveal_strlit("=\"");
    reveal_strlit("\"");
    if a.len() == 0 {
        assert(attrs_text(a) =~= Seq::<char>::empty());
        assert(attrs_text(a) + end =~= end);
        assert(acc + a =~= acc);
        if end == " />"@ {
            lemma_at_index(c, q, end, 0);
            lemma_at_index(c, q, end, 1);
            lemma_at_index(c, q, end, 2);
            assert(at(c, q, " "@)) by {
                reveal_strlit("/>");
                assert(" "@ + "/>"@ =~= " />"@);
                lemma_at_split(c, q, " "@, "/>"@);
            }
            lemma_skip_ws_over(c, q, " "@);
        } else {
            lemma_at_index(c, q, end, 0);
            assert(skip_ws(c, q) == q);
        }
    } else {
        let k = a[0].0;
        let v = a[0].1;
        let rest = attrs_text(a.drop_first()) + end;
        lemma_attrs_text_front(a);
        let whole = " "@ + k + "=\""@ + v + "\""@ + rest;
        assert(attrs_text(a) + end =~= whole);
        assert(whole =~= " "@ + (k + ("=\""@ + (v + ("\""@ + rest)))));
        lemma_at_split(c, q, " "@, k + ("=\""@ + (v + ("\""@ + rest))));
        lemma_at_split(c, q + 1, k, "=\""@ + (v + ("\""@ + rest)));
        let pe = q + 1 + k.len();
        lemma_at_split(c, pe, "=\""@, v + ("\""@ + rest));
        lemma_at_split(c, pe + 2, v, "\""@ + rest);
        let ve = pe + 2 + v.len();
        lemma_at_split(c, ve, "\""@, rest);
        lemma_at_index(c, pe, "=\""@, 0);
        lemma_at_index(c, pe, "=\""@, 1);
        lemma_at_index(c, ve, "\""@, 0);
        // The space before the key is skipped; the key does not start a tag end.
        lemma_at_index(c, q, " "@, 0);
        if k.len() > 0 {
            lemma_at_index(c, q + 1, k, 0);
            assert(!stops_at(Stop::AttrName, a[0].0[0]));
        }
        lemma_skip_ws_over(c, q, " "@);
        lemma_scan_over(c, q + 1, k, Stop::AttrName);
        assert(skip_ws(c, pe) == pe);
        assert(skip_ws(c, pe + 1) == pe + 1);
        assert forall|j: int| 0 <= j < v.len() implies !stops_at(Stop::Quote('"'), #[trigger] v[j]) by {
            assert(a[0].1[j] != '"');
        }
        lemma_scan_over(c, pe + 2, v, Stop::Quote('"'));
        assert(c.subrange(q + 1, pe) == k);
        assert(c.subrange(pe + 2, ve) == v);
        // The key is larger than every key read so far.
        assert forall|i: int| 0 <= i < acc.len() implies text_lt(#[trigger] acc[i].0, k) by {
            assert((acc + a)[i] == acc[i]);
            assert((acc + a)[acc.len() as int] == a[0]);
        }
        lemma_map_insert_greatest(acc, k, v);
        assert(acc.push((k, v)) + a.drop_first() =~= acc + a);
        assert(attrs_ok(a.drop_first())) by {
            assert forall|i: int, j: int| 0 <= i < a.drop_first().len() && 0 <= j < a.drop_first()[i].0.len()
                implies !stops_at(Stop::AttrName, #[trigger] a.drop_first()[i].0[j]) by {
                assert(a.drop_first()[i] == a[i + 1]);
            }
            assert forall|i: int, j: int| 0 <= i < a.drop_first().len() && 0 <= j < a.drop_first()[i].1.len()
                implies #[trigger] a.drop_first()[i].1[j] != '"' by {
                assert(a.drop_first()[i] == a[i + 1]);
            }
            assert forall|i: int, j: int| 0 <= i < j < a.drop_first().len() implies text_lt(
                #[trigger] a.drop_first()[i].0,
                #[trigger] a.drop_first()[j].0,
            ) by {
                assert(a.drop_first()[i] == a[i + 1]);
                assert(a.drop_first()[j] == a[j + 1]);
            }
        }
        lemma_parse_attrs_text(c, ve + 1, a.drop_first(), acc.push((k, v)), end);
    }
}

// ---------------------------------------------------------------------------
// Elements
// ---------------------------------------------------------------------------

proof fn lemma_at_skip(c: Seq<char>, p: int, s: Seq<char>, k: int)
    requires
        at(c, p, s),
        0 <= k <= s.len(),
    ensures
        at(c, p + k, s.skip(k)),
{
    assert(s =~= s.take(k) + s.skip(k));
    lemma_at_split(c, p, s.take(k), s.skip(k));
}

proof fn lemma_trim_no_ws(s: Seq<char>)
    requires
        forall|i: int| 0 <= i < s.len() ==> !is_ws(#[trigger] s[i]),
    ensures
        trim(s) == s,
{
    assert(ws_prefix_len(s) == 0);
    assert(s.skip(0) =~= s);
    assert(ws_suffix_len(s) == 0);
    assert(s.take(s.len() as int) =~= s);
}

proof fn lemma_children_text_front(ns: Seq<NodeModel>, level: nat)
    requires
        ns.len() > 0,
    ensures
        children_text(ns, level) == node_text(ns[0], level) + children_text(ns.drop_first(), level),
    decreases ns.len(),
{
    if ns.len() == 1 {
        assert(ns.drop_last() =~= Seq::<NodeModel>::empty());
        assert(ns.drop_first() =~= Seq::<NodeModel>::empty());
        assert(children_text(ns, level) =~= node_text(ns[0], level) + children_text(ns.drop_first(), level));
    } else {
        lemma_children_text_front(ns.drop_last(), level);
        assert(ns.drop_last().drop_first() =~= ns.drop_first().drop_last());
        assert(ns.drop_first().last() == ns.last());
        assert(children_text(ns, level) =~= node_text(ns[0], level) + children_text(ns.drop_first(), level));
    }
}

/// The end of an element with child elements: a new line, the indentation
/// and the end tag.
pub open spec fn close_tail(name: Seq<char>, level: nat) -> Seq<char> {
    "\n"@ + indent_text(level) + "</"@ + name + ">"@
}

/// At an end tag `</name>` after text `tx` from `q`, the children read so
/// far are complete; text that is not only whitespace is one more child.
proof fn lemma_parse_close(c: Seq<char>, q: int, tx: Seq<char>, name: Seq<char>, acc: Seq<NodeModel>)
    requires
        name_ok(name),
        forall|j: int| 0 <= j < tx.len() ==> #[trigger] tx[j] != '<',
        at(c, q, tx + "</"@ + name + ">"@),
    ensures
        parse_children(c, q, name, acc) == Ok::<(Seq<NodeModel>, int), Seq<char>>(
            (
                if all_ws(tx) {
                    acc
                } else {
                    acc.push(NodeModel::Text(tx))
                },
                q + tx.len() + 3 + name.len(),
            ),
        ),
{
    reveal_strlit("</");
    reveal_strlit(">");
    let te = q + tx.len();
    assert(tx + "</"@ + name + ">"@ =~= tx + ("</"@ + (name + ">"@)));
    lemma_at_split(c, q, tx, "</"@ + (name + ">"@));
    lemma_at_split(c, te, "</"@, name + ">"@);
    lemma_at_split(c, te + 2, name, ">"@);
    lemma_at_index(c, te, "</"@, 0);
    lemma_at_index(c, te, "</"@, 1);
    lemma_at_index(c, te + 2 + name.len(), ">"@, 0);
    assert forall|j: int| 0 <= j < tx.len() implies !stops_at(Stop::Text, #[trigger] tx[j]) by {
        assert(tx[j] != '<');
    }
    lemma_scan_over(c, q, tx, Stop::Text);
    assert forall|j: int| 0 <= j < name.len() implies !stops_at(Stop::Gt, #[trigger] name[j]) by {
        assert(!stops_at(Stop::Name, name[j]));
    }
    lemma_scan_over(c, te + 2, name, Stop::Gt);
    assert forall|j: int| 0 <= j < name.len() implies !is_ws(#[trigger] name[j]) by {
        assert(!stops_at(Stop::Name, name[j]));
    }
    lemma_trim_no_ws(name);
    assert(c.subrange(q, te) == tx);
}

/// Written child elements followed by the end tag are read back in order
/// after those already read.
proof fn lemma_parse_children_text(
    c: Seq<char>,
    q: int,
    name: Seq<char>,
    ns: Seq<NodeModel>,
    level: nat,
    acc: Seq<NodeModel>,
)
    requires
        name_ok(name),
        elems_serializable(ns),
        at(c, q, children_text(ns, level) + close_tail(name, level)),
    ensures
        parse_children(c, q, name, acc) == Ok::<(Seq<NodeModel>, int), Seq<char>>(
            (acc + ns, q + children_text(ns, level).len() + close_tail(name, level).len()),
        ),
    decreases ns,
{
    reveal_strlit("\n");
    reveal_strlit("</");
    reveal_strlit(">");
    lemma_indent_ws(level);
    if ns.len() == 0 {
        assert(children_text(ns, level) =~= Seq::<char>::empty());
        let ws = "\n"@ + indent_text(level);
        assert(all_ws(ws)) by {
            assert forall|j: int| 0 <= j < ws.len() implies is_ws(#[trigger] ws[j]) by {
                if j > 0 {
                    assert(ws[j] == indent_text(level)[j - 1]);
                }
            }
        }
        assert(children_text(ns, level) + close_tail(name, level) =~= ws + "</"@ + name + ">"@);
        assert forall|j: int| 0 <= j < ws.len() implies #[trigger] ws[j] != '<' by {
            assert(is_ws(ws[j]));
        }
        lemma_parse_close(c, q, ws, name, acc);
        assert(acc + ns =~= acc);
    } else {
        let x = match ns[0] {
            NodeModel::Element(x) => x,
            NodeModel::Text(_) => arbitrary(),
        };
        assert(ns[0] == NodeModel::Element(x));
        assert(serializable(x));
        lemma_children_text_front(ns, level);
        let et = element_text(x, level + 1);
        let rest = children_text(ns.drop_first(), level) + close_tail(name, level);
        assert(children_text(ns, level) + close_tail(name, level) =~= "\n"@ + (et + rest));
        lemma_at_split(c, q, "\n"@, et + rest);
        lemma_at_split(c, q + 1, et, rest);
        lemma_at_index(c, q, "\n"@, 0);
        // The text before the child is the line break and the indentation.
        let ind = indent_text(level + 1);
        lemma_indent_ws(level + 1);
        lemma_element_text_starts(x, level + 1);
        assert(et =~= ind + et.skip(ind.len() as int));
        lemma_at_split(c, q + 1, ind, et.skip(ind.len() as int));
        let ws = "\n"@ + ind;
        assert(all_ws(ws)) by {
            assert forall|j: int| 0 <= j < ws.len() implies is_ws(#[trigger] ws[j]) by {
                if j > 0 {
                    assert(ws[j] == ind[j - 1]);
                }
            }
        }
        let te = q + 1 + ind.len();
        lemma_at_index(c, q + 1, et, ind.len() as int);
        lemma_at_index(c, q + 1, et, ind.len() + 1int);
        assert(at(c, q, ws)) by {
            assert(c.subrange(q, q + ws.len()) =~= ws) by {
                assert forall|j: int| 0 <= j < ws.len() implies c.subrange(q, q + ws.len())[j] == ws[j] by {
                    if j == 0 {
                        lemma_at_index(c, q, "\n"@, 0);
                    } else {
                        lemma_at_index(c, q + 1, ind, j - 1);
                    }
                }
            }
        }
        assert forall|j: int| 0 <= j < ws.len() implies !stops_at(Stop::Text, #[trigger] ws[j]) by {
            assert(is_ws(ws[j]));
        }
        lemma_scan_over(c, q, ws, Stop::Text);
        assert(c.subrange(q, te) == ws);
        assert(decreases_to!(ns => ns[0]));
        lemma_parse_element_text(c, q + 1, x, level + 1, te);
        let e2 = q + 1 + et.len();
        assert(elems_serializable(ns.drop_first()));
        lemma_parse_children_text(c, e2, name, ns.drop_first(), level, acc.push(NodeModel::Element(x)));
        assert(acc.push(NodeModel::Element(x)) + ns.drop_first() =~= acc + ns);
    }
}

/// The written text of an element starts with its indentation, then `<`,
/// then a character that does not start a comment, declaration or end tag.
proof fn lemma_element_text_starts(e: ElemModel, level: nat)
    requires
        name_ok(e.name),
    ensures
        element_text(e, level).len() > indent_text(level).len() + 1,
        element_text(e, level).take(indent_text(level).len() as int) == indent_text(level),
        element_text(e, level)[indent_text(level).len() as int] == '<',
        element_text(e, level)[indent_text(level).len() + 1int] != '!',
        element_text(e, level)[indent_text(level).len() + 1int] != '?',
        element_text(e, level)[indent_text(level).len() + 1int] != '/',
{
    reveal_strlit("<");
    reveal_strlit(" />");
    reveal_strlit(">");
    reveal_strlit(" ");
    let i = indent_text(level);
    let et = element_text(e, level);
    let head = i + "<"@ + e.name + attrs_text(e.attrs);
    assert(et.take(i.len() as int) =~= i);
    assert(et[i.len() as int] == '<');
    if e.name.len() > 0 {
        assert(et[i.len() + 1int] == e.name[0]);
        assert(!stops_at(Stop::Name, e.name[0]));
    } else if e.attrs.len() > 0 {
        lemma_attrs_text_front(e.attrs);
        assert(et[i.len() + 1int] == attrs_text(e.attrs)[0]);
    } else {
        assert(attrs_text(e.attrs) =~= Seq::<char>::empty());
    }
}

/// The start tag of a written element, followed by `end` and then `body`:
/// the indentation is skipped, the name and the attributes are read, and
/// `body` follows the tag.
proof fn lemma_parse_start_tag(
    c: Seq<char>,
    p: int,
    e: ElemModel,
    level: nat,
    t: int,
    end: Seq<char>,
    body: Seq<char>,
)
    requires
        name_ok(e.name),
        attrs_ok(e.attrs),
        end == " />"@ || end == ">"@,
        at(c, p, indent_text(level) + "<"@ + e.name + attrs_text(e.attrs) + end + body),
        p <= t <= p + indent_text(level).len(),
    ensures
        ({
            let p0 = p + indent_text(level).len();
            let ne = p0 + 1 + e.name.len();
            let q = ne + attrs_text(e.attrs).len() + end.len();
            &&& skip_ws(c, t) == p0
            &&& c[p0] == '<'
            &&& p0 + 1 < c.len()
            &&& c[p0 + 1] != '!'
            &&& c[p0 + 1] != '?'
            &&& scan(c, p0 + 1, Stop::Name) == ne
            &&& c.subrange(p0 + 1, ne) == e.name
            &&& parse_attrs(c, ne, seq![]) == Ok::<(Seq<(Seq<char>, Seq<char>)>, int, bool), Seq<char>>(
                (e.attrs, q, end == " />"@),
            )
            &&& at(c, q, body)
        }),
{
    reveal_strlit("<");
    reveal_strlit(" />");
    reveal_strlit(">");
    reveal_strlit(" ");
    let i = indent_text(level);
    let n = e.name;
    let a = attrs_text(e.attrs);
    lemma_indent_ws(level);
    let whole = indent_text(level) + "<"@ + e.name + attrs_text(e.attrs) + end + body;
    assert(whole =~= i + ("<"@ + (n + ((a + end) + body))));
    lemma_at_split(c, p, i, "<"@ + (n + ((a + end) + body)));
    let p0 = p + i.len();
    let p1 = p0 + 1;
    lemma_at_split(c, p0, "<"@, n + ((a + end) + body));
    lemma_at_split(c, p1, n, (a + end) + body);
    let ne = p1 + n.len();
    lemma_at_split(c, ne, a + end, body);
    lemma_at_index(c, p0, "<"@, 0);
    // The indentation is skipped up to `<`.
    lemma_at_skip(c, p, i, t - p);
    assert(all_ws(i.skip(t - p))) by {
        assert forall|j: int| 0 <= j < i.skip(t - p).len() implies is_ws(#[trigger] i.skip(t - p)[j]) by {
            assert(i.skip(t - p)[j] == i[j + t - p]);
        }
    }
    lemma_skip_ws_over(c, t, i.skip(t - p));
    // The character after `<` and the one after the name.
    lemma_at_index(c, ne, a + end, 0);
    if a.len() > 0 {
        lemma_attrs_text_front(e.attrs);
        assert((a + end)[0] == ' ');
    } else {
        assert((a + end)[0] == end[0]);
    }
    if n.len() > 0 {
        lemma_at_index(c, p1, n, 0);
    }
    lemma_scan_over(c, p1, n, Stop::Name);
    assert(seq![] + e.attrs =~= e.attrs);
    lemma_parse_attrs_text(c, ne, e.attrs, seq![], end);
}

/// A written element is read back whole, from anywhere within its
/// indentation.
proof fn lemma_parse_element_text(c: Seq<char>, p: int, e: ElemModel, level: nat, t: int)
    requires
        serializable(e),
        at(c, p, element_text(e, level)),
        p <= t <= p + indent_text(level).len(),
    ensures
        parse_element(c, t) == Ok::<(ElemModel, int), Seq<char>>((e, p + element_text(e, level).len())),
    decreases e,
{
    reveal_strlit(" />");
    reveal_strlit(">");
    reveal_strlit("<");
    reveal_strlit("</");
    let n = e.name;
    let head = indent_text(level) + "<"@ + e.name + attrs_text(e.attrs);
    let q0 = p + head.len();
    if e.children.len() == 0 {
        assert(element_text(e, level) =~= head + " />"@ + Seq::<char>::empty());
        lemma_parse_start_tag(c, p, e, level, t, " />"@, Seq::<char>::empty());
        assert(e.children =~= Seq::<NodeModel>::empty());
        assert(e == ElemModel { name: n, attrs: e.attrs, children: seq![] });
    } else if one_text_ok(e.children) {
        let tx = match e.children[0] {
            NodeModel::Text(tx) => tx,
            NodeModel::Element(_) => arbitrary(),
        };
        assert(e.children[0] == NodeModel::Text(tx));
        assert(only_text(e.children));
        assert(children_text(e.children, level) == tx) by {
            assert(e.children.drop_last() =~= Seq::<NodeModel>::empty());
            assert(children_text(e.children.drop_last(), level) =~= Seq::<char>::empty());
        }
        let body = tx + "</"@ + n + ">"@;
        assert(element_text(e, level) =~= head + ">"@ + body);
        lemma_parse_start_tag(c, p, e, level, t, ">"@, body);
        lemma_parse_close(c, q0 + 1, tx, n, seq![]);
        assert(Seq::<NodeModel>::empty().push(NodeModel::Text(tx)) =~= e.children);
    } else {
        assert(elems_serializable(e.children));
        assert(!only_text(e.children)) by {
            assert(!(e.children[0] is Text));
        }
        let body = children_text(e.children, level) + close_tail(n, level);
        assert(element_text(e, level) =~= head + ">"@ + body);
        lemma_parse_start_tag(c, p, e, level, t, ">"@, body);
        assert(decreases_to!(e => e.children));
        lemma_parse_children_text(c, q0 + 1, n, e.children, level, seq![]);
        assert(Seq::<NodeModel>::empty() + e.children =~= e.children);
    }
}

/// Parsing the written text of an element the writer can represent, at any
/// indentation level, gives the element back and consumes the whole text.
pub proof fn lemma_parse_serialized(e: ElemModel, level: nat)
    requires
        serializable(e),
    ensures
        parse_element(element_text(e, level), 0) == Ok::<(ElemModel, int), Seq<char>>(
            (e, element_text(e, level).len() as int),
        ),
{
    let c = element_text(e, level);
    assert(c.subrange(0, c.len() as int) =~= c);
    lemma_parse_element_text(c, 0, e, level, 0);
}

// ---------------------------------------------------------------------------
// Encrypted children
// ---------------------------------------------------------------------------

/// The element children, in order.
pub open spec fn element_nodes(ns: Seq<NodeModel>) -> Seq<NodeModel>
    decreases ns.len(),
{
    if ns.len() == 0 {
        seq![]
    } else {
        (match ns[0] {
            NodeModel::Element(_) => seq![ns[0]],
            NodeModel::Text(_) => seq![],
        }) + element_nodes(ns.drop_first())
    }
}

/// Every element child is one the writer can represent.
pub open spec fn element_children_ok(ns: Seq<NodeModel>) -> bool {
    forall|i: int| 0 <= i < ns.len() ==> (#[trigger] ns[i] matches NodeModel::Element(x) ==> serializable(x))
}

/// Writing each element child and parsing it again gives the element
/// children back.
pub proof fn lemma_reparse_nodes(ns: Seq<NodeModel>)
    requires
        element_children_ok(ns),
    ensures
        reparse_nodes(ns) == Ok::<Seq<NodeModel>, Seq<char>>(element_nodes(ns)),
    decreases ns.len(),
{
    if ns.len() > 0 {
        assert(element_children_ok(ns.drop_first())) by {
            assert forall|i: int| 0 <= i < ns.drop_first().len() implies (#[trigger] ns.drop_first()[i] matches NodeModel::Element(x)
                ==> serializable(x)) by {
                assert(ns.drop_first()[i] == ns[i + 1]);
            }
        }
        lemma_reparse_nodes(ns.drop_first());
        match ns[0] {
            NodeModel::Element(e) => {
                lemma_parse_serialized(e, 0);
            },
            NodeModel::Text(_) => {},
        }
    }
}

/// Decrypting the children that encryption writes gives back the element
/// children of the original, where the writer can represent them and the
/// cipher gives each plaintext back.
pub proof fn lemma_decrypt_encrypted_children(ns: Seq<NodeModel>, key: Seq<u8>, iv: Seq<u8>)
    requires
        iv.len() == 16,
        forall|j: int| 0 <= j < ns.len() ==> child_inverts(#[trigger] ns[j], key, iv),
        element_children_ok(ns),
    ensures
        decrypt_nodes(encrypt_nodes(ns, key, iv), key) == Ok::<Seq<NodeModel>, Seq<char>>(element_nodes(ns)),
{
    lemma_decrypt_encrypt_nodes(ns, key, iv);
    lemma_reparse_nodes(ns);
}

pub proof fn lemma_element_nodes_nonempty(ns: Seq<NodeModel>, j: int)
    requires
        0 <= j < ns.len(),
        ns[j] is Element,
    ensures
        element_nodes(ns).len() > 0,
    decreases ns.len(),
{
    if j > 0 && !(ns[0] is Element) {
        assert(ns.drop_first()[j - 1] == ns[j]);
        lemma_element_nodes_nonempty(ns.drop_first(), j - 1);
    }
}

/// Decrypting a root that encryption made gives back the original: its name,
/// its element children in order, and its attributes with `Cryptography` set
/// to `Decrypted` and `MinLoaderVersion` kept (or set to its default). This
/// holds where the writer can represent the children and the cipher gives
/// each plaintext back.
pub proof fn lemma_decrypt_after_encrypt(r: ElemModel, key: Seq<u8>, iv: Seq<u8>)
    requires
        iv.len() == 16,
        forall|j: int| 0 <= j < r.children.len() ==> child_inverts(#[trigger] r.children[j], key, iv),
        element_children_ok(r.children),
        exists|j: int| 0 <= j < r.children.len() && #[trigger] r.children[j] is Element,
    ensures
        ({
            let enc = ElemModel {
                name: r.name,
                attrs: transformed_attrs(r, "Encrypted"@),
                children: encrypt_nodes(r.children, key, iv),
            };
            let attrs = transformed_attrs(enc, "Decrypted"@);
            &&& decrypt_nodes(enc.children, key) == Ok::<Seq<NodeModel>, Seq<char>>(element_nodes(r.children))
            &&& element_nodes(r.children).len() > 0
            &&& forall|q: Seq<char>|
                #[trigger] map_get(attrs, q) == if q == "Cryptography"@ {
                    Some("Decrypted"@)
                } else if q == "MinLoaderVersion"@ {
                    Some(min_loader_version(r))
                } else {
                    map_get(r.attrs, q)
                }
        }),
{
    reveal_strlit("Cryptography");
    reveal_strlit("MinLoaderVersion");
    let enc = ElemModel {
        name: r.name,
        attrs: transformed_attrs(r, "Encrypted"@),
        children: encrypt_nodes(r.children, key, iv),
    };
    lemma_decrypt_encrypted_children(r.children, key, iv);
    let j = choose|j: int| 0 <= j < r.children.len() && #[trigger] r.children[j] is Element;
    lemma_element_nodes_nonempty(r.children, j);
    assert("MinLoaderVersion"@ != "Cryptography"@) by {
        assert("MinLoaderVersion"@.len() != "Cryptography"@.len());
    }
    let ml = "MinLoaderVersion"@;
    let cr = "Cryptography"@;
    let a1 = map_insert(r.attrs, ml, min_loader_version(r));
    lemma_map_insert_get(r.attrs, ml, min_loader_version(r), ml);
    lemma_map_insert_get(a1, cr, "Encrypted"@, ml);
    assert(min_loader_version(enc) == min_loader_version(r));
    assert forall|q: Seq<char>|
        #[trigger] map_get(transformed_attrs(enc, "Decrypted"@), q) == if q == cr {
            Some("Decrypted"@)
        } else if q == ml {
            Some(min_loader_version(r))
        } else {
            map_get(r.attrs, q)
        } by {
        let b1 = map_insert(enc.attrs, ml, min_loader_version(enc));
        lemma_map_insert_get(b1, cr, "Decrypted"@, q);
        lemma_map_insert_get(enc.attrs, ml, min_loader_version(enc), q);
        lemma_map_insert_get(a1, cr, "Encrypted"@, q);
        lemma_map_insert_get(r.attrs, ml, min_loader_version(r), q);
    }
}

} // verus!
