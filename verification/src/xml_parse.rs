//! Parsing XML text into an [`XmlElement`] tree.
//!
//! The grammar is the small subset that ThrottleGear files use: elements with
//! quoted attributes, text, comments, and `<!...>` / `<?...?>` declarations
//! that are skipped. Whitespace-only text between elements is dropped.

use vstd::prelude::*;
use crate::strmap::{map_insert, StrMap};
use crate::text::{
    all_ws, chars_eq, chars_slice, chars_to_string, chars_trim, concat3, concat5, is_blank,
    is_whitespace, is_ws, str_chars, trim,
};
use crate::xml::{
    lemma_nodes_model_index, lemma_nodes_model_push, nodes_model, ElemModel, NodeModel,
    XmlElement, XmlNode,
};

verus! {

broadcast use vstd::string::group_string_axioms;

/// Which character ends a scan.
#[derive(Clone, Copy)]
pub enum Stop {
    /// End of an element name: whitespace, `>` or `/`.
    Name,
    /// End of an attribute name: whitespace, `=`, `>` or `/`.
    AttrName,
    /// The closing quote of an attribute value.
    Quote(char),
    /// The start of markup: `<`.
    Text,
    /// The end of a tag: `>`.
    Gt,
}

pub open spec fn stops_at(k: Stop, ch: char) -> bool {
    match k {
        Stop::Name => is_ws(ch) || ch == '>' || ch == '/',
        Stop::AttrName => is_ws(ch) || ch == '=' || ch == '>' || ch == '/',
        Stop::Quote(q) => ch == q,
        Stop::Text => ch == '<',
        Stop::Gt => ch == '>',
    }
}

/// First position at or after `pos` that holds a stop character, or the end.
pub open spec fn scan(c: Seq<char>, pos: int, k: Stop) -> int
    decreases c.len() - pos,
{
    if 0 <= pos < c.len() && !stops_at(k, c[pos]) {
        scan(c, pos + 1, k)
    } else {
        pos
    }
}

/// First position at or after `pos` that is not whitespace, or the end.
pub open spec fn skip_ws(c: Seq<char>, pos: int) -> int
    decreases c.len() - pos,
{
    if 0 <= pos < c.len() && is_ws(c[pos]) {
        skip_ws(c, pos + 1)
    } else {
        pos
    }
}

/// First position at or after `pos` where `-->` starts, or the last position
/// from which three characters no longer fit.
pub open spec fn comment_end(c: Seq<char>, pos: int) -> int
    decreases c.len() - pos,
{
    if 0 <= pos && pos + 2 < c.len() && !(c[pos] == '-' && c[pos + 1] == '-' && c[pos + 2] == '>') {
        comment_end(c, pos + 1)
    } else {
        pos
    }
}

/// Characters left from `pos` on.
pub open spec fn rest_len(c: Seq<char>, pos: int) -> nat {
    if pos <= c.len() {
        (c.len() - pos) as nat
    } else {
        0
    }
}

pub proof fn lemma_scan_bounds(c: Seq<char>, pos: int, k: Stop)
    ensures
        scan(c, pos, k) >= pos,
        pos <= c.len() ==> scan(c, pos, k) <= c.len(),
        0 <= pos ==> (scan(c, pos, k) < c.len() ==> stops_at(k, c[scan(c, pos, k)])),
    decreases c.len() - pos,
{
    if 0 <= pos < c.len() && !stops_at(k, c[pos]) {
        lemma_scan_bounds(c, pos + 1, k);
    }
}

pub proof fn lemma_skip_ws_bounds(c: Seq<char>, pos: int)
    ensures
        skip_ws(c, pos) >= pos,
        pos <= c.len() ==> skip_ws(c, pos) <= c.len(),
    decreases c.len() - pos,
{
    if 0 <= pos < c.len() && is_ws(c[pos]) {
        lemma_skip_ws_bounds(c, pos + 1);
    }
}

pub proof fn lemma_comment_end_bounds(c: Seq<char>, pos: int)
    ensures
        comment_end(c, pos) >= pos,
        pos <= c.len() ==> comment_end(c, pos) <= c.len(),
    decreases c.len() - pos,
{
    if 0 <= pos && pos + 2 < c.len() && !(c[pos] == '-' && c[pos + 1] == '-' && c[pos + 2] == '>') {
        lemma_comment_end_bounds(c, pos + 1);
    }
}

/// Attributes up to the end of a start tag: the attributes read, the position
/// after the tag, and whether the tag closed itself with `/>`.
pub open spec fn parse_attrs(c: Seq<char>, pos: int, acc: Seq<(Seq<char>, Seq<char>)>) -> Result<
    (Seq<(Seq<char>, Seq<char>)>, int, bool),
    Seq<char>,
>
    decreases rest_len(c, pos),
{
    let p = skip_ws(c, pos);
    if !(0 <= p < c.len()) {
        Err("Unexpected EOF in attributes"@)
    } else if c[p] == '>' {
        Ok((acc, p + 1, false))
    } else if c[p] == '/' && p + 1 < c.len() && c[p + 1] == '>' {
        Ok((acc, p + 2, true))
    } else {
        let ne = scan(c, p, Stop::AttrName);
        let an = c.subrange(p, ne);
        let q = skip_ws(c, ne);
        if !(0 <= q < c.len()) || c[q] != '=' {
            Err("Expected '=' after attribute '"@ + an + "'"@)
        } else {
            let q2 = skip_ws(c, q + 1);
            if !(0 <= q2 < c.len()) || (c[q2] != '"' && c[q2] != '\'') {
                Err("Expected quotes for attribute value"@)
            } else {
                let ve = scan(c, q2 + 1, Stop::Quote(c[q2]));
                if ve >= c.len() {
                    Err("Unexpected EOF inside attribute value"@)
                } else {
                    proof {
                        lemma_skip_ws_bounds(c, pos);
                        lemma_scan_bounds(c, p, Stop::AttrName);
                        lemma_skip_ws_bounds(c, ne);
                        lemma_skip_ws_bounds(c, q + 1);
                        lemma_scan_bounds(c, q2 + 1, Stop::Quote(c[q2]));
                    }
                    parse_attrs(c, ve + 1, map_insert(acc, an, c.subrange(q2 + 1, ve)))
                }
            }
        }
    }
}

/// One element starting at `pos` (after optional whitespace, comments and
/// declarations): the element and the position after it.
pub open spec fn parse_element(c: Seq<char>, pos: int) -> Result<(ElemModel, int), Seq<char>>
    decreases rest_len(c, pos), 0nat,
{
    let p = skip_ws(c, pos);
    if !(0 <= p < c.len()) || c[p] != '<' {
        Err("Expected '<'"@)
    } else {
        let p1 = p + 1;
        if p1 < c.len() && (c[p1] == '!' || c[p1] == '?') {
            let q = if c[p1] == '!' && p1 + 2 < c.len() && c[p1 + 1] == '-' && c[p1 + 2] == '-' {
                comment_end(c, p1 + 3) + 3
            } else {
                let g = scan(c, p1, Stop::Gt);
                if g < c.len() {
                    g + 1
                } else {
                    g
                }
            };
            proof {
                lemma_skip_ws_bounds(c, pos);
                lemma_comment_end_bounds(c, p1 + 3);
                lemma_scan_bounds(c, p1, Stop::Gt);
                lemma_skip_ws_bounds(c, q);
            }
            parse_element(c, skip_ws(c, q))
        } else {
            let ne = scan(c, p1, Stop::Name);
            let name = c.subrange(p1, ne);
            match parse_attrs(c, ne, seq![]) {
                Err(e) => Err(e),
                Ok((attrs, q, closed)) => {
                    if closed {
                        Ok((ElemModel { name, attrs, children: seq![] }, q))
                    } else {
                        proof {
                            lemma_skip_ws_bounds(c, pos);
                            lemma_scan_bounds(c, p1, Stop::Name);
                            lemma_parse_attrs_progress(c, ne, seq![]);
                        }
                        match parse_children(c, q, name, seq![]) {
                            Ok((ch, r)) => Ok((ElemModel { name, attrs, children: ch }, r)),
                            Err(e) => Err(e),
                        }
                    }
                },
            }
        }
    }
}

/// Content of an element named `name` from `pos` up to and including its
/// closing tag: the child nodes (after `acc`) and the position after the tag.
pub open spec fn parse_children(
    c: Seq<char>,
    pos: int,
    name: Seq<char>,
    acc: Seq<NodeModel>,
) -> Result<(Seq<NodeModel>, int), Seq<char>>
    decreases rest_len(c, pos), 1nat,
{
    let te = scan(c, pos, Stop::Text);
    let text = c.subrange(pos, te);
    let acc2 = if all_ws(text) {
        acc
    } else {
        acc.push(NodeModel::Text(text))
    };
    if !(0 <= te < c.len()) {
        Err("Unclosed tag '"@ + name + "'"@)
    } else if te + 1 < c.len() && c[te + 1] == '/' {
        let ce = scan(c, te + 2, Stop::Gt);
        if ce >= c.len() {
            Err("Expected '>' after closing tag name"@)
        } else {
            let close = trim(c.subrange(te + 2, ce));
            if close != name {
                Err("Mismatched tag: opened '"@ + name + "', closed '"@ + close + "'"@)
            } else {
                Ok((acc2, ce + 1))
            }
        }
    } else {
        proof {
            lemma_scan_bounds(c, pos, Stop::Text);
        }
        match parse_element(c, te) {
            Err(e) => Err(e),
            Ok((child, e)) => {
                if e <= te {
                    Err(seq![])
                } else {
                    parse_children(c, e, name, acc2.push(NodeModel::Element(child)))
                }
            },
        }
    }
}

pub proof fn lemma_parse_attrs_progress(c: Seq<char>, pos: int, acc: Seq<(Seq<char>, Seq<char>)>)
    requires
        0 <= pos,
    ensures
        parse_attrs(c, pos, acc) matches Ok((_, e, _)) ==> pos < e <= c.len(),
    decreases rest_len(c, pos),
{
    let p = skip_ws(c, pos);
    lemma_skip_ws_bounds(c, pos);
    if 0 <= p < c.len() && c[p] != '>' && !(c[p] == '/' && p + 1 < c.len() && c[p + 1] == '>') {
        let ne = scan(c, p, Stop::AttrName);
        lemma_scan_bounds(c, p, Stop::AttrName);
        let q = skip_ws(c, ne);
        lemma_skip_ws_bounds(c, ne);
        if 0 <= q < c.len() && c[q] == '=' {
            let q2 = skip_ws(c, q + 1);
            lemma_skip_ws_bounds(c, q + 1);
            if 0 <= q2 < c.len() && (c[q2] == '"' || c[q2] == '\'') {
                let ve = scan(c, q2 + 1, Stop::Quote(c[q2]));
                lemma_scan_bounds(c, q2 + 1, Stop::Quote(c[q2]));
                if ve < c.len() {
                    lemma_parse_attrs_progress(
                        c,
                        ve + 1,
                        map_insert(acc, c.subrange(p, ne), c.subrange(q2 + 1, ve)),
                    );
                }
            }
        }
    }
}

pub proof fn lemma_parse_element_progress(c: Seq<char>, pos: int)
    requires
        0 <= pos,
    ensures
        parse_element(c, pos) matches Ok((_, e)) ==> pos < e <= c.len(),
    decreases rest_len(c, pos), 0nat,
{
    let p = skip_ws(c, pos);
    lemma_skip_ws_bounds(c, pos);
    if 0 <= p < c.len() && c[p] == '<' {
        let p1 = p + 1;
        if p1 < c.len() && (c[p1] == '!' || c[p1] == '?') {
            let q = if c[p1] == '!' && p1 + 2 < c.len() && c[p1 + 1] == '-' && c[p1 + 2] == '-' {
                comment_end(c, p1 + 3) + 3
            } else {
                let g = scan(c, p1, Stop::Gt);
                if g < c.len() {
                    g + 1
                } else {
                    g
                }
            };
            lemma_comment_end_bounds(c, p1 + 3);
            lemma_scan_bounds(c, p1, Stop::Gt);
            lemma_skip_ws_bounds(c, q);
            lemma_parse_element_progress(c, skip_ws(c, q));
        } else {
            let ne = scan(c, p1, Stop::Name);
            lemma_scan_bounds(c, p1, Stop::Name);
            lemma_parse_attrs_progress(c, ne, seq![]);
            if let Ok((attrs, q, closed)) = parse_attrs(c, ne, seq![]) {
                if !closed {
                    lemma_parse_children_progress(c, q, c.subrange(p1, ne), seq![]);
                }
            }
        }
    }
}

pub proof fn lemma_parse_children_progress(
    c: Seq<char>,
    pos: int,
    name: Seq<char>,
    acc: Seq<NodeModel>,
)
    requires
        0 <= pos,
    ensures
        parse_children(c, pos, name, acc) matches Ok((_, e)) ==> pos < e <= c.len(),
    decreases rest_len(c, pos), 1nat,
{
    let te = scan(c, pos, Stop::Text);
    lemma_scan_bounds(c, pos, Stop::Text);
    if 0 <= te < c.len() {
        if te + 1 < c.len() && c[te + 1] == '/' {
            lemma_scan_bounds(c, te + 2, Stop::Gt);
        } else {
            lemma_parse_element_progress(c, te);
            let text = c.subrange(pos, te);
            let acc2 = if all_ws(text) {
                acc
            } else {
                acc.push(NodeModel::Text(text))
            };
            if let Ok((child, e)) = parse_element(c, te) {
                if e > te {
                    lemma_parse_children_progress(c, e, name, acc2.push(NodeModel::Element(child)));
                }
            }
        }
    }
}


// ---------------------------------------------------------------------------
// Executable parser
// ---------------------------------------------------------------------------

fn stops_exec(k: Stop, ch: char) -> (b: bool)
    ensures
        b == stops_at(k, ch),
{
    match k {
        Stop::Name => is_whitespace(ch) || ch == '>' || ch == '/',
        Stop::AttrName => is_whitespace(ch) || ch == '=' || ch == '>' || ch == '/',
        Stop::Quote(q) => ch == q,
        Stop::Text => ch == '<',
        Stop::Gt => ch == '>',
    }
}

fn scan_exec(c: &[char], pos: usize, k: Stop) -> (r: usize)
    ensures
        r == scan(c@, pos as int, k),
{
    let mut i = pos;
    while i < c.len() && !stops_exec(k, c[i])
        invariant
            pos <= i,
            scan(c@, pos as int, k) == scan(c@, i as int, k),
        decreases c.len() - i,
    {
        i = i + 1;
    }
    i
}

fn skip_ws_exec(c: &[char], pos: usize) -> (r: usize)
    ensures
        r == skip_ws(c@, pos as int),
{
    let mut i = pos;
    while i < c.len() && is_whitespace(c[i])
        invariant
            pos <= i,
            skip_ws(c@, pos as int) == skip_ws(c@, i as int),
        decreases c.len() - i,
    {
        i = i + 1;
    }
    i
}

fn comment_end_exec(c: &[char], pos: usize) -> (r: usize)
    requires
        pos <= c.len(),
        c.len() <= isize::MAX,
    ensures
        r == comment_end(c@, pos as int),
{
    let mut i = pos;
    while i + 2 < c.len() && !(c[i] == '-' && c[i + 1] == '-' && c[i + 2] == '>')
        invariant
            pos <= i <= c.len(),
            c.len() <= isize::MAX,
            comment_end(c@, pos as int) == comment_end(c@, i as int),
        decreases c.len() - i,
    {
        i = i + 1;
    }
    i
}

fn parse_attrs_at(c: &[char], pos: usize) -> (r: Result<(StrMap<String>, usize, bool), String>)
    requires
        pos <= c.len(),
        c.len() <= isize::MAX,
    ensures
        match parse_attrs(c@, pos as int, seq![]) {
            Ok((a, e, closed)) => r matches Ok((m, x, y)) && m@ == a && x == e && y == closed,
            Err(msg) => r matches Err(s) && s@ == msg,
        },
{
    let mut attrs: StrMap<String> = StrMap::new();
    let mut cur = pos;
    loop
        invariant
            cur <= c.len(),
            c.len() <= isize::MAX,
            parse_attrs(c@, pos as int, seq![]) == parse_attrs(c@, cur as int, attrs@),
        decreases c.len() - cur,
    {
        let ghost old_cur = cur;
        proof {
            lemma_skip_ws_bounds(c@, cur as int);
        }
        let p = skip_ws_exec(c, cur);
        if p >= c.len() {
            return Err(String::from_str("Unexpected EOF in attributes"));
        }
        if c[p] == '>' {
            return Ok((attrs, p + 1, false));
        }
        if c[p] == '/' && p + 1 < c.len() && c[p + 1] == '>' {
            return Ok((attrs, p + 2, true));
        }
        let ne = scan_exec(c, p, Stop::AttrName);
        proof {
            lemma_scan_bounds(c@, p as int, Stop::AttrName);
            lemma_skip_ws_bounds(c@, ne as int);
        }
        let an = chars_slice(c, p, ne);
        let q = skip_ws_exec(c, ne);
        if q >= c.len() || c[q] != '=' {
            return Err(concat3("Expected '=' after attribute '", an.as_slice(), "'"));
        }
        proof {
            lemma_skip_ws_bounds(c@, q + 1);
        }
        let q2 = skip_ws_exec(c, q + 1);
        if q2 >= c.len() || (c[q2] != '"' && c[q2] != '\'') {
            return Err(String::from_str("Expected quotes for attribute value"));
        }
        let quote = c[q2];
        proof {
            lemma_scan_bounds(c@, q2 + 1, Stop::Quote(quote));
        }
        let ve = scan_exec(c, q2 + 1, Stop::Quote(quote));
        if ve >= c.len() {
            return Err(String::from_str("Unexpected EOF inside attribute value"));
        }
        let av = chars_slice(c, q2 + 1, ve);
        attrs.insert(chars_to_string(an.as_slice()), chars_to_string(av.as_slice()));
        cur = ve + 1;
    }
}

fn parse_element_at(c: &[char], pos: usize) -> (r: Result<(XmlElement, usize), String>)
    requires
        pos <= c.len() + 3,
        c.len() <= isize::MAX,
    ensures
        match parse_element(c@, pos as int) {
            Ok((m, e)) => r matches Ok((x, y)) && x@ == m && y == e,
            Err(msg) => r matches Err(s) && s@ == msg,
        },
    decreases rest_len(c@, pos as int),
{
    proof {
        lemma_skip_ws_bounds(c@, pos as int);
    }
    let p = skip_ws_exec(c, pos);
    if p >= c.len() || c[p] != '<' {
        return Err(String::from_str("Expected '<'"));
    }
    let p1 = p + 1;
    if p1 < c.len() && (c[p1] == '!' || c[p1] == '?') {
        let q = if c[p1] == '!' && p1 + 2 < c.len() && c[p1 + 1] == '-' && c[p1 + 2] == '-' {
            proof {
                lemma_comment_end_bounds(c@, p1 + 3);
            }
            comment_end_exec(c, p1 + 3) + 3
        } else {
            proof {
                lemma_scan_bounds(c@, p1 as int, Stop::Gt);
            }
            let g = scan_exec(c, p1, Stop::Gt);
            if g < c.len() {
                g + 1
            } else {
                g
            }
        };
        proof {
            lemma_skip_ws_bounds(c@, q as int);
        }
        let q2 = skip_ws_exec(c, q);
        return parse_element_at(c, q2);
    }
    proof {
        lemma_scan_bounds(c@, p1 as int, Stop::Name);
    }
    let ne = scan_exec(c, p1, Stop::Name);
    let name = chars_slice(c, p1, ne);
    let ghost name_m = c@.subrange(p1 as int, ne as int);
    let (attrs, q, closed) = match parse_attrs_at(c, ne) {
        Ok(t) => t,
        Err(e) => {
            return Err(e);
        },
    };
    if closed {
        let e = XmlElement { name: chars_to_string(name.as_slice()), attributes: attrs, children: Vec::new() };
        assert(nodes_model(e.children@) =~= Seq::<NodeModel>::empty());
        return Ok((e, q));
    }
    proof {
        lemma_parse_attrs_progress(c@, ne as int, seq![]);
    }
    let mut children: Vec<XmlNode> = Vec::new();
    let mut cur = q;
    assert(nodes_model(children@) =~= Seq::<NodeModel>::empty());
    loop
        invariant
            pos <= p < c.len(),
            p < cur <= c.len(),
            c.len() <= isize::MAX,
            name@ == name_m,
            parse_element(c@, pos as int) == (match parse_children(c@, q as int, name_m, seq![]) {
                Ok((ch, r)) => Ok((ElemModel { name: name_m, attrs: attrs@, children: ch }, r)),
                Err(e) => Err(e),
            }),
            parse_children(c@, q as int, name_m, seq![]) == parse_children(
                c@,
                cur as int,
                name_m,
                nodes_model(children@),
            ),
        decreases c.len() - cur,
    {
        proof {
            lemma_scan_bounds(c@, cur as int, Stop::Text);
        }
        let te = scan_exec(c, cur, Stop::Text);
        let text = chars_slice(c, cur, te);
        let ghost acc = nodes_model(children@);
        if !is_blank(text.as_slice()) {
            let t = XmlNode::Text(chars_to_string(text.as_slice()));
            proof {
                lemma_nodes_model_push(children@, t);
            }
            children.push(t);
        }
        if te >= c.len() {
            return Err(concat3("Unclosed tag '", name.as_slice(), "'"));
        }
        if te + 1 < c.len() && c[te + 1] == '/' {
            proof {
                lemma_scan_bounds(c@, te + 2, Stop::Gt);
            }
            let ce = scan_exec(c, te + 2, Stop::Gt);
            if ce >= c.len() {
                return Err(String::from_str("Expected '>' after closing tag name"));
            }
            let raw = chars_slice(c, te + 2, ce);
            let close = chars_trim(raw.as_slice());
            if !chars_eq(close.as_slice(), name.as_slice()) {
                return Err(
                    concat5(
                        "Mismatched tag: opened '",
                        name.as_slice(),
                        "', closed '",
                        close.as_slice(),
                        "'",
                    ),
                );
            }
            let e = XmlElement { name: chars_to_string(name.as_slice()), attributes: attrs, children };
            return Ok((e, ce + 1));
        }
        proof {
            lemma_parse_element_progress(c@, te as int);
        }
        match parse_element_at(c, te) {
            Err(e) => {
                return Err(e);
            },
            Ok((child, e)) => {
                let n = XmlNode::Element(child);
                proof {
                    lemma_nodes_model_push(children@, n);
                }
                children.push(n);
                cur = e;
            },
        }
    }
}

/// Parses XML text into its root element. Leading whitespace, comments and
/// declarations are skipped; whatever follows the root element is ignored.
pub fn parse_xml_str(input: &str) -> (r: Result<XmlElement, String>)
    requires
        input@.len() <= isize::MAX,
    ensures
        match parse_element(input@, 0) {
            Ok((m, _)) => r matches Ok(x) && x@ == m,
            Err(msg) => r matches Err(s) && s@ == msg,
        },
{
    let chars = str_chars(input);
    match parse_element_at(chars.as_slice(), 0) {
        Ok((e, _)) => Ok(e),
        Err(msg) => Err(msg),
    }
}

} // verus!
