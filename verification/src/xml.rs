//! A small XML tree, its parser and serializer, and the W3C XML Encryption
//! transform of the children of a ThrottleGear root element.

use vstd::prelude::*;
use crate::strmap::{map_get, map_insert, StrMap};
use crate::text::{ends_with, str_chars, chars_eq, chars_ends_with};

verus! {

broadcast use vstd::string::group_string_axioms;

/// An XML element: its name, attributes and child nodes.
#[derive(Debug)]
pub struct XmlElement {
    pub name: String,
    pub attributes: StrMap<String>,
    pub children: Vec<XmlNode>,
}

/// A child node: an element or a run of text.
#[derive(Debug)]
pub enum XmlNode {
    Element(XmlElement),
    Text(String),
}

/// Mathematical model of an element.
pub struct ElemModel {
    pub name: Seq<char>,
    pub attrs: Seq<(Seq<char>, Seq<char>)>,
    pub children: Seq<NodeModel>,
}

/// Mathematical model of a child node.
pub enum NodeModel {
    Element(ElemModel),
    Text(Seq<char>),
}

pub open spec fn elem_model(e: XmlElement) -> ElemModel
    decreases e,
{
    ElemModel { name: e.name@, attrs: e.attributes@, children: nodes_model(e.children@) }
}

pub open spec fn node_model(n: XmlNode) -> NodeModel
    decreases n,
{
    match n {
        XmlNode::Element(e) => NodeModel::Element(elem_model(e)),
        XmlNode::Text(t) => NodeModel::Text(t@),
    }
}

pub open spec fn nodes_model(s: Seq<XmlNode>) -> Seq<NodeModel>
    decreases s,
{
    if s.len() == 0 {
        seq![]
    } else {
        nodes_model(s.drop_last()).push(node_model(s.last()))
    }
}

impl View for XmlElement {
    type V = ElemModel;

    open spec fn view(&self) -> ElemModel {
        elem_model(*self)
    }
}


pub proof fn lemma_nodes_model_index(s: Seq<XmlNode>)
    ensures
        nodes_model(s).len() == s.len(),
        forall|i: int| 0 <= i < s.len() ==> #[trigger] nodes_model(s)[i] == node_model(s[i]),
    decreases s.len(),
{
    if s.len() > 0 {
        lemma_nodes_model_index(s.drop_last());
    }
}

pub proof fn lemma_nodes_model_push(s: Seq<XmlNode>, n: XmlNode)
    ensures
        nodes_model(s.push(n)) == nodes_model(s).push(node_model(n)),
{
    assert(s.push(n).drop_last() =~= s);
}

/// The element name equals `name`, or ends with `:` followed by `name`
/// (a namespace prefix).
pub open spec fn name_matches(elem_name: Seq<char>, name: Seq<char>) -> bool {
    elem_name == name || ends_with(elem_name, seq![':'] + name)
}

/// Depth-first, document-order search for the first element (the element
/// itself included) whose name matches.
pub open spec fn find_elem(e: ElemModel, name: Seq<char>) -> Option<ElemModel>
    decreases e,
{
    if name_matches(e.name, name) {
        Some(e)
    } else {
        find_in_nodes(e.children, name)
    }
}

pub open spec fn find_in_node(n: NodeModel, name: Seq<char>) -> Option<ElemModel>
    decreases n,
{
    match n {
        NodeModel::Element(c) => find_elem(c, name),
        NodeModel::Text(_) => None,
    }
}

pub open spec fn find_in_nodes(ns: Seq<NodeModel>, name: Seq<char>) -> Option<ElemModel>
    decreases ns,
{
    if ns.len() == 0 {
        None
    } else {
        let first = find_in_node(ns[0], name);
        if first is Some {
            first
        } else {
            find_in_nodes(ns.drop_first(), name)
        }
    }
}

proof fn lemma_find_skip(ns: Seq<NodeModel>, name: Seq<char>, i: int)
    requires
        0 <= i <= ns.len(),
        forall|j: int| 0 <= j < i ==> find_in_node(#[trigger] ns[j], name) is None,
    ensures
        find_in_nodes(ns, name) == find_in_nodes(ns.skip(i), name),
    decreases i,
{
    if i > 0 {
        lemma_find_skip(ns, name, i - 1);
        assert(ns.skip(i - 1).drop_first() =~= ns.skip(i));
        assert(ns.skip(i - 1)[0] == ns[i - 1]);
    } else {
        assert(ns.skip(0) =~= ns);
    }
}

/// Whether an element name matches `name` as `find_child_recursive` tests it.
fn element_name_matches(elem_name: &String, name: &[char]) -> (b: bool)
    ensures
        b == name_matches(elem_name@, name@),
{
    let en = str_chars(elem_name.as_str());
    if chars_eq(en.as_slice(), name) {
        return true;
    }
    let mut suffix: Vec<char> = Vec::new();
    suffix.push(':');
    crate::text::push_all(&mut suffix, name);
    assert(suffix@ =~= seq![':'] + name@);
    chars_ends_with(en.as_slice(), suffix.as_slice())
}

impl XmlElement {
    /// An element with the given name, no attributes and no children.
    pub fn new(name: &str) -> (e: Self)
        ensures
            e@ == (ElemModel { name: name@, attrs: seq![], children: seq![] }),
    {
        let e = XmlElement {
            name: String::from_str(name),
            attributes: StrMap::new(),
            children: Vec::new(),
        };
        assert(nodes_model(e.children@) =~= Seq::<NodeModel>::empty());
        e
    }

    /// The value of an attribute.
    pub fn get_attribute(&self, key: &str) -> (r: Option<&String>)
        ensures
            match map_get(self@.attrs, key@) {
                Some(v) => r matches Some(x) && x@ == v,
                None => r is None,
            },
    {
        self.attributes.get(key)
    }

    fn find_chars(&self, name: &[char]) -> (r: Option<&XmlElement>)
        ensures
            match find_elem(self@, name@) {
                Some(m) => r matches Some(x) && x@ == m,
                None => r is None,
            },
        decreases self,
    {
        if element_name_matches(&self.name, name) {
            return Some(self);
        }
        let ghost ms = nodes_model(self.children@);
        proof {
            lemma_nodes_model_index(self.children@);
        }
        assert(find_elem(self@, name@) == find_in_nodes(ms, name@));
        let mut i: usize = 0;
        while i < self.children.len()
            invariant
                i <= self.children@.len(),
                ms == nodes_model(self.children@),
                find_elem(self@, name@) == find_in_nodes(ms, name@),
                ms.len() == self.children@.len(),
                forall|j: int| 0 <= j < self.children@.len() ==> #[trigger] ms[j] == node_model(self.children@[j]),
                forall|j: int| 0 <= j < i ==> find_in_node(#[trigger] ms[j], name@) is None,
            decreases self.children.len() - i,
        {
            match &self.children[i] {
                XmlNode::Element(child) => {
                    let found = child.find_chars(name);
                    if found.is_some() {
                        proof {
                            lemma_find_skip(ms, name@, i as int);
                            assert(ms.skip(i as int)[0] == ms[i as int]);
                        }
                        return found;
                    }
                },
                XmlNode::Text(_) => {},
            }
            i = i + 1;
        }
        proof {
            lemma_find_skip(ms, name@, i as int);
        }
        None
    }

    /// The first element, in document order and starting with this one, whose
    /// name is `name` or ends with `:name`.
    pub fn find_child_recursive(&self, name: &str) -> (r: Option<&XmlElement>)
        ensures
            match find_elem(self@, name@) {
                Some(m) => r matches Some(x) && x@ == m,
                None => r is None,
            },
    {
        let n = str_chars(name);
        self.find_chars(n.as_slice())
    }
}

} // verus!
