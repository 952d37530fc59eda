use vstd::multiset::Multiset;
use vstd::prelude::*;

verus! {

/// One attribute of an element: its name as written and, unless it stands alone,
/// its value.
pub struct Attribute {
    pub name: String,
    pub value: Option<String>,
}

/// The mathematical form of an attribute: its name and its optional value as
/// character sequences.
pub type AttrV = (Seq<char>, Option<Seq<char>>);

impl View for Attribute {
    type V = AttrV;

    open spec fn view(&self) -> AttrV {
        (
            self.name@,
            match &self.value {
                Some(v) => Some(v@),
                None => None,
            },
        )
    }
}

/// An element: a name, its attributes in any order, and its children in document order.
pub struct Element {
    pub name: String,
    pub attributes: Vec<Attribute>,
    pub children: Vec<Node>,
}

/// A node of a markup tree.
pub enum Node {
    Element(Element),
    Text(String),
    Comment(String),
}

impl Element {
    /// The attributes as a sequence of their mathematical forms.
    pub open spec fn attrs(&self) -> Seq<AttrV> {
        self.attributes@.map_values(|a: Attribute| a@)
    }
}

/// The mathematical form of a node: names and texts as character sequences, and the
/// attributes of an element as a multiset, since their order carries no meaning.
pub enum NodeV {
    Element(Seq<char>, Multiset<AttrV>, Seq<NodeV>),
    Text(Seq<char>),
    Comment(Seq<char>),
}

/// The mathematical form of a node and all its descendants.
pub open spec fn node_view(n: Node) -> NodeV
    decreases n,
{
    match n {
        Node::Element(e) => NodeV::Element(e.name@, e.attrs().to_multiset(), nodes_view(e.children@)),
        Node::Text(t) => NodeV::Text(t@),
        Node::Comment(c) => NodeV::Comment(c@),
    }
}

pub open spec fn nodes_view(s: Seq<Node>) -> Seq<NodeV>
    decreases s,
{
    if s.len() == 0 {
        Seq::empty()
    } else {
        nodes_view(s.subrange(0, s.len() - 1)).push(node_view(s[s.len() - 1]))
    }
}

pub proof fn lemma_nodes_view(s: Seq<Node>)
    ensures
        nodes_view(s).len() == s.len(),
        forall|i: int| 0 <= i < s.len() ==> #[trigger] nodes_view(s)[i] == node_view(s[i]),
    decreases s.len(),
{
    if s.len() > 0 {
        let init = s.subrange(0, s.len() - 1);
        lemma_nodes_view(init);
        assert forall|i: int| 0 <= i < s.len() implies #[trigger] nodes_view(s)[i] == node_view(
            s[i],
        ) by {
            if i < s.len() - 1 {
                assert(init[i] == s[i]);
            }
        }
    }
}

} // verus!
