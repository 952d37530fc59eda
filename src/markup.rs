use vstd::multiset::Multiset;
use vstd::prelude::*;
use crate::errors::Error;
use crate::render::{render, render_nodes};
use crate::tree::{lemma_nodes_view, node_view, nodes_view, AttrV, Attribute, Element, Node, NodeV};

verus! {

/// A document parsed by `tl`, carried through without looking inside.
#[verifier::external_type_specification]
#[verifier::external_body]
pub struct ExVDom<'a>(tl::VDom<'a>);

/// What `str::trim` returns for a string.
pub uninterp spec fn trim_of(s: Seq<char>) -> Seq<char>;

/// Relies on `str::trim`: the text without its leading and trailing whitespace.
#[verifier::external_body]
fn trim(s: &str) -> (r: &str)
    ensures
        r@ == trim_of(s@),
{
    s.trim()
}

/// Relies on `tl::parse` with default options, which refuses exactly the inputs whose
/// length in bytes does not fit in a `u32`.
#[verifier::external_body]
fn parse_markup(input: &str) -> (r: Result<tl::VDom<'_>, tl::ParseError>)
    ensures
        r is Err <==> vstd::utf8::encode_utf8(input@).len() > u32::MAX,
{
    tl::parse(input, tl::ParserOptions::default())
}

/// A parsed document together with the text it was parsed from.
pub struct Document<'a> {
    dom: tl::VDom<'a>,
    source: Ghost<Seq<char>>,
}

impl<'a> Document<'a> {
    /// The text the document was parsed from.
    pub closed spec fn source(&self) -> Seq<char> {
        self.source@
    }
}

/// Parses `input`; the document remembers the text so that what is read from it can be
/// stated over that text.
fn parse_document<'a>(input: &'a str) -> (r: Result<Document<'a>, tl::ParseError>)
    ensures
        r is Err <==> vstd::utf8::encode_utf8(input@).len() > u32::MAX,
        r is Ok ==> r->Ok_0.source() == input@,
{
    match parse_markup(input) {
        Ok(dom) => Ok(Document { dom, source: Ghost(input@) }),
        Err(e) => Err(e),
    }
}

/// The variant of a parsed node.
pub enum Kind {
    Tag,
    Text,
    Comment,
}

/// The handles of the top-level nodes that `tl` yields for a text, in document order.
pub uninterp spec fn roots_of(text: Seq<char>) -> Seq<u32>;

/// The variant of the node behind a handle in what `tl` yields for a text, if it resolves.
pub uninterp spec fn kind_at(text: Seq<char>, handle: u32) -> Option<Kind>;

/// The name of the tag behind a handle, where it is a tag with a UTF-8 name.
pub uninterp spec fn name_at(text: Seq<char>, handle: u32) -> Option<Seq<char>>;

/// The attributes of the tag behind a handle, where it is a tag. The parser keeps them in
/// a hash map, so only which pairs there are is fixed, not their order.
pub uninterp spec fn attributes_at(text: Seq<char>, handle: u32) -> Option<Multiset<AttrV>>;

/// The handles of the direct children of the tag behind a handle, where it is a tag.
pub uninterp spec fn children_at(text: Seq<char>, handle: u32) -> Option<Seq<u32>>;

/// The text of the text node behind a handle, where it is one and is UTF-8.
pub uninterp spec fn text_at(text: Seq<char>, handle: u32) -> Option<Seq<char>>;

/// The text of the comment node behind a handle, delimiters included, where it is one
/// and is UTF-8.
pub uninterp spec fn comment_at(text: Seq<char>, handle: u32) -> Option<Seq<char>>;

pub open spec fn string_opt_view(s: Option<String>) -> Option<Seq<char>> {
    match s {
        Some(t) => Some(t@),
        None => None,
    }
}

pub open spec fn pairs_view(v: Seq<(String, Option<String>)>) -> Seq<AttrV> {
    Seq::new(v.len(), |i: int| (v[i].0@, string_opt_view(v[i].1)))
}

/// Relies on `VDom::children`: the handles of the top-level nodes, in document order.
#[verifier::external_body]
fn top_level(doc: &Document<'_>) -> (r: Vec<u32>)
    ensures
        r@ == roots_of(doc.source()),
{
    doc.dom.children().iter().map(|h| h.get_inner()).collect()
}

/// Relies on `NodeHandle::get`: which variant the node behind `handle` is, if the handle
/// resolves.
#[verifier::external_body]
fn kind_of(doc: &Document<'_>, handle: u32) -> (r: Option<Kind>)
    ensures
        r == kind_at(doc.source(), handle),
{
    tl::NodeHandle::new(handle).get(doc.dom.parser()).map(|node| match node {
        tl::Node::Tag(_) => Kind::Tag,
        tl::Node::Raw(_) => Kind::Text,
        tl::Node::Comment(_) => Kind::Comment,
    })
}

/// Relies on `HTMLTag::name` and `Bytes::try_as_utf8_str`: the tag's name where it is
/// valid UTF-8.
#[verifier::external_body]
fn tag_name(doc: &Document<'_>, handle: u32) -> (r: Option<String>)
    ensures
        string_opt_view(r) == name_at(doc.source(), handle),
{
    let node = tl::NodeHandle::new(handle).get(doc.dom.parser());
    node.and_then(tl::Node::as_tag).and_then(|t| t.name().try_as_utf8_str()).map(String::from)
}

/// Relies on `Attributes::iter`: the tag's attributes as owned name and value strings, in
/// an order that the parser does not fix.
#[verifier::external_body]
fn tag_attributes(doc: &Document<'_>, handle: u32) -> (r: Option<Vec<(String, Option<String>)>>)
    ensures
        match r {
            Some(v) => attributes_at(doc.source(), handle) == Some(pairs_view(v@).to_multiset()),
            None => attributes_at(doc.source(), handle) is None,
        },
{
    let node = tl::NodeHandle::new(handle).get(doc.dom.parser());
    node.and_then(tl::Node::as_tag).map(
        |t| t.attributes().iter().map(|(k, v)| (k.into_owned(), v.map(|v| v.into_owned()))).collect(),
    )
}

/// Relies on `Children::top`: the handles of the tag's direct children, in document order.
#[verifier::external_body]
fn tag_children(doc: &Document<'_>, handle: u32) -> (r: Option<Vec<u32>>)
    ensures
        match r {
            Some(v) => children_at(doc.source(), handle) == Some(v@),
            None => children_at(doc.source(), handle) is None,
        },
{
    let node = tl::NodeHandle::new(handle).get(doc.dom.parser());
    node.and_then(tl::Node::as_tag).map(|t| t.children().top().iter().map(|h| h.get_inner()).collect())
}

/// Relies on `Node::as_raw` and `Bytes::try_as_utf8_str`: a text node's text where it is
/// valid UTF-8.
#[verifier::external_body]
fn raw_text(doc: &Document<'_>, handle: u32) -> (r: Option<String>)
    ensures
        string_opt_view(r) == text_at(doc.source(), handle),
{
    let node = tl::NodeHandle::new(handle).get(doc.dom.parser());
    node.and_then(tl::Node::as_raw).and_then(|b| b.try_as_utf8_str()).map(String::from)
}

/// Relies on `Node::as_comment` and `Bytes::try_as_utf8_str`: a comment node's text,
/// delimiters included, where it is valid UTF-8.
#[verifier::external_body]
fn comment_text(doc: &Document<'_>, handle: u32) -> (r: Option<String>)
    ensures
        string_opt_view(r) == comment_at(doc.source(), handle),
{
    let node = tl::NodeHandle::new(handle).get(doc.dom.parser());
    node.and_then(tl::Node::as_comment).and_then(|b| b.try_as_utf8_str()).map(String::from)
}

/// Text that cannot be read as UTF-8 counts as empty.
pub open spec fn or_empty(s: Option<Seq<char>>) -> Seq<char> {
    match s {
        Some(t) => t,
        None => Seq::empty(),
    }
}

/// The node behind `handle` in what `tl` yields for `text`, followed down to `levels`
/// levels of descendants; `None` where the handle does not resolve.
pub open spec fn tree_node(text: Seq<char>, handle: u32, levels: nat) -> Option<NodeV>
    decreases levels, 0nat, 0nat,
{
    match kind_at(text, handle) {
        None => None,
        Some(Kind::Text) => Some(NodeV::Text(or_empty(text_at(text, handle)))),
        Some(Kind::Comment) => Some(NodeV::Comment(or_empty(comment_at(text, handle)))),
        Some(Kind::Tag) => Some(
            NodeV::Element(
                or_empty(name_at(text, handle)),
                match attributes_at(text, handle) {
                    Some(a) => a,
                    None => Multiset::empty(),
                },
                if levels > 0 {
                    match children_at(text, handle) {
                        Some(c) => tree_nodes(text, c, (levels - 1) as nat),
                        None => Seq::empty(),
                    }
                } else {
                    Seq::empty()
                },
            ),
        ),
    }
}

/// The nodes behind `handles` that resolve, in order.
pub open spec fn tree_nodes(text: Seq<char>, handles: Seq<u32>, levels: nat) -> Seq<NodeV>
    decreases levels, 1nat, handles.len(),
{
    if handles.len() == 0 {
        Seq::empty()
    } else {
        let init = tree_nodes(text, handles.drop_last(), levels);
        match tree_node(text, handles.last(), levels) {
            Some(n) => init.push(n),
            None => init,
        }
    }
}

/// The tree that `tl` yields for `text`. The levels followed are bounded by the text's
/// length in bytes, which no parsed tree reaches.
pub open spec fn tree_of(text: Seq<char>) -> Seq<NodeV> {
    tree_nodes(text, roots_of(text), vstd::utf8::encode_utf8(text).len())
}

fn copy_attributes(pairs: &Vec<(String, Option<String>)>) -> (r: Vec<Attribute>)
    ensures
        r@.map_values(|a: Attribute| a@) == pairs_view(pairs@),
{
    let mut attributes: Vec<Attribute> = Vec::new();
    let mut i: usize = 0;
    while i < pairs.len()
        invariant
            i <= pairs@.len(),
            attributes@.map_values(|a: Attribute| a@) == pairs_view(pairs@).take(i as int),
        decreases pairs.len() - i,
    {
        let (k, v) = &pairs[i];
        let value = match v {
            Some(s) => Some(s.clone()),
            None => None,
        };
        let a = Attribute { name: k.clone(), value };
        assert(a@ == pairs_view(pairs@)[i as int]);
        let ghost before = attributes@;
        attributes.push(a);
        assert(attributes@.map_values(|a: Attribute| a@) =~= before.map_values(|a: Attribute| a@).push(a@));
        assert(pairs_view(pairs@).take(i + 1) =~= pairs_view(pairs@).take(i as int).push(a@));
        i = i + 1;
        assert(attributes@.map_values(|a: Attribute| a@) =~= pairs_view(pairs@).take(i as int));
    }
    assert(pairs_view(pairs@).take(pairs@.len() as int) =~= pairs_view(pairs@));
    attributes
}

fn or_empty_string(s: Option<String>) -> (r: String)
    ensures
        r@ == or_empty(string_opt_view(s)),
{
    match s {
        Some(t) => t,
        None => String::new(),
    }
}

/// Copies the node behind `handle` out of the parsed document, following its descendants
/// down to `levels` levels; `None` where the handle does not resolve.
fn copy_node(doc: &Document<'_>, handle: u32, levels: usize) -> (r: Option<Node>)
    ensures
        match r {
            Some(n) => tree_node(doc.source(), handle, levels as nat) == Some(node_view(n)),
            None => tree_node(doc.source(), handle, levels as nat) is None,
        },
    decreases levels, 0nat, 0nat,
{
    match kind_of(doc, handle) {
        None => None,
        Some(Kind::Text) => Some(Node::Text(or_empty_string(raw_text(doc, handle)))),
        Some(Kind::Comment) => Some(Node::Comment(or_empty_string(comment_text(doc, handle)))),
        Some(Kind::Tag) => {
            let name = or_empty_string(tag_name(doc, handle));
            let attributes = match tag_attributes(doc, handle) {
                Some(pairs) => copy_attributes(&pairs),
                None => {
                    let none: Vec<Attribute> = Vec::new();
                    assert(none@.map_values(|a: Attribute| a@) =~= Seq::<AttrV>::empty());
                    none
                },
            };
            assert(attributes@.map_values(|a: Attribute| a@).to_multiset() == match attributes_at(
                doc.source(),
                handle,
            ) {
                Some(a) => a,
                None => Multiset::<AttrV>::empty(),
            }) by {
                broadcast use vstd::multiset::group_multiset_axioms;
                if attributes_at(doc.source(), handle) is None {
                    vstd::seq_lib::to_multiset_len(Seq::<AttrV>::empty());
                    vstd::multiset::lemma_multiset_empty_len(Seq::<AttrV>::empty().to_multiset());
                }
            }
            let mut children: Vec<Node> = Vec::new();
            if levels > 0 {
                if let Some(handles) = tag_children(doc, handle) {
                    children = copy_nodes(doc, &handles, levels - 1);
                }
            }
            let e = Element { name, attributes, children };
            assert(e.attrs() == attributes@.map_values(|a: Attribute| a@));
            Some(Node::Element(e))
        },
    }
}

/// Copies the nodes behind `handles` that resolve, in order.
fn copy_nodes(doc: &Document<'_>, handles: &Vec<u32>, levels: usize) -> (r: Vec<Node>)
    ensures
        nodes_view(r@) == tree_nodes(doc.source(), handles@, levels as nat),
    decreases levels, 1nat, handles@.len(),
{
    let mut nodes: Vec<Node> = Vec::new();
    let mut i: usize = 0;
    while i < handles.len()
        invariant
            i <= handles@.len(),
            nodes_view(nodes@) == tree_nodes(doc.source(), handles@.take(i as int), levels as nat),
        decreases handles.len() - i,
    {
        let ghost before = nodes@;
        let found = copy_node(doc, handles[i], levels);
        proof {
            assert(handles@.take(i + 1).drop_last() =~= handles@.take(i as int));
            assert(handles@.take(i + 1).last() == handles@[i as int]);
        }
        if let Some(node) = found {
            nodes.push(node);
            assert(nodes@.subrange(0, nodes@.len() - 1) =~= before);
        }
        i = i + 1;
    }
    assert(handles@.take(handles@.len() as int) =~= handles@);
    nodes
}

/// Parses markup, leading and trailing whitespace trimmed, and writes it as
/// brace-delimited element blocks. Fails only where the parser refuses the trimmed text,
/// which is when its length in bytes does not fit in a `u32`; otherwise the text is the
/// rendering of the tree that the parser yields.
pub fn convert(input: &str) -> (r: Result<String, Error>)
    ensures
        r is Err <==> vstd::utf8::encode_utf8(trim_of(input@)).len() > u32::MAX,
        r is Ok ==> exists|nodes: Seq<Node>|
            nodes_view(nodes) == tree_of(trim_of(input@)) && r->Ok_0@ == render_nodes(nodes, 0),
{
    let trimmed = trim(input);
    match parse_document(trimmed) {
        Err(e) => Err(Error::HtmlParseError(e)),
        Ok(doc) => {
            let roots = top_level(&doc);
            let nodes = copy_nodes(&doc, &roots, trimmed.len());
            let out = render(&nodes);
            Ok(out)
        },
    }
}

} // verus!
