use std::collections::VecDeque;
use vstd::prelude::*;
use crate::order::{
    insert_sorted, lemma_sort_attrs, lemma_sort_ignores_order, sort_attrs, sorted_attributes,
};
use crate::text::{
    comment_body, escape_char, escaped, normalize_name, quoted, snake_name, strip_comment,
    to_rust_string,
};
use crate::tree::{lemma_nodes_view, node_view, nodes_view, AttrV, Attribute, Element, Node};

verus! {

/// Four spaces for each level of nesting.
pub open spec fn indent(d: nat) -> Seq<char> {
    Seq::new(4 * d, |i: int| ' ')
}

/// A value as it is written after its key: quoted, or the bare `true` where the
/// attribute stands alone.
pub open spec fn value_text(v: Option<Seq<char>>) -> Seq<char> {
    match v {
        Some(s) => quoted(s),
        None => seq!['t', 'r', 'u', 'e'],
    }
}

/// The line of one attribute at nesting level `d`, with the line break before it.
pub open spec fn attr_line(a: AttrV, d: nat) -> Seq<char> {
    seq!['\n'] + indent(d) + snake_name(a.0) + seq![':', ' '] + value_text(a.1) + seq![',']
}

pub open spec fn attr_lines(s: Seq<AttrV>, d: nat) -> Seq<char>
    decreases s.len(),
{
    if s.len() == 0 {
        Seq::empty()
    } else {
        attr_lines(s.drop_last(), d) + attr_line(s.last(), d)
    }
}

/// The opening line of an element at level `d` and the lines of its sorted attributes.
pub open spec fn element_head(e: Element, d: nat) -> Seq<char> {
    indent(d) + e.name@ + seq![' ', '{'] + attr_lines(sort_attrs(e.attrs()), d + 1)
}

/// The text that a node at nesting level `d` becomes.
pub open spec fn render_node(n: Node, d: nat) -> Seq<char>
    decreases n,
{
    match n {
        Node::Element(e) => if e.children@.len() == 0 {
            element_head(e, d) + (if e.attributes@.len() == 0 {
                Seq::empty()
            } else {
                seq!['\n'] + indent(d)
            }) + seq!['}', '\n']
        } else {
            element_head(e, d) + seq!['\n'] + render_nodes(e.children@, d + 1) + indent(d) + seq![
                '}',
                '\n',
            ]
        },
        Node::Text(t) => indent(d) + quoted(t@) + seq!['\n'],
        Node::Comment(c) => indent(d) + seq!['/', '/', ' '] + comment_body(c@) + seq!['\n'],
    }
}

/// The text that a sequence of sibling nodes at level `d` becomes.
pub open spec fn render_nodes(s: Seq<Node>, d: nat) -> Seq<char>
    decreases s,
{
    if s.len() == 0 {
        Seq::empty()
    } else {
        render_node(s[0], d) + render_nodes(s.subrange(1, s.len() as int), d)
    }
}

/// The number of nodes in a tree.
pub open spec fn node_size(n: Node) -> nat
    decreases n,
{
    match n {
        Node::Element(e) => 1 + nodes_size(e.children@),
        _ => 1,
    }
}

pub open spec fn nodes_size(s: Seq<Node>) -> nat
    decreases s,
{
    if s.len() == 0 {
        0
    } else {
        node_size(s[0]) + nodes_size(s.subrange(1, s.len() as int))
    }
}

/// One item of pending work: a node still to be written, or the end of a block.
enum Work<'a> {
    Visit(&'a Node),
    Close,
}

/// Pending work as seen by the proofs: `Some` for a node, `None` for the end of a block.
spec fn item(w: Work) -> Option<Node> {
    match w {
        Work::Visit(n) => Some(*n),
        Work::Close => None,
    }
}

spec fn items(ws: Seq<Work>) -> Seq<Option<Node>> {
    Seq::new(ws.len(), |k: int| item(ws[k]))
}

spec fn visits(s: Seq<Node>) -> Seq<Option<Node>> {
    Seq::new(s.len(), |k: int| Some(s[k]))
}

/// What the pending items still add to the text when work starts at level `d`.
spec fn pending_text(s: Seq<Option<Node>>, d: nat) -> Seq<char>
    decreases s.len(),
{
    if s.len() == 0 {
        Seq::empty()
    } else {
        match s[0] {
            Some(n) => render_node(n, d) + pending_text(s.drop_first(), d),
            None => indent((d - 1) as nat) + seq!['}', '\n'] + pending_text(
                s.drop_first(),
                (d - 1) as nat,
            ),
        }
    }
}

spec fn closes(s: Seq<Option<Node>>) -> nat
    decreases s.len(),
{
    if s.len() == 0 {
        0
    } else {
        (if s[0] is None {
            1nat
        } else {
            0nat
        }) + closes(s.drop_first())
    }
}

spec fn weight(s: Seq<Option<Node>>) -> nat
    decreases s.len(),
{
    if s.len() == 0 {
        0
    } else {
        (match s[0] {
            Some(n) => 2 * node_size(n),
            None => 1,
        }) + weight(s.drop_first())
    }
}

proof fn lemma_closes_le_len(s: Seq<Option<Node>>)
    ensures
        closes(s) <= s.len(),
    decreases s.len(),
{
    if s.len() > 0 {
        lemma_closes_le_len(s.drop_first());
    }
}

proof fn lemma_visits_prefix(cs: Seq<Node>, tail: Seq<Option<Node>>, d: nat)
    ensures
        pending_text(visits(cs) + tail, d) == render_nodes(cs, d) + pending_text(tail, d),
        closes(visits(cs) + tail) == closes(tail),
        weight(visits(cs) + tail) == 2 * nodes_size(cs) + weight(tail),
    decreases cs.len(),
{
    if cs.len() == 0 {
        assert(visits(cs) + tail =~= tail);
        assert(render_nodes(cs, d) =~= Seq::empty());
    } else {
        let rest = cs.subrange(1, cs.len() as int);
        lemma_visits_prefix(rest, tail, d);
        let s = visits(cs) + tail;
        assert(s[0] == Some(cs[0]));
        assert(s.drop_first() =~= visits(rest) + tail);
        assert(pending_text(s, d) =~= render_node(cs[0], d) + (render_nodes(rest, d)
            + pending_text(tail, d)));
    }
}

fn push_spaces(out: &mut String)
    ensures
        final(out)@ == old(out)@ + seq![' ', ' ', ' ', ' '],
{
    out.push(' ');
    out.push(' ');
    out.push(' ');
    out.push(' ');
}

fn push_indent(out: &mut String, depth: usize)
    ensures
        final(out)@ == old(out)@ + indent(depth as nat),
{
    let ghost start = out@;
    let mut i: usize = 0;
    while i < depth
        invariant
            i <= depth,
            out@ == start + indent(i as nat),
        decreases depth - i,
    {
        push_spaces(out);
        i = i + 1;
        assert(out@ =~= start + indent(i as nat));
    }
}

/// Writes the attribute lines of an element whose own line is at level `depth`.
fn write_attributes(out: &mut String, attrs: &Vec<Attribute>, depth: usize)
    ensures
        final(out)@ == old(out)@ + attr_lines(
            sort_attrs(attrs@.map_values(|a: Attribute| a@)),
            depth as nat + 1,
        ),
{
    let sorted = sorted_attributes(attrs);
    let ghost views = sorted@.map_values(|a: &Attribute| a@);
    let ghost start = out@;
    let mut k: usize = 0;
    while k < sorted.len()
        invariant
            k <= sorted@.len(),
            views == sorted@.map_values(|a: &Attribute| a@),
            out@ == start + attr_lines(views.take(k as int), depth as nat + 1),
        decreases sorted.len() - k,
    {
        let a = sorted[k];
        let ghost line_start = out@;
        out.push('\n');
        push_indent(out, depth);
        push_spaces(out);
        let key = normalize_name(a.name.as_str());
        out.append(key.as_str());
        out.push(':');
        out.push(' ');
        match &a.value {
            Some(v) => {
                let q = to_rust_string(v.as_str());
                out.append(q.as_str());
            },
            None => {
                out.push('t');
                out.push('r');
                out.push('u');
                out.push('e');
            },
        }
        out.push(',');
        proof {
            assert(views.take(k + 1).drop_last() =~= views.take(k as int));
            assert(views.take(k + 1).last() == a@);
            assert(out@ =~= line_start + attr_line(a@, depth as nat + 1));
        }
        k = k + 1;
    }
    assert(views.take(sorted@.len() as int) =~= views);
}

/// Writes the element `node` at level `depth`; where it has children, queues them and
/// the end of its block in front of `work` and returns the level one deeper.
fn open_element<'a>(out: &mut String, work: &mut VecDeque<Work<'a>>, node: &'a Node, depth: usize) -> (d: usize)
    requires
        node is Element,
        depth == closes(items(old(work)@)),
    ensures
        final(out)@ + pending_text(items(final(work)@), d as nat) == old(out)@ + render_node(
            *node,
            depth as nat,
        ) + pending_text(items(old(work)@), depth as nat),
        d == closes(items(final(work)@)),
        weight(items(final(work)@)) < 2 * node_size(*node) + weight(items(old(work)@)),
{
    let ghost out_before = out@;
    let ghost rest = items(work@);
    match node {
        Node::Element(e) => {
            push_indent(out, depth);
            out.append(e.name.as_str());
            out.push(' ');
            out.push('{');
            write_attributes(out, &e.attributes, depth);
            assert(out@ =~= out_before + element_head(*e, depth as nat));
            if e.children.len() == 0 {
                if e.attributes.len() > 0 {
                    out.push('\n');
                    push_indent(out, depth);
                }
                out.push('}');
                out.push('\n');
                assert(out@ =~= out_before + render_node(*node, depth as nat));
                depth
            } else {
                out.push('\n');
                work.push_front(Work::Close);
                let mut k: usize = e.children.len();
                assert(items(work@) =~= visits(e.children@.skip(k as int)) + (seq![None] + rest));
                while k > 0
                    invariant
                        k <= e.children@.len(),
                        items(work@) == visits(e.children@.skip(k as int)) + (seq![None] + rest),
                    decreases k,
                {
                    k = k - 1;
                    let child = &e.children[k];
                    let ghost old_work = work@;
                    work.push_front(Work::Visit(child));
                    assert(items(work@) =~= seq![Some(e.children@[k as int])] + items(old_work));
                    assert(items(work@) =~= visits(e.children@.skip(k as int)) + (seq![None]
                        + rest));
                }
                let ghost tail = seq![None] + rest;
                proof {
                    assert(e.children@.skip(0) =~= e.children@);
                    lemma_visits_prefix(e.children@, tail, depth as nat + 1);
                    assert(tail.drop_first() =~= rest);
                    assert(closes(tail) == 1 + closes(rest));
                    assert(pending_text(tail, depth as nat + 1) == indent(depth as nat) + seq![
                        '}',
                        '\n',
                    ] + pending_text(rest, depth as nat));
                    assert(weight(tail) == 1 + weight(rest));
                    lemma_closes_le_len(items(work@));
                }
                // Each open block has its end queued, so the queue's length bounds the depth.
                let queued = work.len();
                assert(depth + 1 <= queued);
                assert(out@ + pending_text(items(work@), depth as nat + 1) =~= out_before
                    + render_node(*node, depth as nat) + pending_text(rest, depth as nat));
                depth + 1
            }
        },
        _ => depth,
    }
}

/// Takes the first item of pending work and writes what it stands for.
fn step<'a>(out: &mut String, work: &mut VecDeque<Work<'a>>, depth: usize) -> (d: usize)
    requires
        old(work)@.len() > 0,
        depth == closes(items(old(work)@)),
    ensures
        final(out)@ + pending_text(items(final(work)@), d as nat) == old(out)@ + pending_text(
            items(old(work)@),
            depth as nat,
        ),
        d == closes(items(final(work)@)),
        weight(items(final(work)@)) < weight(items(old(work)@)),
{
    let ghost before = items(work@);
    let ghost out_before = out@;
    let popped = work.pop_front();
    proof {
        assert(items(work@) =~= before.drop_first());
    }
    match popped {
        None => depth,
        Some(Work::Close) => {
            let d = depth - 1;
            push_indent(out, d);
            out.push('}');
            out.push('\n');
            assert(out@ =~= out_before + indent(d as nat) + seq!['}', '\n']);
            d
        },
        Some(Work::Visit(node)) => {
            match node {
                Node::Element(_) => open_element(out, work, node, depth),
                Node::Text(t) => {
                    push_indent(out, depth);
                    let q = to_rust_string(t.as_str());
                    out.append(q.as_str());
                    out.push('\n');
                    assert(out@ =~= out_before + render_node(*node, depth as nat));
                    depth
                },
                Node::Comment(c) => {
                    push_indent(out, depth);
                    out.push('/');
                    out.push('/');
                    out.push(' ');
                    let body = strip_comment(c.as_str());
                    out.append(body.as_str());
                    out.push('\n');
                    assert(out@ =~= out_before + render_node(*node, depth as nat));
                    depth
                },
            }
        },
    }
}

/// Writes a markup tree as brace-delimited element blocks: one line per element opening,
/// attribute, text and comment, four spaces of indentation per level, attributes sorted.
pub fn render(nodes: &Vec<Node>) -> (r: String)
    ensures
        r@ == render_nodes(nodes@, 0),
{
    let mut work: VecDeque<Work> = VecDeque::new();
    let mut i: usize = 0;
    while i < nodes.len()
        invariant
            i <= nodes@.len(),
            items(work@) == visits(nodes@.take(i as int)),
        decreases nodes.len() - i,
    {
        let node = &nodes[i];
        let ghost old_work = work@;
        work.push_back(Work::Visit(node));
        assert(items(work@) =~= items(old_work).push(Some(nodes@[i as int])));
        assert(nodes@.take(i + 1) =~= nodes@.take(i as int).push(nodes@[i as int]));
        i = i + 1;
        assert(items(work@) =~= visits(nodes@.take(i as int)));
    }
    proof {
        assert(nodes@.take(nodes@.len() as int) =~= nodes@);
        lemma_visits_prefix(nodes@, Seq::empty(), 0);
        assert(visits(nodes@) + Seq::empty() =~= visits(nodes@));
        assert(pending_text(Seq::empty(), 0) =~= Seq::empty());
        assert(closes(Seq::empty()) == 0);
    }
    let mut out = String::new();
    let mut depth: usize = 0;
    while work.len() > 0
        invariant
            out@ + pending_text(items(work@), depth as nat) == render_nodes(nodes@, 0),
            depth == closes(items(work@)),
        decreases weight(items(work@)),
    {
        depth = step(&mut out, &mut work, depth);
    }
    assert(pending_text(items(work@), depth as nat) =~= Seq::empty());
    out
}

/// An element with neither attributes nor children is a single line: its indentation,
/// its name and ` {}`.
pub proof fn lemma_empty_element(e: Element, d: nat)
    requires
        e.attributes@.len() == 0,
        e.children@.len() == 0,
    ensures
        render_node(Node::Element(e), d) == indent(d) + e.name@ + seq![' ', '{', '}', '\n'],
{
    assert(e.attrs() =~= Seq::<AttrV>::empty());
    assert(sort_attrs(e.attrs()) =~= Seq::<AttrV>::empty());
    assert(render_node(Node::Element(e), d) =~= indent(d) + e.name@ + seq![' ', '{', '}', '\n']);
}

/// Two elements that differ only in the order of their attributes are written the same.
pub proof fn lemma_attribute_order_irrelevant(e1: Element, e2: Element, d: nat)
    requires
        e1.name@ == e2.name@,
        e1.children@ == e2.children@,
        e1.attrs().to_multiset() == e2.attrs().to_multiset(),
    ensures
        render_node(Node::Element(e1), d) == render_node(Node::Element(e2), d),
{
    lemma_sort_ignores_order(e1.attrs(), e2.attrs());
    vstd::seq_lib::to_multiset_len(e1.attrs());
    vstd::seq_lib::to_multiset_len(e2.attrs());
    assert(element_head(e1, d) == element_head(e2, d));
}

/// An element whose only attribute has no value, and which has no children, is written
/// with the bare `true` as that value.
pub proof fn lemma_solo_attribute(e: Element, d: nat)
    requires
        e.attributes@.len() == 1,
        e.attributes@[0].value is None,
        e.children@.len() == 0,
    ensures
        render_node(Node::Element(e), d) == indent(d) + e.name@ + seq![' ', '{', '\n'] + indent(
            d + 1,
        ) + snake_name(e.attributes@[0].name@) + seq![':', ' ', 't', 'r', 'u', 'e', ','] + seq![
            '\n',
        ] + indent(d) + seq!['}', '\n'],
{
    let a = e.attrs();
    assert(a =~= seq![(e.attributes@[0].name@, None::<Seq<char>>)]);
    assert(a.drop_last() =~= Seq::<AttrV>::empty());
    assert(sort_attrs(a.drop_last()) =~= Seq::<AttrV>::empty());
    assert(insert_sorted(Seq::<AttrV>::empty(), a.last()) =~= a);
    assert(sort_attrs(a) =~= a);
    assert(attr_lines(a.drop_last(), d + 1) =~= Seq::<char>::empty());
    assert(render_node(Node::Element(e), d) =~= indent(d) + e.name@ + seq![' ', '{', '\n']
        + indent(d + 1) + snake_name(e.attributes@[0].name@) + seq![
        ':',
        ' ',
        't',
        'r',
        'u',
        'e',
        ',',
    ] + seq!['\n'] + indent(d) + seq!['}', '\n']);
}

/// How many times `c` occurs in `s`.
pub open spec fn count_of(s: Seq<char>, c: char) -> nat
    decreases s.len(),
{
    if s.len() == 0 {
        0
    } else {
        count_of(s.drop_last(), c) + (if s.last() == c {
            1nat
        } else {
            0nat
        })
    }
}

pub open spec fn brace_free(s: Seq<char>) -> bool {
    !s.contains('{') && !s.contains('}')
}

/// An attribute whose snake name and value hold no brace.
pub open spec fn attr_brace_free(a: AttrV) -> bool {
    brace_free(snake_name(a.0)) && (a.1 is Some ==> brace_free(a.1->Some_0))
}

/// No brace occurs in any name, attribute, text or comment body of the tree.
pub open spec fn node_brace_free(n: Node) -> bool
    decreases n,
{
    match n {
        Node::Element(e) => brace_free(e.name@) && (forall|k: int|
            0 <= k < e.attrs().len() ==> attr_brace_free(#[trigger] e.attrs()[k]))
            && nodes_brace_free(e.children@),
        Node::Text(t) => brace_free(t@),
        Node::Comment(c) => brace_free(comment_body(c@)),
    }
}

pub open spec fn nodes_brace_free(s: Seq<Node>) -> bool
    decreases s,
{
    if s.len() == 0 {
        true
    } else {
        node_brace_free(s[0]) && nodes_brace_free(s.subrange(1, s.len() as int))
    }
}

/// The number of elements in a tree.
pub open spec fn element_count(n: Node) -> nat
    decreases n,
{
    match n {
        Node::Element(e) => 1 + elements_in(e.children@),
        _ => 0,
    }
}

pub open spec fn elements_in(s: Seq<Node>) -> nat
    decreases s,
{
    if s.len() == 0 {
        0
    } else {
        element_count(s[0]) + elements_in(s.subrange(1, s.len() as int))
    }
}

proof fn lemma_count_concat(a: Seq<char>, b: Seq<char>, c: char)
    ensures
        count_of(a + b, c) == count_of(a, c) + count_of(b, c),
    decreases b.len(),
{
    if b.len() == 0 {
        assert(a + b =~= a);
    } else {
        lemma_count_concat(a, b.drop_last(), c);
        assert((a + b).drop_last() =~= a + b.drop_last());
    }
}

proof fn lemma_count_absent(s: Seq<char>, c: char)
    requires
        !s.contains(c),
    ensures
        count_of(s, c) == 0,
    decreases s.len(),
{
    if s.len() > 0 {
        assert(s.last() == s[s.len() - 1]);
        assert(!s.drop_last().contains(c)) by {
            if s.drop_last().contains(c) {
                let i = choose|i: int| 0 <= i < s.drop_last().len() && s.drop_last()[i] == c;
                assert(s[i] == c);
            }
        }
        lemma_count_absent(s.drop_last(), c);
    }
}

proof fn lemma_free_concat(a: Seq<char>, b: Seq<char>)
    requires
        brace_free(a),
        brace_free(b),
    ensures
        brace_free(a + b),
{
    if (a + b).contains('{') || (a + b).contains('}') {
        let i = choose|i: int| 0 <= i < (a + b).len() && ((a + b)[i] == '{' || (a + b)[i] == '}');
        if i < a.len() {
            assert(a[i] == (a + b)[i]);
        } else {
            assert(b[i - a.len()] == (a + b)[i]);
        }
    }
}

proof fn lemma_free_counts(s: Seq<char>)
    requires
        brace_free(s),
    ensures
        count_of(s, '{') == 0,
        count_of(s, '}') == 0,
{
    lemma_count_absent(s, '{');
    lemma_count_absent(s, '}');
}

proof fn lemma_escaped_free(s: Seq<char>)
    requires
        brace_free(s),
    ensures
        brace_free(escaped(s)),
    decreases s.len(),
{
    if s.len() > 0 {
        assert(brace_free(s.drop_last())) by {
            if s.drop_last().contains('{') || s.drop_last().contains('}') {
                let i = choose|i: int|
                    0 <= i < s.drop_last().len() && (s.drop_last()[i] == '{' || s.drop_last()[i]
                        == '}');
                assert(s[i] == s.drop_last()[i]);
            }
        }
        lemma_escaped_free(s.drop_last());
        assert(s.last() == s[s.len() - 1]);
        lemma_free_concat(escaped(s.drop_last()), escape_char(s.last()));
    }
}

proof fn lemma_indent_free(d: nat)
    ensures
        brace_free(indent(d)),
{
}

proof fn lemma_attr_lines_free(s: Seq<AttrV>, d: nat)
    requires
        forall|k: int| 0 <= k < s.len() ==> attr_brace_free(#[trigger] s[k]),
    ensures
        brace_free(attr_lines(s, d)),
    decreases s.len(),
{
    if s.len() > 0 {
        lemma_attr_lines_free(s.drop_last(), d);
        let a = s.last();
        assert(attr_brace_free(a));
        lemma_indent_free(d);
        if a.1 is Some {
            lemma_escaped_free(a.1->Some_0);
            lemma_free_concat(seq!['"'], escaped(a.1->Some_0));
            lemma_free_concat(seq!['"'] + escaped(a.1->Some_0), seq!['"']);
        }
        lemma_free_concat(seq!['\n'], indent(d));
        lemma_free_concat(seq!['\n'] + indent(d), snake_name(a.0));
        lemma_free_concat(seq!['\n'] + indent(d) + snake_name(a.0), seq![':', ' ']);
        lemma_free_concat(seq!['\n'] + indent(d) + snake_name(a.0) + seq![':', ' '], value_text(a.1));
        lemma_free_concat(
            seq!['\n'] + indent(d) + snake_name(a.0) + seq![':', ' '] + value_text(a.1),
            seq![','],
        );
        lemma_free_concat(attr_lines(s.drop_last(), d), attr_line(a, d));
    }
}

proof fn lemma_sorted_free(s: Seq<AttrV>)
    requires
        forall|k: int| 0 <= k < s.len() ==> attr_brace_free(#[trigger] s[k]),
    ensures
        forall|k: int|
            0 <= k < sort_attrs(s).len() ==> attr_brace_free(#[trigger] sort_attrs(s)[k]),
{
    lemma_sort_attrs(s);
    let t = sort_attrs(s);
    assert forall|k: int| 0 <= k < t.len() implies attr_brace_free(#[trigger] t[k]) by {
        vstd::seq_lib::to_multiset_contains(t, t[k]);
        vstd::seq_lib::to_multiset_contains(s, t[k]);
        assert(t.contains(t[k]));
        let j = choose|j: int| 0 <= j < s.len() && s[j] == t[k];
    }
}

proof fn lemma_node_braces(n: Node, d: nat)
    requires
        node_brace_free(n),
    ensures
        count_of(render_node(n, d), '{') == element_count(n),
        count_of(render_node(n, d), '}') == element_count(n),
    decreases n,
{
    lemma_indent_free(d);
    match n {
        Node::Element(e) => {
            lemma_sorted_free(e.attrs());
            lemma_attr_lines_free(sort_attrs(e.attrs()), d + 1);
            let lines = attr_lines(sort_attrs(e.attrs()), d + 1);
            lemma_free_concat(indent(d), e.name@);
            let pre = indent(d) + e.name@;
            lemma_free_counts(pre);
            lemma_free_counts(lines);
            lemma_count_concat(pre, seq![' ', '{'], '{');
            lemma_count_concat(pre, seq![' ', '{'], '}');
            lemma_count_concat(pre + seq![' ', '{'], lines, '{');
            lemma_count_concat(pre + seq![' ', '{'], lines, '}');
            assert(seq![' ', '{'].drop_last() =~= seq![' ']);
            assert(seq![' '].drop_last() =~= Seq::<char>::empty());
            assert(seq!['}', '\n'].drop_last() =~= seq!['}']);
            assert(seq!['}'].drop_last() =~= Seq::<char>::empty());
            let head = element_head(e, d);
            assert(head == pre + seq![' ', '{'] + lines);
            reveal_with_fuel(count_of, 3);
            assert(seq![' ', '{'].last() == '{' && seq![' '].last() == ' ');
            assert(seq!['}', '\n'].last() == '\n' && seq!['}'].last() == '}');
            assert(count_of(seq![' ', '{'], '{') == 1);
            assert(count_of(seq![' ', '{'], '}') == 0);
            assert(count_of(seq!['}', '\n'], '{') == 0);
            assert(count_of(seq!['}', '\n'], '}') == 1);
            assert(count_of(head, '{') == 1);
            assert(count_of(head, '}') == 0);
            if e.children@.len() == 0 {
                let mid: Seq<char> = if e.attributes@.len() == 0 {
                    Seq::empty()
                } else {
                    seq!['\n'] + indent(d)
                };
                lemma_free_concat(seq!['\n'], indent(d));
                lemma_free_counts(mid);
                lemma_count_concat(head, mid, '{');
                lemma_count_concat(head, mid, '}');
                lemma_count_concat(head + mid, seq!['}', '\n'], '{');
                lemma_count_concat(head + mid, seq!['}', '\n'], '}');
                assert(elements_in(e.children@) == 0);
                assert(render_node(n, d) == head + mid + seq!['}', '\n']);
            } else {
                lemma_nodes_braces(e.children@, d + 1);
                let body = render_nodes(e.children@, d + 1);
                lemma_free_counts(seq!['\n']);
                lemma_count_concat(head, seq!['\n'], '{');
                lemma_count_concat(head, seq!['\n'], '}');
                lemma_count_concat(head + seq!['\n'], body, '{');
                lemma_count_concat(head + seq!['\n'], body, '}');
                lemma_free_counts(indent(d));
                lemma_count_concat(head + seq!['\n'] + body, indent(d), '{');
                lemma_count_concat(head + seq!['\n'] + body, indent(d), '}');
                lemma_count_concat(head + seq!['\n'] + body + indent(d), seq!['}', '\n'], '{');
                lemma_count_concat(head + seq!['\n'] + body + indent(d), seq!['}', '\n'], '}');
                assert(render_node(n, d) == head + seq!['\n'] + body + indent(d) + seq!['}', '\n']);
            }
        },
        Node::Text(t) => {
            lemma_escaped_free(t@);
            lemma_free_concat(seq!['"'], escaped(t@));
            lemma_free_concat(seq!['"'] + escaped(t@), seq!['"']);
            lemma_free_concat(indent(d), quoted(t@));
            lemma_free_concat(indent(d) + quoted(t@), seq!['\n']);
            lemma_free_counts(render_node(n, d));
        },
        Node::Comment(c) => {
            lemma_free_concat(indent(d), seq!['/', '/', ' ']);
            lemma_free_concat(indent(d) + seq!['/', '/', ' '], comment_body(c@));
            lemma_free_concat(indent(d) + seq!['/', '/', ' '] + comment_body(c@), seq!['\n']);
            lemma_free_counts(render_node(n, d));
        },
    }
}

proof fn lemma_nodes_braces(s: Seq<Node>, d: nat)
    requires
        nodes_brace_free(s),
    ensures
        count_of(render_nodes(s, d), '{') == elements_in(s),
        count_of(render_nodes(s, d), '}') == elements_in(s),
    decreases s,
{
    if s.len() > 0 {
        let rest = s.subrange(1, s.len() as int);
        lemma_node_braces(s[0], d);
        lemma_nodes_braces(rest, d);
        lemma_count_concat(render_node(s[0], d), render_nodes(rest, d), '{');
        lemma_count_concat(render_node(s[0], d), render_nodes(rest, d), '}');
    }
}

/// Where no name, attribute, text or comment holds a brace of its own, the text has one
/// opening brace and one closing brace for each element.
pub proof fn lemma_braces_balanced(nodes: Seq<Node>, d: nat)
    requires
        nodes_brace_free(nodes),
    ensures
        count_of(render_nodes(nodes, d), '{') == elements_in(nodes),
        count_of(render_nodes(nodes, d), '}') == elements_in(nodes),
{
    lemma_nodes_braces(nodes, d);
}

proof fn lemma_ends_with_newline(s: Seq<Node>, d: nat)
    requires
        s.len() > 0,
    ensures
        render_nodes(s, d).len() > 0,
        render_nodes(s, d).last() == '\n',
    decreases s,
{
    let rest = s.subrange(1, s.len() as int);
    if rest.len() > 0 {
        lemma_ends_with_newline(rest, d);
    } else {
        assert(render_nodes(rest, d) =~= Seq::<char>::empty());
    }
    let r = render_nodes(s, d);
    assert(r == render_node(s[0], d) + render_nodes(rest, d));
    match s[0] {
        Node::Element(e) => {
            if e.children@.len() > 0 {
                lemma_ends_with_newline(e.children@, d + 1);
            }
        },
        _ => {},
    }
}

/// An element's block starts at the element's own indentation, and where it spans more
/// than one line, its closing brace stands alone on the last line at that same
/// indentation.
pub proof fn lemma_block_closes_at_own_indent(e: Element, d: nat)
    requires
        e.children@.len() > 0 || e.attributes@.len() > 0,
    ensures
        ({
            let r = render_node(Node::Element(e), d);
            &&& r.len() >= 8 * d + 3
            &&& r.take(4 * d as int) == indent(d)
            &&& r.skip(r.len() - (4 * d + 3)) == seq!['\n'] + indent(d) + seq!['}', '\n']
        }),
{
    let r = render_node(Node::Element(e), d);
    let head = element_head(e, d);
    assert(head.take(4 * d as int) =~= indent(d));
    if e.children@.len() == 0 {
        assert(r == head + (seq!['\n'] + indent(d)) + seq!['}', '\n']);
        assert(r.take(4 * d as int) =~= indent(d));
        assert(r.skip(r.len() - (4 * d + 3)) =~= seq!['\n'] + indent(d) + seq!['}', '\n']);
    } else {
        let body = render_nodes(e.children@, d + 1);
        lemma_ends_with_newline(e.children@, d + 1);
        let pre = head + seq!['\n'] + body;
        assert(r == pre + indent(d) + seq!['}', '\n']);
        assert(pre.last() == '\n');
        assert(r.take(4 * d as int) =~= indent(d));
        assert(r.skip(r.len() - (4 * d + 3)) =~= seq!['\n'] + indent(d) + seq!['}', '\n']);
    }
}

/// Two trees that differ only in the order of attributes within each element.
pub open spec fn reordered_node(a: Node, b: Node) -> bool
    decreases a,
{
    match (a, b) {
        (Node::Element(x), Node::Element(y)) => x.name@ == y.name@ && x.attrs().to_multiset()
            == y.attrs().to_multiset() && reordered_nodes(x.children@, y.children@),
        (Node::Text(x), Node::Text(y)) => x@ == y@,
        (Node::Comment(x), Node::Comment(y)) => x@ == y@,
        _ => false,
    }
}

pub open spec fn reordered_nodes(a: Seq<Node>, b: Seq<Node>) -> bool
    decreases a,
{
    if a.len() == 0 {
        b.len() == 0
    } else {
        b.len() > 0 && reordered_node(a[0], b[0]) && reordered_nodes(
            a.subrange(1, a.len() as int),
            b.subrange(1, b.len() as int),
        )
    }
}

proof fn lemma_reordered_node(a: Node, b: Node, d: nat)
    requires
        reordered_node(a, b),
    ensures
        render_node(a, d) == render_node(b, d),
    decreases a,
{
    match (a, b) {
        (Node::Element(x), Node::Element(y)) => {
            lemma_sort_ignores_order(x.attrs(), y.attrs());
            vstd::seq_lib::to_multiset_len(x.attrs());
            vstd::seq_lib::to_multiset_len(y.attrs());
            assert(element_head(x, d) == element_head(y, d));
            lemma_reordered_nodes(x.children@, y.children@, d + 1);
        },
        _ => {},
    }
}

proof fn lemma_reordered_nodes(a: Seq<Node>, b: Seq<Node>, d: nat)
    requires
        reordered_nodes(a, b),
    ensures
        render_nodes(a, d) == render_nodes(b, d),
        a.len() == 0 <==> b.len() == 0,
    decreases a,
{
    if a.len() > 0 {
        lemma_reordered_node(a[0], b[0], d);
        lemma_reordered_nodes(a.subrange(1, a.len() as int), b.subrange(1, b.len() as int), d);
    }
}

/// Reordering the attributes of any elements of a tree does not change what the tree is
/// written as: attributes are always written sorted.
pub proof fn lemma_attribute_order_irrelevant_in_trees(a: Seq<Node>, b: Seq<Node>, d: nat)
    requires
        reordered_nodes(a, b),
    ensures
        render_nodes(a, d) == render_nodes(b, d),
{
    lemma_reordered_nodes(a, b, d);
}

proof fn lemma_node_by_view(a: Node, b: Node, d: nat)
    requires
        node_view(a) == node_view(b),
    ensures
        render_node(a, d) == render_node(b, d),
    decreases a,
{
    match (a, b) {
        (Node::Element(x), Node::Element(y)) => {
            lemma_nodes_view(x.children@);
            lemma_nodes_view(y.children@);
            lemma_sort_ignores_order(x.attrs(), y.attrs());
            vstd::seq_lib::to_multiset_len(x.attrs());
            vstd::seq_lib::to_multiset_len(y.attrs());
            assert(x.attrs().len() == y.attrs().len());
            assert(element_head(x, d) == element_head(y, d));
            assert forall|i: int| 0 <= i < x.children@.len() implies node_view(
                #[trigger] x.children@[i],
            ) == node_view(y.children@[i]) by {
                assert(nodes_view(x.children@)[i] == node_view(x.children@[i]));
                assert(nodes_view(y.children@)[i] == node_view(y.children@[i]));
            }
            lemma_nodes_by_view(x.children@, y.children@, d + 1);
        },
        _ => {},
    }
}

proof fn lemma_nodes_by_view(a: Seq<Node>, b: Seq<Node>, d: nat)
    requires
        a.len() == b.len(),
        forall|i: int| 0 <= i < a.len() ==> node_view(#[trigger] a[i]) == node_view(b[i]),
    ensures
        render_nodes(a, d) == render_nodes(b, d),
    decreases a,
{
    if a.len() > 0 {
        lemma_node_by_view(a[0], b[0], d);
        let a1 = a.subrange(1, a.len() as int);
        let b1 = b.subrange(1, b.len() as int);
        assert forall|i: int| 0 <= i < a1.len() implies node_view(#[trigger] a1[i]) == node_view(
            b1[i],
        ) by {
            assert(a1[i] == a[i + 1] && b1[i] == b[i + 1]);
        }
        lemma_nodes_by_view(a1, b1, d);
    }
}

/// What a tree is written as depends only on its mathematical form.
pub proof fn lemma_render_follows_view(a: Seq<Node>, b: Seq<Node>, d: nat)
    requires
        nodes_view(a) == nodes_view(b),
    ensures
        render_nodes(a, d) == render_nodes(b, d),
{
    lemma_nodes_view(a);
    lemma_nodes_view(b);
    assert forall|i: int| 0 <= i < a.len() implies node_view(#[trigger] a[i]) == node_view(
        b[i],
    ) by {
        assert(nodes_view(a)[i] == node_view(a[i]));
        assert(nodes_view(b)[i] == node_view(b[i]));
    }
    lemma_nodes_by_view(a, b, d);
}

/// `n` is a node of the forest `s`, nested `depth` levels below the forest's own level.
pub open spec fn appears_in(n: Node, s: Seq<Node>, depth: nat) -> bool
    decreases s,
{
    if s.len() == 0 {
        false
    } else {
        (depth == 0 && s[0] == n) || (match s[0] {
            Node::Element(e) => depth > 0 && appears_in(n, e.children@, (depth - 1) as nat),
            _ => false,
        }) || appears_in(n, s.subrange(1, s.len() as int), depth)
    }
}

proof fn lemma_appears_as_block(n: Node, s: Seq<Node>, k: nat, d: nat) -> (i: int)
    requires
        appears_in(n, s, k),
    ensures
        0 <= i,
        i + render_node(n, d + k).len() <= render_nodes(s, d).len(),
        render_nodes(s, d).subrange(i, i + render_node(n, d + k).len()) == render_node(n, d + k),
    decreases s,
{
    let rest = s.subrange(1, s.len() as int);
    let first = render_node(s[0], d);
    let r = render_nodes(s, d);
    assert(r == first + render_nodes(rest, d));
    let b = render_node(n, d + k);
    if k == 0 && s[0] == n {
        assert(r.subrange(0, b.len() as int) =~= b);
        0
    } else if s[0] is Element && k > 0 && appears_in(n, s[0]->Element_0.children@, (k - 1) as nat) {
        let e = s[0]->Element_0;
        let j = lemma_appears_as_block(n, e.children@, (k - 1) as nat, d + 1);
        assert(d + 1 + (k - 1) == d + k);
        let inner = render_nodes(e.children@, d + 1);
        let pre = element_head(e, d) + seq!['\n'];
        if e.children@.len() == 0 {
            assert(inner =~= Seq::<char>::empty());
        }
        assert(e.children@.len() > 0);
        assert(first == pre + inner + indent(d) + seq!['}', '\n']);
        let i = pre.len() + j;
        assert(r.subrange(i, i + b.len()) =~= inner.subrange(j, j + b.len()));
        i
    } else {
        let j = lemma_appears_as_block(n, rest, k, d);
        let i = first.len() + j;
        assert(r.subrange(i, i + b.len()) =~= render_nodes(rest, d).subrange(j, j + b.len()));
        i
    }
}

/// Every element of a tree, at whatever depth `k` below the top, is written as one
/// contiguous block that starts at its own indentation; where the block spans more than
/// one line, its closing brace stands alone on the last line at that same indentation.
pub proof fn lemma_every_block_closes_at_own_indent(s: Seq<Node>, e: Element, k: nat, d: nat)
    requires
        appears_in(Node::Element(e), s, k),
        e.children@.len() > 0 || e.attributes@.len() > 0,
    ensures
        ({
            let b = render_node(Node::Element(e), d + k);
            &&& b.take(4 * (d + k) as int) == indent(d + k)
            &&& b.len() >= 4 * (d + k) + 3
            &&& b.skip(b.len() - (4 * (d + k) + 3)) == seq!['\n'] + indent(d + k) + seq!['}', '\n']
        }),
        exists|i: int|
            0 <= i && i + render_node(Node::Element(e), d + k).len() <= render_nodes(s, d).len()
                && #[trigger] render_nodes(s, d).subrange(
                i,
                i + render_node(Node::Element(e), d + k).len(),
            ) == render_node(Node::Element(e), d + k),
{
    let i = lemma_appears_as_block(Node::Element(e), s, k, d);
    lemma_block_closes_at_own_indent(e, d + k);
}

proof fn lemma_attr_lines_contain(s: Seq<AttrV>, dd: nat, j: int) -> (i: int)
    requires
        0 <= j < s.len(),
    ensures
        0 <= i,
        i + attr_line(s[j], dd).len() <= attr_lines(s, dd).len(),
        attr_lines(s, dd).subrange(i, i + attr_line(s[j], dd).len()) == attr_line(s[j], dd),
    decreases s.len(),
{
    let init = s.drop_last();
    let whole = attr_lines(s, dd);
    assert(whole == attr_lines(init, dd) + attr_line(s.last(), dd));
    if j == s.len() - 1 {
        let i = attr_lines(init, dd).len() as int;
        assert(whole.subrange(i, i + attr_line(s[j], dd).len()) =~= attr_line(s[j], dd));
        i
    } else {
        let i = lemma_attr_lines_contain(init, dd, j);
        assert(init[j] == s[j]);
        assert(whole.subrange(i, i + attr_line(s[j], dd).len()) =~= attr_lines(init, dd).subrange(
            i,
            i + attr_line(s[j], dd).len(),
        ));
        i
    }
}

/// Every attribute of every element of a tree, at whatever depth `k` below the top, is
/// written as its own line: a line break, the indentation one level deeper than the
/// element's, the attribute's snake name, `: `, its value (quoted, or the bare `true`)
/// and a comma.
pub proof fn lemma_every_attribute_written(s: Seq<Node>, e: Element, k: nat, d: nat, j: int)
    requires
        appears_in(Node::Element(e), s, k),
        0 <= j < e.attributes@.len(),
    ensures
        attr_line(e.attributes@[j]@, d + k + 1) == seq!['\n'] + indent(d + k + 1) + snake_name(
            e.attributes@[j].name@,
        ) + seq![':', ' '] + value_text(e.attributes@[j]@.1) + seq![','],
        exists|i: int|
            0 <= i && i + attr_line(e.attributes@[j]@, d + k + 1).len() <= render_nodes(s, d).len()
                && #[trigger] render_nodes(s, d).subrange(
                i,
                i + attr_line(e.attributes@[j]@, d + k + 1).len(),
            ) == attr_line(e.attributes@[j]@, d + k + 1),
{
    let a = e.attributes@[j]@;
    let line = attr_line(a, d + k + 1);
    let n = Node::Element(e);
    let r = render_nodes(s, d);
    let b = render_node(n, d + k);
    let off = lemma_appears_as_block(n, s, k, d);
    let sorted = sort_attrs(e.attrs());
    lemma_sort_attrs(e.attrs());
    assert(e.attrs()[j] == a);
    vstd::seq_lib::to_multiset_contains(e.attrs(), a);
    vstd::seq_lib::to_multiset_contains(sorted, a);
    assert(e.attrs().contains(a));
    assert(sorted.contains(a));
    let m = choose|m: int| 0 <= m < sorted.len() && sorted[m] == a;
    let p = lemma_attr_lines_contain(sorted, d + k + 1, m);
    let head = element_head(e, d + k);
    let lines = attr_lines(sorted, d + k + 1);
    let front = indent(d + k) + e.name@ + seq![' ', '{'];
    assert(head == front + lines);
    assert(b.subrange(0, head.len() as int) =~= head);
    let q = front.len() + p;
    assert(head.subrange(q, q + line.len()) =~= lines.subrange(p, p + line.len()));
    assert(b.subrange(q, q + line.len()) =~= head.subrange(q, q + line.len()));
    let i = off + q;
    assert(r.subrange(i, i + line.len()) =~= b.subrange(q, q + line.len()));
}

} // verus!
