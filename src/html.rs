use vstd::prelude::*;
use crate::dom::{arena_wf, Attribute, Dom, DomNode, NodeKind};
use crate::text::{has_prefix, matches_at};
use kuchiki::traits::TendrilSink;
use kuchiki::{NodeData, NodeRef};

verus! {

#[verifier::external_type_specification]
#[verifier::external_body]
pub struct ExNodeRef(kuchiki::NodeRef);

/// Relies on kuchiki::parse_html: parses a whole HTML document.
#[verifier::external_body]
fn parse_document(html: &str) -> NodeRef {
    kuchiki::parse_html().one(html)
}

/// Relies on kuchiki's NodeRef::children: the children of a node, in order.
#[verifier::external_body]
fn children_of(n: &NodeRef) -> Vec<NodeRef> {
    n.children().collect()
}

/// Relies on kuchiki's NodeRef::inclusive_descendants: how many nodes the tree holds.
#[verifier::external_body]
fn tree_size(n: &NodeRef) -> usize {
    n.inclusive_descendants().count()
}

/// Relies on kuchiki's NodeRef::data: which kind of node this is.
#[verifier::external_body]
fn kind_of(n: &NodeRef) -> NodeKind {
    match n.data() {
        NodeData::Element(_) => NodeKind::Element,
        NodeData::Text(_) => NodeKind::Text,
        NodeData::Comment(_) => NodeKind::Comment,
        NodeData::Document(_) => NodeKind::Document,
        NodeData::DocumentFragment => NodeKind::Document,
        NodeData::Doctype(_) => NodeKind::Other,
        NodeData::ProcessingInstruction(_) => NodeKind::Other,
    }
}

/// Relies on kuchiki's NodeRef::as_element: the local name of an element.
#[verifier::external_body]
fn local_name_of(n: &NodeRef) -> String {
    n.as_element().map(|e| e.name.local.to_string()).unwrap_or_default()
}

/// Relies on kuchiki's ElementData::attributes: the attributes of an element.
#[verifier::external_body]
fn attributes_of(n: &NodeRef) -> Vec<Attribute> {
    match n.as_element() {
        Some(e) => e.attributes.borrow().map.iter()
            .map(|(k, v)| Attribute { name: k.local.to_string(), value: v.value.clone() })
            .collect(),
        None => Vec::new(),
    }
}

/// Relies on kuchiki's NodeRef::as_text and NodeRef::as_comment: the characters of
/// a text or comment node.
#[verifier::external_body]
fn characters_of(n: &NodeRef) -> String {
    match n.data() {
        NodeData::Text(t) => t.borrow().clone(),
        NodeData::Comment(c) => c.borrow().clone(),
        _ => String::new(),
    }
}

/// Relies on kuchiki's NodeRef::new_document.
#[verifier::external_body]
fn new_document() -> NodeRef {
    NodeRef::new_document()
}

/// Relies on kuchiki's NodeRef::new_element: an HTML element with the attributes.
#[verifier::external_body]
fn new_element(name: &str, attrs: &Vec<Attribute>) -> NodeRef {
    let html = html5ever::Namespace::from("http://www.w3.org/1999/xhtml");
    let qual = html5ever::QualName::new(None, html, html5ever::LocalName::from(name));
    NodeRef::new_element(qual, attrs.iter().map(|a| (
        kuchiki::ExpandedName::new("", a.name.as_str()),
        kuchiki::Attribute { prefix: None, value: a.value.clone() },
    )))
}

/// Relies on kuchiki's NodeRef::new_text.
#[verifier::external_body]
fn new_text(s: &str) -> NodeRef {
    NodeRef::new_text(s)
}

/// Relies on kuchiki's NodeRef::new_comment.
#[verifier::external_body]
fn new_comment(s: &str) -> NodeRef {
    NodeRef::new_comment(s)
}

/// Relies on kuchiki's NodeRef::append: `child` becomes the last child of `parent`.
#[verifier::external_body]
fn append_child(parent: &NodeRef, child: &NodeRef) {
    parent.append(child.clone())
}

/// Relies on kuchiki's NodeRef::to_string: the HTML serialization of the subtree.
#[verifier::external_body]
fn serialize(n: &NodeRef) -> String {
    n.to_string()
}

/// Copies the tree under `k` into the arena below `parent`, going at most `fuel` levels deep.
fn copy_tree(dom: &mut Dom, k: &NodeRef, parent: usize, fuel: usize)
    requires
        old(dom).wf(),
        parent < old(dom).nodes@.len(),
    ensures
        final(dom).wf(),
        final(dom).nodes@.len() >= old(dom).nodes@.len(),
        forall|i: int| 0 <= i < old(dom).nodes@.len() ==> #[trigger] final(dom).nodes@[i] == old(dom).nodes@[i],
    decreases fuel,
{
    if fuel == 0 || dom.nodes.len() == usize::MAX {
        return;
    }
    let me = dom.nodes.len();
    let node = DomNode {
        kind: kind_of(k),
        name: local_name_of(k),
        attrs: attributes_of(k),
        text: characters_of(k),
        parent,
        detached: false,
    };
    dom.nodes.push(node);
    assert(arena_wf(dom.nodes@)) by {
        assert forall|i: int| 0 < i < dom.nodes@.len() implies (#[trigger] dom.nodes@[i].parent) < i by {
            if i < me {
                assert(dom.nodes@[i] == old(dom).nodes@[i]);
            }
        }
    }
    let kids = children_of(k);
    let mut c: usize = 0;
    while c < kids.len()
        invariant
            dom.wf(),
            me < dom.nodes@.len(),
            fuel > 0,
            dom.nodes@.len() >= old(dom).nodes@.len(),
            forall|i: int| 0 <= i < old(dom).nodes@.len() ==> #[trigger] dom.nodes@[i] == old(dom).nodes@[i],
        decreases kids@.len() - c,
    {
        copy_tree(dom, &kids[c], me, fuel - 1);
        c = c + 1;
    }
}

impl Dom {
    /// Parses an HTML document into an arena whose root is the document node.
    pub fn parse(html: &str) -> (r: Dom)
        ensures
            r.wf(),
            r.nodes@[0].kind == NodeKind::Document,
    {
        let doc = parse_document(html);
        let root = DomNode {
            kind: NodeKind::Document,
            name: String::new(),
            attrs: Vec::new(),
            text: String::new(),
            parent: 0,
            detached: false,
        };
        let mut dom = Dom { nodes: vec![root] };
        let size = tree_size(&doc);
        let kids = children_of(&doc);
        let mut c: usize = 0;
        while c < kids.len()
            invariant
                dom.wf(),
                dom.nodes@[0].kind == NodeKind::Document,
            decreases kids@.len() - c,
        {
            copy_tree(&mut dom, &kids[c], 0, size);
            c = c + 1;
        }
        dom
    }

    /// The HTML of the subtree under `root`, leaving out whatever was cut out of it.
    pub fn html_of(&self, root: usize) -> String
        requires
            self.wf(),
            root < self.nodes@.len(),
    {
        let n = self.nodes.len();
        let mut made: Vec<NodeRef> = Vec::new();
        let mut j: usize = 0;
        while j < n
            invariant
                n == self.nodes@.len(),
                self.wf(),
                root < n,
                made@.len() == j,
                j <= n,
            decreases n - j,
        {
            let node = &self.nodes[j];
            let k = match node.kind {
                NodeKind::Document => new_document(),
                NodeKind::Element => new_element(node.name.as_str(), &node.attrs),
                NodeKind::Text => new_text(node.text.as_str()),
                NodeKind::Comment => new_comment(node.text.as_str()),
                NodeKind::Other => new_text(""),
            };
            if j != root && j > 0 && !node.detached {
                append_child(&made[node.parent], &k);
            }
            made.push(k);
            j = j + 1;
        }
        serialize(&made[root])
    }
}

/// What the serializer puts before a parsed fragment's markup.
pub open spec fn doc_open() -> Seq<char> {
    "<html><head></head><body>"@
}

/// What the serializer puts after a parsed fragment's markup.
pub open spec fn doc_close() -> Seq<char> {
    "</body></html>"@
}

/// The markup without the document wrapper that parsing adds around a fragment.
pub open spec fn unwrapped(h: Seq<char>) -> Seq<char> {
    let a = doc_open().len();
    let b = doc_close().len();
    if h.len() >= a + b && has_prefix(h, doc_open()) && h.subrange(h.len() - b, h.len() as int) == doc_close() {
        h.subrange(a as int, h.len() - b)
    } else {
        h
    }
}

/// Takes off the document wrapper that parsing adds around a fragment.
pub fn strip_document_wrapper(html: &str) -> (r: String)
    ensures
        r@ == unwrapped(html@),
{
    let open = "<html><head></head><body>";
    let close = "</body></html>";
    let n = html.unicode_len();
    let a = open.unicode_len();
    let b = close.unicode_len();
    if n >= a && n - a >= b && matches_at(html, open, 0) && matches_at(html, close, n - b) {
        assert(html@.subrange(0, a as int) == open@);
        html.substring_char(a, n - b).to_owned()
    } else {
        html.to_owned()
    }
}

/// The HTML of the subtree under `node`, without the document wrapper.
pub fn node_to_html(dom: &Dom, node: usize) -> (r: String)
    requires
        dom.wf(),
        node < dom.nodes@.len(),
{
    let h = dom.html_of(node);
    strip_document_wrapper(h.as_str())
}

} // verus!
