use vstd::prelude::*;
use crate::dom::{arena_wf, attr_of, get_attr, set_attr, within, Dom, DomNode, NodeKind};
use crate::filter::{lemma_below_same_parents, same_but_attrs};
use crate::util::{http_prefixed, is_http};
use crate::web::{join_url, joined};

verus! {

/// Makes the links and images under a node absolute, against a base URL.
pub struct RelativeLinksFilter {
    pub base: String,
}

/// The attribute that holds the address of a node, if it has one: `href` for a
/// link (`a` or `area`), `src` for an `img`.
pub open spec fn address_attr(n: DomNode) -> Option<Seq<char>> {
    if n.kind != NodeKind::Element {
        None
    } else if n.name@ == "a"@ || n.name@ == "area"@ {
        Some("href"@)
    } else if n.name@ == "img"@ {
        Some("src"@)
    } else {
        None
    }
}

/// An address resolved against the base: empty and absolute ones, and those that do
/// not join, stay as they are.
pub open spec fn resolved(base: Seq<char>, v: Seq<char>) -> Seq<char> {
    if v.len() == 0 || http_prefixed(v) {
        v
    } else {
        match joined(base, v) {
            Some(u) => u,
            None => v,
        }
    }
}

/// The value of attribute `a` of node `j` after the filter ran under `root`.
pub open spec fn after_links(ns: Seq<DomNode>, root: int, base: Seq<char>, j: int, a: Seq<char>) -> Option<Seq<char>> {
    let n = ns[j];
    if within(ns, root, j) && address_attr(n) == Some(a) && attr_of(n.attrs@, a) is Some {
        Some(resolved(base, attr_of(n.attrs@, a)->Some_0))
    } else {
        attr_of(n.attrs@, a)
    }
}

impl RelativeLinksFilter {
    pub fn new(base: &str) -> (r: Self)
        ensures
            r.base@ == base@,
    {
        RelativeLinksFilter { base: base.to_owned() }
    }

    /// Resolves the `href` of links and the `src` of images under `node` (itself
    /// included) against the base URL.
    pub fn run(&self, dom: &mut Dom, node: usize)
        requires
            old(dom).wf(),
            node < old(dom).nodes@.len(),
        ensures
            final(dom).wf(),
            final(dom).nodes@.len() == old(dom).nodes@.len(),
            forall|j: int|
                0 <= j < old(dom).nodes@.len() ==> same_but_attrs(#[trigger] final(dom).nodes@[j], old(dom).nodes@[j]),
            forall|j: int, a: Seq<char>|
                0 <= j < old(dom).nodes@.len() ==> #[trigger] attr_of(final(dom).nodes@[j].attrs@, a)
                    == after_links(old(dom).nodes@, node as int, self.base@, j, a),
    {
        let ghost before = dom.nodes@;
        let n = dom.nodes.len();
        let mut j: usize = 0;
        while j < n
            invariant
                n == before.len(),
                dom.nodes@.len() == n,
                arena_wf(before),
                node < n,
                j <= n,
                forall|q: int| 0 <= q < n ==> same_but_attrs(#[trigger] dom.nodes@[q], before[q]),
                forall|q: int| j <= q < n ==> (#[trigger] dom.nodes@[q]).attrs == before[q].attrs,
                forall|q: int, a: Seq<char>|
                    0 <= q < j ==> #[trigger] attr_of(dom.nodes@[q].attrs@, a)
                        == after_links(before, node as int, self.base@, q, a),
            decreases n - j,
        {
            assert(dom.wf()) by {
                assert forall|i: int| 0 < i < dom.nodes@.len() implies (#[trigger] dom.nodes@[i].parent) < i by {
                    assert(same_but_attrs(dom.nodes@[i], before[i]));
                }
            }
            let inside = dom.is_within(node, j);
            proof {
                lemma_below_same_parents(dom.nodes@, before, node as int, j as int);
            }
            if inside {
                let which = address_attribute(&dom.nodes[j]);
                match which {
                    Some(a) => {
                        match get_attr(&dom.nodes[j].attrs, a) {
                            Some(v) => {
                                if v.unicode_len() > 0 && !is_http(v.as_str()) {
                                    match join_url(self.base.as_str(), v.as_str()) {
                                        Some(u) => set_attr(&mut dom.nodes[j].attrs, a, u),
                                        None => {},
                                    }
                                }
                            },
                            None => {},
                        }
                    },
                    None => {},
                }
            }
            j = j + 1;
        }
        assert(dom.wf()) by {
            assert forall|i: int| 0 < i < dom.nodes@.len() implies (#[trigger] dom.nodes@[i].parent) < i by {
                assert(same_but_attrs(dom.nodes@[i], before[i]));
            }
        }
    }
}

/// The attribute that holds the address of a node, if it has one.
pub fn address_attribute(n: &DomNode) -> (r: Option<&'static str>)
    ensures
        match r {
            Some(a) => address_attr(*n) == Some(a@),
            None => address_attr(*n) is None,
        },
{
    if n.kind != NodeKind::Element {
        return None;
    }
    let name = n.name.as_str();
    if crate::text::str_eq(name, "a") || crate::text::str_eq(name, "area") {
        Some("href")
    } else if crate::text::str_eq(name, "img") {
        Some("src")
    } else {
        None
    }
}

} // verus!
