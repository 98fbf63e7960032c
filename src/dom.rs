use vstd::prelude::*;
use crate::text::str_eq;

verus! {

/// What a node of a document is.
#[derive(PartialEq, Eq, Structural, Clone, Copy, Debug)]
pub enum NodeKind {
    Document,
    Element,
    Text,
    Comment,
    Other,
}

/// One attribute of an element.
#[derive(Debug)]
pub struct Attribute {
    pub name: String,
    pub value: String,
}

/// One node of a document arena.
#[derive(Debug)]
pub struct DomNode {
    pub kind: NodeKind,
    /// The local name of an element; empty for other kinds.
    pub name: String,
    /// The attributes of an element, in the order the parser gives them (by name).
    pub attrs: Vec<Attribute>,
    /// The characters of a text or comment node.
    pub text: String,
    /// The index of the parent node; unused for the root.
    pub parent: usize,
    /// Set once the node has been cut out of its parent.
    pub detached: bool,
}

/// A parsed document held as an arena: node 0 is the root, and every other node
/// comes after its parent, so that index order is document order.
#[derive(Debug)]
pub struct Dom {
    pub nodes: Vec<DomNode>,
}

/// The arena shape: a root, and each node after its parent.
pub open spec fn arena_wf(ns: Seq<DomNode>) -> bool {
    &&& ns.len() > 0
    &&& forall|i: int| 0 < i < ns.len() ==> (#[trigger] ns[i].parent) < i
}

/// `a` is a strict ancestor of `j`.
pub open spec fn below(ns: Seq<DomNode>, a: int, j: int) -> bool
    decreases j,
{
    if 0 < j < ns.len() && (ns[j].parent as int) < j {
        ns[j].parent == a || below(ns, a, ns[j].parent as int)
    } else {
        false
    }
}

/// `j` is `r` or lies under it.
pub open spec fn within(ns: Seq<DomNode>, r: int, j: int) -> bool {
    j == r || below(ns, r, j)
}

/// `j` is still reachable from `r`: no node on the way up to `r` was cut out.
pub open spec fn attached(ns: Seq<DomNode>, r: int, j: int) -> bool
    decreases j,
{
    if j == r {
        true
    } else if 0 < j < ns.len() && (ns[j].parent as int) < j {
        !ns[j].detached && attached(ns, r, ns[j].parent as int)
    } else {
        false
    }
}

/// An element with the given local name.
pub open spec fn is_tag(n: DomNode, tag: Seq<char>) -> bool {
    n.kind == NodeKind::Element && n.name@ == tag
}

/// The value of the first attribute named `name`, at index `i` or later.
pub open spec fn attr_from(attrs: Seq<Attribute>, name: Seq<char>, i: int) -> Option<Seq<char>>
    decreases attrs.len() - i,
{
    if i < 0 || i >= attrs.len() {
        None
    } else if attrs[i].name@ == name {
        Some(attrs[i].value@)
    } else {
        attr_from(attrs, name, i + 1)
    }
}

/// The value of the attribute named `name`.
pub open spec fn attr_of(attrs: Seq<Attribute>, name: Seq<char>) -> Option<Seq<char>> {
    attr_from(attrs, name, 0)
}

/// No attribute is named `name`.
pub open spec fn lacks_attr(attrs: Seq<Attribute>, name: Seq<char>) -> bool {
    forall|k: int| 0 <= k < attrs.len() ==> (#[trigger] attrs[k].name@) != name
}

proof fn lemma_attr_from_none(attrs: Seq<Attribute>, name: Seq<char>, i: int)
    requires
        0 <= i,
        forall|k: int| i <= k < attrs.len() ==> (#[trigger] attrs[k].name@) != name,
    ensures
        attr_from(attrs, name, i) == None::<Seq<char>>,
    decreases attrs.len() - i,
{
    if i < attrs.len() {
        lemma_attr_from_none(attrs, name, i + 1);
    }
}

/// The index of the first attribute named `name`.
pub fn find_attr(attrs: &Vec<Attribute>, name: &str) -> (r: Option<usize>)
    ensures
        match r {
            Some(k) => k < attrs@.len() && attrs@[k as int].name@ == name@
                && attr_of(attrs@, name@) == Some(attrs@[k as int].value@)
                && forall|q: int| 0 <= q < k ==> (#[trigger] attrs@[q].name@) != name@,
            None => lacks_attr(attrs@, name@) && attr_of(attrs@, name@) == None::<Seq<char>>,
        },
{
    let mut i: usize = 0;
    while i < attrs.len()
        invariant
            i <= attrs@.len(),
            forall|q: int| 0 <= q < i ==> (#[trigger] attrs@[q].name@) != name@,
            attr_of(attrs@, name@) == attr_from(attrs@, name@, i as int),
        decreases attrs@.len() - i,
    {
        if str_eq(attrs[i].name.as_str(), name) {
            return Some(i);
        }
        i = i + 1;
    }
    proof {
        lemma_attr_from_none(attrs@, name@, 0);
    }
    None
}

/// The value of the attribute named `name`, copied.
pub fn get_attr(attrs: &Vec<Attribute>, name: &str) -> (r: Option<String>)
    ensures
        match r {
            Some(v) => attr_of(attrs@, name@) == Some(v@),
            None => attr_of(attrs@, name@) == None::<Seq<char>>,
        },
{
    match find_attr(attrs, name) {
        Some(k) => Some(attrs[k].value.clone()),
        None => None,
    }
}

/// Gives the attribute named `name` the value `value`: the first such attribute is
/// overwritten, or a new one is added at the end. Other attributes keep their values.
pub fn set_attr(attrs: &mut Vec<Attribute>, name: &str, value: String)
    ensures
        attr_of(final(attrs)@, name@) == Some(value@),
        forall|other: Seq<char>|
            other != name@ ==> #[trigger] attr_of(final(attrs)@, other) == attr_of(old(attrs)@, other),
{
    let found = find_attr(attrs, name);
    let ghost before = attrs@;
    match found {
        Some(k) => {
            let old_name = attrs[k].name.clone();
            attrs.set(k, Attribute { name: old_name, value });
            proof {
                lemma_attr_first(attrs@, name@, 0, k as int);
            }
        },
        None => {
            attrs.push(Attribute { name: name.to_owned(), value });
            proof {
                lemma_attr_first(attrs@, name@, 0, before.len() as int);
            }
        },
    }
    assert forall|other: Seq<char>| other != name@ implies #[trigger] attr_of(attrs@, other)
        == attr_of(before, other) by {
        lemma_attr_same_for(before, attrs@, other, 0);
    }
}

/// The first attribute named `name` from `i` on sits at `k`.
proof fn lemma_attr_first(b: Seq<Attribute>, name: Seq<char>, i: int, k: int)
    requires
        0 <= i <= k < b.len(),
        forall|q: int| i <= q < k ==> (#[trigger] b[q].name@) != name,
        b[k].name@ == name,
    ensures
        attr_from(b, name, i) == Some(b[k].value@),
    decreases k - i,
{
    if i < k {
        lemma_attr_first(b, name, i + 1, k);
    }
}

/// Two attribute lists that agree on every attribute named `n` give it the same value.
proof fn lemma_attr_same_for(a: Seq<Attribute>, b: Seq<Attribute>, n: Seq<char>, i: int)
    requires
        0 <= i,
        a.len() <= b.len(),
        forall|q: int| 0 <= q < a.len() ==> (#[trigger] b[q].name@) == a[q].name@,
        forall|q: int| 0 <= q < a.len() && (#[trigger] b[q].name@) == n ==> b[q].value@ == a[q].value@,
        forall|q: int| a.len() <= q < b.len() ==> (#[trigger] b[q].name@) != n,
    ensures
        attr_from(a, n, i) == attr_from(b, n, i),
    decreases b.len() - i,
{
    if i < b.len() {
        lemma_attr_same_for(a, b, n, i + 1);
    }
}

impl Dom {
    /// The arena shape holds.
    pub open spec fn wf(&self) -> bool {
        arena_wf(self.nodes@)
    }

    /// Whether `a` is a strict ancestor of `j`.
    pub fn is_below(&self, a: usize, j: usize) -> (r: bool)
        requires
            self.wf(),
            j < self.nodes@.len(),
        ensures
            r == below(self.nodes@, a as int, j as int),
    {
        let mut k: usize = j;
        while k > 0
            invariant
                self.wf(),
                k < self.nodes@.len(),
                below(self.nodes@, a as int, j as int) == below(self.nodes@, a as int, k as int),
            decreases k,
        {
            let p = self.nodes[k].parent;
            if p == a {
                return true;
            }
            k = p;
        }
        false
    }

    /// Whether `j` is `r` or lies under it.
    pub fn is_within(&self, r: usize, j: usize) -> (b: bool)
        requires
            self.wf(),
            j < self.nodes@.len(),
        ensures
            b == within(self.nodes@, r as int, j as int),
    {
        j == r || self.is_below(r, j)
    }

    /// Whether `j` can still be reached from `r`.
    pub fn is_attached(&self, r: usize, j: usize) -> (b: bool)
        requires
            self.wf(),
            j < self.nodes@.len(),
        ensures
            b == attached(self.nodes@, r as int, j as int),
    {
        let mut k: usize = j;
        while k != r
            invariant
                self.wf(),
                k < self.nodes@.len(),
                attached(self.nodes@, r as int, j as int) == attached(self.nodes@, r as int, k as int),
            decreases k,
        {
            if k == 0 || self.nodes[k].detached {
                return false;
            }
            k = self.nodes[k].parent;
        }
        true
    }

    /// A copy of the subtree under `r`: `r` becomes the root, and the nodes under it
    /// follow in the same order (see `copies`).
    pub fn subtree(&self, r: usize) -> (out: Dom)
        requires
            self.wf(),
            r < self.nodes@.len(),
        ensures
            out.wf(),
            out.nodes@[0].kind == self.nodes@[r as int].kind,
            out.nodes@[0].name@ == self.nodes@[r as int].name@,
            out.nodes@[0].attrs@ == self.nodes@[r as int].attrs@,
            exists|m: Seq<int>| copies(self.nodes@, r as int, out.nodes@, m),
    {
        let ghost ns = self.nodes@;
        let n = self.nodes.len();
        let mut map: Vec<usize> = Vec::new();
        let mut nodes: Vec<DomNode> = Vec::new();
        let ghost mut m: Seq<int> = Seq::empty();
        let mut j: usize = 0;
        while j < n
            invariant
                n == ns.len(),
                ns == self.nodes@,
                self.wf(),
                r < n,
                j <= n,
                map@.len() == j,
                m.len() == nodes@.len(),
                forall|q: int| 0 <= q < j && within(ns, r as int, q) ==> #[trigger] map@[q] < nodes@.len()
                    && m[map@[q] as int] == q,
                j > r ==> nodes@.len() > 0 && m[0] == r,
                j <= r ==> nodes@.len() == 0,
                forall|i: int| 0 < i < nodes@.len() ==> (#[trigger] nodes@[i].parent) < i,
                forall|i: int| 0 <= i < nodes@.len() ==> #[trigger] copied_at(ns, r as int, nodes@, m, i),
                forall|i: int| 0 <= i < m.len() ==> #[trigger] m[i] < j,
                forall|a: int, b: int| 0 <= a < b < m.len() ==> #[trigger] m[a] < #[trigger] m[b],
            decreases n - j,
        {
            if j == r || (j > r && self.is_below(r, j)) {
                let src = &self.nodes[j];
                let parent = if j == r {
                    0
                } else {
                    proof {
                        lemma_below_step(ns, r as int, j as int);
                    }
                    map[src.parent]
                };
                let copy = DomNode {
                    kind: src.kind,
                    name: src.name.clone(),
                    attrs: copy_attrs(&src.attrs),
                    text: src.text.clone(),
                    parent,
                    detached: if j == r { false } else { src.detached },
                };
                let at = nodes.len();
                let ghost before_nodes = nodes@;
                let ghost before_m = m;
                nodes.push(copy);
                map.push(at);
                proof {
                    m = m.push(j as int);
                    assert forall|i: int| 0 <= i < m.len() implies #[trigger] m[i] < j + 1 by {
                        if i < at {
                            assert(m[i] == before_m[i]);
                        }
                    }
                    assert forall|a: int, b: int| 0 <= a < b < m.len() implies #[trigger] m[a] < #[trigger] m[b] by {
                        assert(m[a] == before_m[a]);
                        if b < at {
                            assert(m[b] == before_m[b]);
                        }
                    }
                    assert forall|i: int| 0 <= i < nodes@.len() implies #[trigger] copied_at(ns, r as int, nodes@, m, i) by {
                        if i < at {
                            assert(nodes@[i] == before_nodes[i]);
                            assert(m[i] == before_m[i]);
                            assert(copied_at(ns, r as int, before_nodes, before_m, i));
                            if i > 0 {
                                assert(m[nodes@[i].parent as int] == before_m[before_nodes[i].parent as int]);
                            }
                        } else if j != r {
                            assert(m[nodes@[i].parent as int] == before_m[nodes@[i].parent as int]);
                        }
                    }
                }
            } else {
                proof {
                    if j < r && below(ns, r as int, j as int) {
                        lemma_below_before(ns, r as int, j as int);
                    }
                }
                map.push(usize::MAX);
            }
            j = j + 1;
        }
        proof {
            assert forall|q: int| 0 <= q < ns.len() && within(ns, r as int, q) implies exists|i: int|
                0 <= i < m.len() && #[trigger] m[i] == q by {
                assert(m[map@[q] as int] == q);
            }
            assert(copied_at(ns, r as int, nodes@, m, 0));
            assert(copies(ns, r as int, nodes@, m));
        }
        Dom { nodes }
    }

    /// The first node, in document order, that the pattern selects.
    pub fn find_first(&self, p: &crate::pattern::Pattern) -> (r: Option<usize>)
        ensures
            match r {
                Some(j) => j < self.nodes@.len() && crate::pattern::selects(*p, self.nodes@[j as int])
                    && forall|q: int| 0 <= q < j ==> !crate::pattern::selects(*p, #[trigger] self.nodes@[q]),
                None => forall|q: int| 0 <= q < self.nodes@.len() ==> !crate::pattern::selects(*p, #[trigger] self.nodes@[q]),
            },
    {
        let mut j: usize = 0;
        while j < self.nodes.len()
            invariant
                j <= self.nodes@.len(),
                forall|q: int| 0 <= q < j ==> !crate::pattern::selects(*p, #[trigger] self.nodes@[q]),
            decreases self.nodes@.len() - j,
        {
            if p.selects(&self.nodes[j]) {
                return Some(j);
            }
            j = j + 1;
        }
        None
    }

    /// The text under `p`: its text nodes, in document order, joined.
    pub fn text_under(&self, p: usize) -> (r: String)
        requires
            self.wf(),
            p < self.nodes@.len(),
        ensures
            r@ == text_upto(self.nodes@, p as int, self.nodes@.len() as int),
    {
        let n = self.nodes.len();
        let mut out: Vec<char> = Vec::new();
        let mut j: usize = 0;
        while j < n
            invariant
                n == self.nodes@.len(),
                self.wf(),
                p < n,
                j <= n,
                out@ == text_upto(self.nodes@, p as int, j as int),
            decreases n - j,
        {
            if self.nodes[j].kind == NodeKind::Text && self.is_below(p, j) {
                crate::text::push_str(&mut out, self.nodes[j].text.as_str());
            }
            j = j + 1;
        }
        crate::text::string_of(&out)
    }
}

/// Node `i` of `out` is a copy of node `m[i]` of `ns`, which lies under `r` (or is
/// `r`): same kind, name, attributes and text, and, past the root, same cut-out
/// flag and the copy of the same parent.
pub open spec fn copied_at(ns: Seq<DomNode>, r: int, out: Seq<DomNode>, m: Seq<int>, i: int) -> bool {
    let x = out[i];
    let y = ns[m[i]];
    &&& 0 <= m[i] < ns.len()
    &&& within(ns, r, m[i])
    &&& x.kind == y.kind
    &&& x.name@ == y.name@
    &&& x.attrs@ == y.attrs@
    &&& x.text@ == y.text@
    &&& i == 0 ==> m[i] == r
    &&& i > 0 ==> x.detached == y.detached && (x.parent as int) < i && m[x.parent as int] == y.parent as int
}

/// `out` is a copy of the subtree of `ns` under `r`: node `i` of `out` copies node
/// `m[i]`, in document order, and every node under `r` is copied.
pub open spec fn copies(ns: Seq<DomNode>, r: int, out: Seq<DomNode>, m: Seq<int>) -> bool {
    &&& m.len() == out.len()
    &&& out.len() > 0
    &&& forall|i: int| 0 <= i < out.len() ==> copied_at(ns, r, out, m, i)
    &&& forall|a: int, b: int| 0 <= a < b < m.len() ==> #[trigger] m[a] < #[trigger] m[b]
    &&& forall|q: int| 0 <= q < ns.len() && within(ns, r, q) ==> exists|i: int| 0 <= i < m.len() && #[trigger] m[i] == q
}

/// The text nodes under `p` among the first `i` nodes, joined in order.
pub open spec fn text_upto(ns: Seq<DomNode>, p: int, i: int) -> Seq<char>
    decreases i,
{
    if i <= 0 {
        Seq::empty()
    } else {
        text_upto(ns, p, i - 1) + if below(ns, p, i - 1) && ns[i - 1].kind == NodeKind::Text {
            ns[i - 1].text@
        } else {
            Seq::empty()
        }
    }
}

/// A node under `r` has its parent under `r` too, or `r` itself.
proof fn lemma_below_step(ns: Seq<DomNode>, r: int, j: int)
    requires
        below(ns, r, j),
    ensures
        ns[j].parent as int == r || below(ns, r, ns[j].parent as int),
        (ns[j].parent as int) < j,
{
}

/// An ancestor comes before its descendants.
proof fn lemma_below_before(ns: Seq<DomNode>, a: int, j: int)
    requires
        below(ns, a, j),
    ensures
        a < j,
    decreases j,
{
    if ns[j].parent != a {
        lemma_below_before(ns, a, ns[j].parent as int);
    }
}

/// A copy of an attribute list.
pub fn copy_attrs(attrs: &Vec<Attribute>) -> (r: Vec<Attribute>)
    ensures
        r@ == attrs@,
{
    let mut r: Vec<Attribute> = Vec::new();
    let mut i: usize = 0;
    while i < attrs.len()
        invariant
            i <= attrs@.len(),
            r@ == attrs@.subrange(0, i as int),
        decreases attrs@.len() - i,
    {
        r.push(Attribute { name: attrs[i].name.clone(), value: attrs[i].value.clone() });
        i = i + 1;
        assert(r@ =~= attrs@.subrange(0, i as int));
    }
    assert(attrs@.subrange(0, attrs@.len() as int) =~= attrs@);
    r
}

/// Looking up `a` after one more attribute: the earlier value, if any, wins.
pub proof fn lemma_attr_push(t: Seq<Attribute>, x: Attribute, a: Seq<char>, i: int)
    requires
        0 <= i <= t.len(),
    ensures
        attr_from(t.push(x), a, i) == match attr_from(t, a, i) {
            Some(v) => Some(v),
            None => if x.name@ == a { Some(x.value@) } else { None },
        },
    decreases t.len() - i,
{
    if i < t.len() {
        assert(t.push(x)[i] == t[i]);
        lemma_attr_push(t, x, a, i + 1);
    } else {
        assert(t.push(x)[i] == x);
        assert(attr_from(t.push(x), a, i + 1) == None::<Seq<char>>);
    }
}

/// Dropping only attributes of other names leaves the value of `a` as it was.
pub proof fn lemma_attr_filter(t: Seq<Attribute>, p: spec_fn(Attribute) -> bool, a: Seq<char>)
    requires
        forall|x: Attribute| x.name@ == a ==> #[trigger] p(x),
    ensures
        attr_of(t.filter(p), a) == attr_of(t, a),
    decreases t.len(),
{
    reveal(Seq::filter);
    if t.len() > 0 {
        let u = t.drop_last();
        lemma_attr_filter(u, p, a);
        assert(t == u.push(t.last()));
        lemma_attr_push(u, t.last(), a, 0);
        if p(t.last()) {
            lemma_attr_push(u.filter(p), t.last(), a, 0);
        }
    }
}

/// Dropping every attribute named `a` leaves it without a value.
pub proof fn lemma_attr_filter_out(t: Seq<Attribute>, p: spec_fn(Attribute) -> bool, a: Seq<char>)
    requires
        forall|x: Attribute| x.name@ == a ==> !#[trigger] p(x),
    ensures
        attr_of(t.filter(p), a) is None,
    decreases t.len(),
{
    reveal(Seq::filter);
    if t.len() > 0 {
        let u = t.drop_last();
        lemma_attr_filter_out(u, p, a);
        if p(t.last()) {
            lemma_attr_push(u.filter(p), t.last(), a, 0);
        }
    }
}

} // verus!
