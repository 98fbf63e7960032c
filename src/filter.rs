use vstd::prelude::*;
use crate::dom::{arena_wf, attr_of, get_attr, set_attr, lemma_attr_filter, lemma_attr_filter_out, attached, below, within, Attribute, Dom, DomNode, NodeKind};
use crate::pattern::{has_word, word_at, any_tag, attr_has, class, is_space, is_space_char, select_any, selects, selects_any, with_tag, AttrTest, Pattern};
use crate::images::{ImageResource, ImgDataSrcFilter};
use crate::text::has_infix;
use crate::links::RelativeLinksFilter;
use crate::score::lemma_below_earlier;

verus! {

/// The two nodes differ at most in whether they were cut out.
pub open spec fn same_but_flag(a: DomNode, b: DomNode) -> bool {
    &&& a.kind == b.kind
    &&& a.name == b.name
    &&& a.attrs == b.attrs
    &&& a.text == b.text
    &&& a.parent == b.parent
}

/// The two nodes differ at most in their attributes.
pub open spec fn same_but_attrs(a: DomNode, b: DomNode) -> bool {
    &&& a.kind == b.kind
    &&& a.name == b.name
    &&& a.text == b.text
    &&& a.parent == b.parent
    &&& a.detached == b.detached
}

/// Node `j` lies under `root`, is reachable from it, and is selected by one of the patterns.
pub open spec fn is_target(ns: Seq<DomNode>, root: int, ps: Seq<Pattern>, j: int) -> bool {
    &&& below(ns, root, j)
    &&& attached(ns, root, j)
    &&& selects_any(ps, ns[j])
}

/// How many of the first `i` nodes are targets.
pub open spec fn count_targets(ns: Seq<DomNode>, root: int, ps: Seq<Pattern>, i: int) -> nat
    decreases i,
{
    if i <= 0 {
        0
    } else {
        count_targets(ns, root, ps, i - 1) + if is_target(ns, root, ps, i - 1) {
            1nat
        } else {
            0nat
        }
    }
}

/// `b` is `a` after `remove_all` under `root` with the patterns `ps`: every target
/// is cut out, and nothing else changes.
pub open spec fn cut_result(a: Seq<DomNode>, b: Seq<DomNode>, root: int, ps: Seq<Pattern>) -> bool {
    &&& b.len() == a.len()
    &&& forall|j: int| 0 <= j < a.len() ==> same_but_flag(#[trigger] b[j], a[j])
        && b[j].detached == (a[j].detached || is_target(a, root, ps, j))
}

/// `b` is `a` after `remove_all_class` under `root`: the listed classes leave every
/// class list, and nothing else changes.
pub open spec fn classes_stripped(a: Seq<DomNode>, b: Seq<DomNode>, root: int, classes: Seq<&str>) -> bool {
    &&& b.len() == a.len()
    &&& forall|j: int| 0 <= j < a.len() ==> same_but_attrs(#[trigger] b[j], a[j])
    &&& forall|j: int, x: Seq<char>| 0 <= j < a.len() ==> #[trigger] attr_of(b[j].attrs@, x) == if x == class_name()
        && within(a, root, j) && a[j].kind == NodeKind::Element && attr_of(a[j].attrs@, x) is Some {
        Some(without_classes(attr_of(a[j].attrs@, x)->Some_0, classes))
    } else {
        attr_of(a[j].attrs@, x)
    }
}

/// `b` is `a` after `replace_all` under `root`: every target becomes an element
/// named `name` without attributes, and nothing else changes.
pub open spec fn replaced(a: Seq<DomNode>, b: Seq<DomNode>, root: int, ps: Seq<Pattern>, name: Seq<char>) -> bool {
    &&& b.len() == a.len()
    &&& forall|j: int| 0 <= j < a.len() ==> {
        let x = #[trigger] b[j];
        let y = a[j];
        &&& x.parent == y.parent
        &&& x.detached == y.detached
        &&& x.text == y.text
        &&& if is_target(a, root, ps, j) {
            x.kind == NodeKind::Element && x.name@ == name && x.attrs@.len() == 0
        } else {
            x.kind == y.kind && x.name == y.name && x.attrs == y.attrs
        }
    }
}

/// For each node, whether it lies under `root`, is reachable from it, and is
/// selected by one of the patterns.
pub fn find_targets(dom: &Dom, root: usize, ps: &Vec<Pattern>) -> (r: Vec<bool>)
    requires
        dom.wf(),
        root < dom.nodes@.len(),
    ensures
        r@.len() == dom.nodes@.len(),
        forall|j: int| 0 <= j < dom.nodes@.len() ==> #[trigger] r@[j] == is_target(dom.nodes@, root as int, ps@, j),
{
    let n = dom.nodes.len();
    let mut r: Vec<bool> = Vec::new();
    let mut j: usize = 0;
    while j < n
        invariant
            n == dom.nodes@.len(),
            dom.wf(),
            root < n,
            j <= n,
            r@.len() == j,
            forall|q: int| 0 <= q < j ==> #[trigger] r@[q] == is_target(dom.nodes@, root as int, ps@, q),
        decreases n - j,
    {
        let hit = dom.is_below(root, j) && dom.is_attached(root, j) && select_any(ps, &dom.nodes[j]);
        r.push(hit);
        j = j + 1;
    }
    r
}

/// Cuts out of the tree every node under `node` that one of the `selectors`
/// selects, and returns how many there were. The targets are all found before any
/// is cut out; afterwards no node that can be reached under `node` is selected.
pub fn remove_all(dom: &mut Dom, node: usize, selectors: &Vec<Pattern>) -> (r: usize)
    requires
        old(dom).wf(),
        node < old(dom).nodes@.len(),
    ensures
        final(dom).wf(),
        final(dom).nodes@.len() == old(dom).nodes@.len(),
        forall|j: int|
            0 <= j < old(dom).nodes@.len() ==> same_but_flag(
                #[trigger] final(dom).nodes@[j],
                old(dom).nodes@[j],
            ) && final(dom).nodes@[j].detached == (old(dom).nodes@[j].detached || is_target(
                old(dom).nodes@,
                node as int,
                selectors@,
                j,
            )),
        r == count_targets(old(dom).nodes@, node as int, selectors@, old(dom).nodes@.len() as int),
        cut_result(old(dom).nodes@, final(dom).nodes@, node as int, selectors@),
        forall|j: int|
            0 <= j < final(dom).nodes@.len() && below(final(dom).nodes@, node as int, j) && attached(
                final(dom).nodes@,
                node as int,
                j,
            ) ==> !selects_any(selectors@, #[trigger] final(dom).nodes@[j]),
{
    let targets = find_targets(dom, node, selectors);
    let ghost before = dom.nodes@;
    let n = dom.nodes.len();
    let mut count: usize = 0;
    let mut k: usize = 0;
    while k < n
        invariant
            n == before.len(),
            dom.nodes@.len() == n,
            targets@.len() == n,
            k <= n,
            count == count_targets(before, node as int, selectors@, k as int),
            count <= k,
            forall|q: int| 0 <= q < n ==> #[trigger] targets@[q] == is_target(before, node as int, selectors@, q),
            forall|j: int|
                0 <= j < n ==> same_but_flag(#[trigger] dom.nodes@[j], before[j]),
            forall|j: int|
                0 <= j < k ==> (#[trigger] dom.nodes@[j]).detached == (before[j].detached || targets@[j]),
            forall|j: int|
                k <= j < n ==> (#[trigger] dom.nodes@[j]).detached == before[j].detached,
        decreases n - k,
    {
        if targets[k] {
            dom.nodes[k].detached = true;
            count = count + 1;
        }
        k = k + 1;
    }
    assert(dom.wf()) by {
        assert forall|i: int| 0 < i < dom.nodes@.len() implies (#[trigger] dom.nodes@[i].parent) < i by {
            assert(same_but_flag(dom.nodes@[i], before[i]));
        }
    }
    proof {
        assert forall|j: int|
            0 <= j < dom.nodes@.len() && below(dom.nodes@, node as int, j) && attached(dom.nodes@, node as int, j)
            implies !selects_any(selectors@, #[trigger] dom.nodes@[j]) by {
            lemma_below_same_parents(dom.nodes@, before, node as int, j);
            lemma_attached_fewer_cuts(dom.nodes@, before, node as int, j);
            assert(same_but_flag(dom.nodes@[j], before[j]));
            if selects_any(selectors@, dom.nodes@[j]) {
                let k = choose|k: int| 0 <= k < selectors@.len() && selects(#[trigger] selectors@[k], dom.nodes@[j]);
                assert(selects(selectors@[k], before[j]));
                assert(is_target(before, node as int, selectors@, j));
                lemma_below_earlier(dom.nodes@, node as int, j);
            }
        }
    }
    count
}

/// A node still reachable after more nodes were cut out was reachable before.
pub proof fn lemma_attached_fewer_cuts(a: Seq<DomNode>, b: Seq<DomNode>, r: int, j: int)
    requires
        a.len() == b.len(),
        forall|q: int| 0 <= q < a.len() ==> (#[trigger] a[q]).parent == b[q].parent,
        forall|q: int| 0 <= q < a.len() && (#[trigger] b[q]).detached ==> a[q].detached,
        attached(a, r, j),
    ensures
        attached(b, r, j),
    decreases j,
{
    if j != r {
        lemma_attached_fewer_cuts(a, b, r, a[j].parent as int);
    }
}

/// Whether `s` is one of the names of the list.
pub open spec fn listed(names: Seq<&str>, s: Seq<char>) -> bool {
    exists|k: int| 0 <= k < names.len() && (#[trigger] names[k])@ == s
}

/// Whether `s` is one of the names of the list.
pub fn is_listed(names: &[&str], s: &str) -> (r: bool)
    ensures
        r == listed(names@, s@),
{
    let mut k: usize = 0;
    while k < names.len()
        invariant
            k <= names@.len(),
            forall|q: int| 0 <= q < k ==> (#[trigger] names@[q])@ != s@,
        decreases names@.len() - k,
    {
        if crate::text::str_eq(names[k], s) {
            return true;
        }
        k = k + 1;
    }
    false
}

/// The attribute list without the attributes whose names are listed.
pub open spec fn without_attrs(attrs: Seq<Attribute>, names: Seq<&str>) -> Seq<Attribute> {
    attrs.filter(|a: Attribute| !listed(names, a.name@))
}

/// Removes the listed attributes from every element under `node` (itself included).
pub fn remove_all_attr(dom: &mut Dom, node: usize, attributes: &[&str])
    requires
        old(dom).wf(),
        node < old(dom).nodes@.len(),
    ensures
        final(dom).wf(),
        final(dom).nodes@.len() == old(dom).nodes@.len(),
        forall|j: int|
            0 <= j < old(dom).nodes@.len() ==> same_but_attrs(
                #[trigger] final(dom).nodes@[j],
                old(dom).nodes@[j],
            ) && final(dom).nodes@[j].attrs@ == if within(old(dom).nodes@, node as int, j)
                && old(dom).nodes@[j].kind == NodeKind::Element {
                without_attrs(old(dom).nodes@[j].attrs@, attributes@)
            } else {
                old(dom).nodes@[j].attrs@
            },
        forall|j: int, a: Seq<char>|
            0 <= j < old(dom).nodes@.len() ==> #[trigger] attr_of(final(dom).nodes@[j].attrs@, a) == if within(
                old(dom).nodes@,
                node as int,
                j,
            ) && old(dom).nodes@[j].kind == NodeKind::Element && listed(attributes@, a) {
                None
            } else {
                attr_of(old(dom).nodes@[j].attrs@, a)
            },
{
    let ghost before = dom.nodes@;
    let n = dom.nodes.len();
    let mut j: usize = 0;
    while j < n
        invariant
            n == before.len(),
            dom.nodes@.len() == n,
            arena_wf(before),
            node < n,
            j <= n,
            forall|q: int| 0 <= q < n ==> same_but_attrs(#[trigger] dom.nodes@[q], before[q]),
            forall|q: int|
                j <= q < n ==> (#[trigger] dom.nodes@[q]).attrs == before[q].attrs,
            forall|q: int|
                0 <= q < j ==> (#[trigger] dom.nodes@[q]).attrs@ == if within(before, node as int, q)
                    && before[q].kind == NodeKind::Element {
                    without_attrs(before[q].attrs@, attributes@)
                } else {
                    before[q].attrs@
                },
        decreases n - j,
    {
        assert(dom.wf()) by {
            assert forall|i: int| 0 < i < dom.nodes@.len() implies (#[trigger] dom.nodes@[i].parent) < i by {
                assert(same_but_attrs(dom.nodes@[i], before[i]));
            }
        }
        assert(dom.nodes@ =~= before || true);
        let inside = dom.is_within(node, j);
        proof {
            assert(below(dom.nodes@, node as int, j as int) == below(before, node as int, j as int)) by {
                lemma_below_same_parents(dom.nodes@, before, node as int, j as int);
            }
        }
        if inside && dom.nodes[j].kind == NodeKind::Element {
            let ghost pred: spec_fn(Attribute) -> bool = |a: Attribute| !listed(attributes@, a.name@);
            let mut kept: Vec<Attribute> = Vec::new();
            let m = dom.nodes[j].attrs.len();
            let mut i: usize = 0;
            while i < m
                invariant
                    j < n,
                    n == dom.nodes@.len(),
                    m == dom.nodes@[j as int].attrs@.len(),
                    i <= m,
                    kept@ == dom.nodes@[j as int].attrs@.subrange(0, i as int).filter(pred),
                    forall|x: Attribute| #[trigger] pred(x) == !listed(attributes@, x.name@),
                decreases m - i,
            {
                let ghost cur = dom.nodes@[j as int].attrs@;
                proof {
                    assert(cur.subrange(0, i + 1) =~= cur.subrange(0, i as int).push(cur[i as int]));
                    cur.subrange(0, i as int).lemma_filter_push(cur[i as int], pred);
                }
                if !is_listed(attributes, dom.nodes[j].attrs[i].name.as_str()) {
                    let a = Attribute {
                        name: dom.nodes[j].attrs[i].name.clone(),
                        value: dom.nodes[j].attrs[i].value.clone(),
                    };
                    kept.push(a);
                }
                i = i + 1;
            }
            assert(dom.nodes@[j as int].attrs@.subrange(0, m as int) =~= dom.nodes@[j as int].attrs@);
            dom.nodes[j].attrs = kept;
        }
        j = j + 1;
    }
    assert(dom.wf()) by {
        assert forall|i: int| 0 < i < dom.nodes@.len() implies (#[trigger] dom.nodes@[i].parent) < i by {
            assert(same_but_attrs(dom.nodes@[i], before[i]));
        }
    }
    proof {
        let pred = |a: Attribute| !listed(attributes@, a.name@);
        assert forall|j: int, a: Seq<char>| 0 <= j < before.len() implies #[trigger] attr_of(dom.nodes@[j].attrs@, a)
            == if within(before, node as int, j) && before[j].kind == NodeKind::Element && listed(attributes@, a) {
                None
            } else {
                attr_of(before[j].attrs@, a)
            } by {
            if within(before, node as int, j) && before[j].kind == NodeKind::Element {
                assert(dom.nodes@[j].attrs@ == before[j].attrs@.filter(pred));
                if listed(attributes@, a) {
                    lemma_attr_filter_out(before[j].attrs@, pred, a);
                } else {
                    lemma_attr_filter(before[j].attrs@, pred, a);
                }
            }
        }
    }
}

/// Ancestry depends on the parent links alone.
pub proof fn lemma_below_same_parents(a: Seq<DomNode>, b: Seq<DomNode>, x: int, j: int)
    requires
        a.len() == b.len(),
        forall|q: int| 0 <= q < a.len() ==> (#[trigger] a[q]).parent == b[q].parent,
    ensures
        below(a, x, j) == below(b, x, j),
    decreases j,
{
    if 0 < j < a.len() && (a[j].parent as int) < j {
        lemma_below_same_parents(a, b, x, a[j].parent as int);
    }
}

/// Replaces every node under `base` that one of the `selector`
/// patterns selects by a new element named `name`, without attributes, which takes
/// over its place and its children.
pub fn replace_all(dom: &mut Dom, base: usize, selector: &Vec<Pattern>, name: &str)
    requires
        old(dom).wf(),
        base < old(dom).nodes@.len(),
    ensures
        final(dom).wf(),
        final(dom).nodes@.len() == old(dom).nodes@.len(),
        forall|j: int|
            0 <= j < old(dom).nodes@.len() ==> {
                let a = #[trigger] final(dom).nodes@[j];
                let b = old(dom).nodes@[j];
                &&& a.parent == b.parent
                &&& a.detached == b.detached
                &&& a.text == b.text
                &&& if is_target(old(dom).nodes@, base as int, selector@, j) {
                    a.kind == NodeKind::Element && a.name@ == name@ && a.attrs@.len() == 0
                } else {
                    a.kind == b.kind && a.name == b.name && a.attrs == b.attrs
                }
            },
        replaced(old(dom).nodes@, final(dom).nodes@, base as int, selector@, name@),
{
    let targets = find_targets(dom, base, selector);
    let ghost before = dom.nodes@;
    let n = dom.nodes.len();
    let mut k: usize = 0;
    while k < n
        invariant
            n == before.len(),
            dom.nodes@.len() == n,
            targets@.len() == n,
            k <= n,
            forall|q: int| 0 <= q < n ==> #[trigger] targets@[q] == is_target(before, base as int, selector@, q),
            forall|j: int|
                0 <= j < n ==> {
                    let a = #[trigger] dom.nodes@[j];
                    let b = before[j];
                    &&& a.parent == b.parent
                    &&& a.detached == b.detached
                    &&& a.text == b.text
                    &&& if j < k && targets@[j] {
                        a.kind == NodeKind::Element && a.name@ == name@ && a.attrs@.len() == 0
                    } else {
                        a.kind == b.kind && a.name == b.name && a.attrs == b.attrs
                    }
                },
        decreases n - k,
    {
        if targets[k] {
            dom.nodes[k].kind = NodeKind::Element;
            dom.nodes[k].name = name.to_owned();
            dom.nodes[k].attrs = Vec::new();
        }
        k = k + 1;
    }
    assert(dom.wf()) by {
        assert forall|i: int| 0 < i < dom.nodes@.len() implies (#[trigger] dom.nodes@[i].parent) < i by {
            assert(dom.nodes@[i].parent == before[i].parent);
        }
    }
}

/// The white-space-separated words of `s` from position `i` on, `cur` being the
/// part of a word already read.
pub open spec fn words_from(s: Seq<char>, i: int, cur: Seq<char>) -> Seq<Seq<char>>
    decreases s.len() - i,
{
    if i < 0 || i >= s.len() {
        if cur.len() > 0 {
            seq![cur]
        } else {
            Seq::empty()
        }
    } else if is_space(s[i]) {
        (if cur.len() > 0 {
            seq![cur]
        } else {
            Seq::empty()
        }) + words_from(s, i + 1, Seq::empty())
    } else {
        words_from(s, i + 1, cur.push(s[i]))
    }
}

/// The white-space-separated words of `s`.
pub open spec fn words(s: Seq<char>) -> Seq<Seq<char>> {
    words_from(s, 0, Seq::empty())
}

/// The words joined by single spaces.
pub open spec fn join_words(ws: Seq<Seq<char>>) -> Seq<char>
    decreases ws.len(),
{
    if ws.len() == 0 {
        Seq::empty()
    } else if ws.len() == 1 {
        ws[0]
    } else {
        join_words(ws.drop_last()) + seq![' '] + ws.last()
    }
}

/// A class list without the listed classes.
pub open spec fn without_classes(v: Seq<char>, classes: Seq<&str>) -> Seq<char> {
    join_words(words(v).filter(|w: Seq<char>| !listed(classes, w)))
}

proof fn lemma_words_step(s: Seq<char>, i: int, cur: Seq<char>)
    requires
        0 <= i < s.len(),
    ensures
        is_space(s[i]) ==> words_from(s, i, cur) == (if cur.len() > 0 {
            seq![cur]
        } else {
            Seq::<Seq<char>>::empty()
        }) + words_from(s, i + 1, Seq::empty()),
        !is_space(s[i]) ==> words_from(s, i, cur) == words_from(s, i + 1, cur.push(s[i])),
{
}

/// Takes the listed classes out of the class list `v`.
pub fn strip_classes(v: &str, classes: &[&str]) -> (r: String)
    ensures
        r@ == without_classes(v@, classes@),
{
    let ghost pred: spec_fn(Seq<char>) -> bool = |w: Seq<char>| !listed(classes@, w);
    let n = v.unicode_len();
    let mut out: Vec<char> = Vec::new();
    let mut cur: Vec<char> = Vec::new();
    let ghost mut done: Seq<Seq<char>> = Seq::empty();
    let mut any_kept = false;
    let mut i: usize = 0;
    while i <= n
        invariant
            n == v@.len(),
            i <= n + 1,
            i <= n ==> words(v@) == done + words_from(v@, i as int, cur@),
            i > n ==> words(v@) == done && cur@.len() == 0,
            out@ == join_words(done.filter(pred)),
            any_kept == (done.filter(pred).len() > 0),
            forall|w: Seq<char>| #[trigger] pred(w) == !listed(classes@, w),
        ensures
            words(v@) == done,
            out@ == join_words(done.filter(pred)),
        decreases n + 1 - i,
    {
        let at_end = i == n;
        let c = if at_end { ' ' } else { v.get_char(i) };
        if at_end || is_space_char(c) {
            proof {
                if !at_end {
                    lemma_words_step(v@, i as int, cur@);
                }
            }
            if cur.len() > 0 {
                let ghost w = cur@;
                let keep = !is_listed_chars(classes, &cur);
                if keep {
                    if any_kept {
                        out.push(' ');
                    }
                    let mut k: usize = 0;
                    let ghost base = out@;
                    while k < cur.len()
                        invariant
                            k <= cur@.len(),
                            out@ == base + cur@.subrange(0, k as int),
                        decreases cur@.len() - k,
                    {
                        out.push(cur[k]);
                        k = k + 1;
                        assert(out@ =~= base + cur@.subrange(0, k as int));
                    }
                    assert(cur@.subrange(0, cur@.len() as int) =~= cur@);
                    any_kept = true;
                }
                proof {
                    done.lemma_filter_push(w, pred);
                    if keep {
                        let f = done.filter(pred);
                        if f.len() == 0 {
                            assert(out@ =~= w);
                            assert(f.push(w).len() == 1);
                        } else {
                            assert(f.push(w).drop_last() =~= f);
                            assert(out@ =~= join_words(f) + seq![' '] + w);
                        }
                    }
                    done = done.push(w);
                    assert(words(v@) == done + words_from(v@, i + 1, Seq::empty()) || at_end) by {
                        if !at_end {
                            assert(seq![w] + words_from(v@, i + 1, Seq::empty()) =~= seq![w].add(words_from(v@, i + 1, Seq::empty())));
                            assert((done.drop_last() + (seq![w] + words_from(v@, i + 1, Seq::empty())))
                                =~= done + words_from(v@, i + 1, Seq::empty()));
                        }
                    }
                    if at_end {
                        assert(words_from(v@, n as int, w) == seq![w]);
                        assert(words(v@) =~= done);
                    }
                }
                cur = Vec::new();
            } else {
                proof {
                    if at_end {
                        assert(words_from(v@, n as int, cur@) == Seq::<Seq<char>>::empty());
                        assert(words(v@) =~= done);
                    } else {
                        assert(Seq::<Seq<char>>::empty() + words_from(v@, i + 1, Seq::empty())
                            =~= words_from(v@, i + 1, Seq::empty()));
                        assert(cur@ =~= Seq::<char>::empty());
                    }
                }
            }
        } else {
            proof {
                lemma_words_step(v@, i as int, cur@);
            }
            cur.push(c);
        }
        if at_end {
            break;
        }
        i = i + 1;
    }
    crate::text::string_of(&out)
}

/// Whether the word is one of the listed names.
fn is_listed_chars(names: &[&str], w: &Vec<char>) -> (r: bool)
    ensures
        r == listed(names@, w@),
{
    let mut k: usize = 0;
    while k < names.len()
        invariant
            k <= names@.len(),
            forall|q: int| 0 <= q < k ==> (#[trigger] names@[q])@ != w@,
        decreases names@.len() - k,
    {
        if crate::text::chars_eq(w, names[k]) {
            return true;
        }
        k = k + 1;
    }
    false
}

/// The attribute name `class`.
pub open spec fn class_name() -> Seq<char> {
    seq!['c', 'l', 'a', 's', 's']
}

/// Takes the listed classes out of the `class` attribute of every element under
/// `node` (itself included); the other attributes keep their values.
pub fn remove_all_class(dom: &mut Dom, node: usize, classes: &[&str])
    requires
        old(dom).wf(),
        node < old(dom).nodes@.len(),
    ensures
        final(dom).wf(),
        final(dom).nodes@.len() == old(dom).nodes@.len(),
        forall|j: int|
            0 <= j < old(dom).nodes@.len() ==> same_but_attrs(#[trigger] final(dom).nodes@[j], old(dom).nodes@[j]),
        forall|j: int, a: Seq<char>|
            0 <= j < old(dom).nodes@.len() ==> #[trigger] attr_of(final(dom).nodes@[j].attrs@, a) == {
                let b = old(dom).nodes@[j];
                if a == class_name() && within(old(dom).nodes@, node as int, j) && b.kind == NodeKind::Element
                    && attr_of(b.attrs@, a) is Some {
                    Some(without_classes(attr_of(b.attrs@, a)->Some_0, classes@))
                } else {
                    attr_of(b.attrs@, a)
                }
            },
        classes_stripped(old(dom).nodes@, final(dom).nodes@, node as int, classes@),
{
    let ghost before = dom.nodes@;
    let n = dom.nodes.len();
    let mut j: usize = 0;
    while j < n
        invariant
            n == before.len(),
            dom.nodes@.len() == n,
            arena_wf(before),
            node < n,
            j <= n,
            forall|q: int| 0 <= q < n ==> same_but_attrs(#[trigger] dom.nodes@[q], before[q]),
            forall|q: int| j <= q < n ==> (#[trigger] dom.nodes@[q]).attrs == before[q].attrs,
            forall|q: int, a: Seq<char>|
                0 <= q < j ==> #[trigger] attr_of(dom.nodes@[q].attrs@, a) == {
                    let b = before[q];
                    if a == class_name() && within(before, node as int, q) && b.kind == NodeKind::Element
                        && attr_of(b.attrs@, a) is Some {
                        Some(without_classes(attr_of(b.attrs@, a)->Some_0, classes@))
                    } else {
                        attr_of(b.attrs@, a)
                    }
                },
        decreases n - j,
    {
        assert(dom.wf()) by {
            assert forall|i: int| 0 < i < dom.nodes@.len() implies (#[trigger] dom.nodes@[i].parent) < i by {
                assert(same_but_attrs(dom.nodes@[i], before[i]));
            }
        }
        let inside = dom.is_within(node, j);
        proof {
            lemma_below_same_parents(dom.nodes@, before, node as int, j as int);
            reveal_strlit("class");
            assert("class"@ =~= class_name());
        }
        if inside && dom.nodes[j].kind == NodeKind::Element {
            match get_attr(&dom.nodes[j].attrs, "class") {
                Some(v) => {
                    let stripped = strip_classes(v.as_str(), classes);
                    set_attr(&mut dom.nodes[j].attrs, "class", stripped);
                },
                None => {},
            }
        }
        j = j + 1;
    }
    assert(dom.wf()) by {
        assert forall|i: int| 0 < i < dom.nodes@.len() implies (#[trigger] dom.nodes@[i].parent) < i by {
            assert(same_but_attrs(dom.nodes@[i], before[i]));
        }
    }
}

/// The views of a list of character vectors.
pub open spec fn views(vs: Seq<Vec<char>>) -> Seq<Seq<char>> {
    vs.map_values(|v: Vec<char>| v@)
}

/// The white-space-separated words of `v`.
pub fn split_words(v: &str) -> (r: Vec<Vec<char>>)
    ensures
        views(r@) == words(v@),
{
    let n = v.unicode_len();
    let mut out: Vec<Vec<char>> = Vec::new();
    let mut cur: Vec<char> = Vec::new();
    let mut i: usize = 0;
    while i <= n
        invariant
            n == v@.len(),
            i <= n,
            words(v@) == views(out@) + words_from(v@, i as int, cur@),
        ensures
            words(v@) == views(out@),
        decreases n + 1 - i,
    {
        let at_end = i == n;
        let c = if at_end { ' ' } else { v.get_char(i) };
        if at_end || is_space_char(c) {
            proof {
                if !at_end {
                    lemma_words_step(v@, i as int, cur@);
                }
            }
            let ghost before = out@;
            let ghost w = cur@;
            if cur.len() > 0 {
                out.push(cur);
                proof {
                    assert(views(out@) =~= views(before).push(w));
                    if !at_end {
                        assert(views(before) + (seq![w] + words_from(v@, i + 1, Seq::empty()))
                            =~= views(out@) + words_from(v@, i + 1, Seq::empty()));
                    } else {
                        assert(words_from(v@, n as int, w) == seq![w]);
                        assert(views(before) + seq![w] =~= views(out@));
                    }
                }
            } else {
                proof {
                    if !at_end {
                        assert(Seq::<Seq<char>>::empty() + words_from(v@, i + 1, Seq::empty())
                            =~= words_from(v@, i + 1, Seq::empty()));
                    } else {
                        assert(words_from(v@, n as int, w) == Seq::<Seq<char>>::empty());
                        assert(views(out@) + Seq::<Seq<char>>::empty() =~= views(out@));
                    }
                }
            }
            cur = Vec::new();
            if at_end {
                break;
            }
        } else {
            proof {
                lemma_words_step(v@, i as int, cur@);
            }
            cur.push(c);
        }
        i = i + 1;
    }
    out
}

/// The class list marks noise: an ad, or a share, sharing, video, social or
/// recommendation widget.
pub open spec fn noisy_class(v: Seq<char>) -> bool {
    has_word(v, "ad"@) || has_infix(v, "share"@) || has_infix(v, "sharing"@) || has_infix(v, "video"@)
        || has_infix(v, "social"@) || has_infix(v, "outbrain"@)
}

/// The element is noise: a style, frame, script, button, form or aside, or an
/// element whose class list marks it as noise.
pub open spec fn is_noise(n: DomNode) -> bool {
    n.kind == NodeKind::Element && (n.name@ == "style"@ || n.name@ == "iframe"@ || n.name@ == "script"@
        || n.name@ == "button"@ || n.name@ == "form"@ || n.name@ == "aside"@ || match attr_of(n.attrs@, class_name()) {
        Some(v) => noisy_class(v),
        None => false,
    })
}

/// The noise that is cut out of every article: scripts, styles, frames, buttons,
/// forms, asides, ads, and share, video, social and recommendation widgets.
pub fn noise_patterns() -> (r: Vec<Pattern>)
    ensures
        forall|n: DomNode| selects_any(r@, n) == #[trigger] is_noise(n),
        forall|k: int| 0 <= k < r@.len() ==> crate::pattern::stable_pattern(#[trigger] r@[k]),
{
    let mut r: Vec<Pattern> = Vec::new();
    r.push(with_tag("style", AttrTest::Any));
    r.push(with_tag("iframe", AttrTest::Any));
    r.push(with_tag("script", AttrTest::Any));
    r.push(with_tag("button", AttrTest::Any));
    r.push(with_tag("form", AttrTest::Any));
    r.push(with_tag("aside", AttrTest::Any));
    r.push(any_tag(class("ad")));
    r.push(any_tag(attr_has("class", "share")));
    r.push(any_tag(attr_has("class", "sharing")));
    r.push(any_tag(attr_has("class", "video")));
    r.push(any_tag(attr_has("class", "social")));
    r.push(any_tag(attr_has("class", "outbrain")));
    proof {
        reveal_strlit("class");
        reveal_strlit("style");
        reveal_strlit("src");
        reveal_strlit("href");
        reveal_strlit("ad");
        reveal_strlit("share");
        reveal_strlit("sharing");
        reveal_strlit("video");
        reveal_strlit("social");
        reveal_strlit("outbrain");
        assert("class"@ =~= class_name());
        assert("class"@[1] != "style"@[1]);
        assert forall|n: DomNode| selects_any(r@, n) == #[trigger] is_noise(n) by {
            if is_noise(n) {
                if n.name@ == "style"@ { assert(selects(r@[0], n)); }
                else if n.name@ == "iframe"@ { assert(selects(r@[1], n)); }
                else if n.name@ == "script"@ { assert(selects(r@[2], n)); }
                else if n.name@ == "button"@ { assert(selects(r@[3], n)); }
                else if n.name@ == "form"@ { assert(selects(r@[4], n)); }
                else if n.name@ == "aside"@ { assert(selects(r@[5], n)); }
                else {
                    let v = attr_of(n.attrs@, class_name())->Some_0;
                    if has_word(v, "ad"@) { assert(selects(r@[6], n)); }
                    else if has_infix(v, "share"@) { assert(selects(r@[7], n)); }
                    else if has_infix(v, "sharing"@) { assert(selects(r@[8], n)); }
                    else if has_infix(v, "video"@) { assert(selects(r@[9], n)); }
                    else if has_infix(v, "social"@) { assert(selects(r@[10], n)); }
                    else { assert(selects(r@[11], n)); }
                }
            }
            if selects_any(r@, n) {
                let k = choose|k: int| 0 <= k < r@.len() && selects(#[trigger] r@[k], n);
                assert(0 <= k < 12);
            }
        }
    }
    r
}

/// The attributes of node `j` of `b` are those of `a` without its `style`, where
/// `j` is an element under `root`.
pub open spec fn styles_dropped(a: Seq<DomNode>, b: Seq<DomNode>, root: int) -> bool {
    &&& a.len() == b.len()
    &&& forall|j: int| 0 <= j < a.len() ==> {
        let x = #[trigger] b[j];
        let y = a[j];
        x.kind == y.kind && x.name == y.name && x.text == y.text && x.parent == y.parent
    }
    &&& forall|j: int, x: Seq<char>| 0 <= j < a.len() ==> #[trigger] attr_of(b[j].attrs@, x) == if within(a, root, j)
        && a[j].kind == NodeKind::Element && x == "style"@ {
        None
    } else {
        attr_of(a[j].attrs@, x)
    }
}

/// `b` is `a` after the lazy-image step under `root`: only `src` changes, as `after_images` says.
pub open spec fn images_done(a: Seq<DomNode>, b: Seq<DomNode>, root: int, base: Seq<char>, probes: Seq<ImageResource>) -> bool {
    &&& a.len() == b.len()
    &&& forall|j: int| 0 <= j < a.len() ==> #[trigger] attr_of(b[j].attrs@, "src"@) == crate::images::after_images(a, root, base, probes, j)
    &&& forall|j: int, x: Seq<char>| 0 <= j < a.len() && x != "src"@ ==> #[trigger] attr_of(b[j].attrs@, x) == attr_of(a[j].attrs@, x)
}

/// Node `j` is noise that lies under `root` and can be reached from it.
pub open spec fn noise_target(ns: Seq<DomNode>, root: int, j: int) -> bool {
    below(ns, root, j) && attached(ns, root, j) && is_noise(ns[j])
}

/// `post` is `pre` after article cleaning under `root` (see `do_global_filtering`).
pub open spec fn filtered(pre: Seq<DomNode>, post: Seq<DomNode>, root: int, base: Seq<char>, probes: Seq<ImageResource>) -> bool {
    &&& post.len() == pre.len()
    &&& forall|j: int| 0 <= j < pre.len() ==> {
        let x = #[trigger] post[j];
        let y = pre[j];
        &&& x.kind == y.kind
        &&& x.name == y.name
        &&& x.text == y.text
        &&& x.parent == y.parent
        &&& x.detached == (y.detached || noise_target(pre, root, j))
    }
    &&& forall|j: int, a: Seq<char>| 0 <= j < pre.len() && a != "style"@ && a != "src"@ && a != "href"@
        ==> #[trigger] attr_of(post[j].attrs@, a) == attr_of(pre[j].attrs@, a)
    &&& forall|j: int| 0 <= j < post.len() && below(post, root, j) && attached(post, root, j)
        ==> !is_noise(#[trigger] post[j])
    &&& forall|j: int| 0 <= j < post.len() && within(pre, root, j) && pre[j].kind == NodeKind::Element
        ==> #[trigger] attr_of(post[j].attrs@, "style"@) is None
    &&& exists|s1: Seq<DomNode>, s2: Seq<DomNode>|
        styles_dropped(pre, s1, root) && images_done(s1, s2, root, base, probes) && s2.len() == post.len()
            && forall|j: int, a: Seq<char>| 0 <= j < s2.len() ==> #[trigger] attr_of(post[j].attrs@, a)
                == crate::links::after_links(s2, root, base, j, a)
}

/// Cleans an article body in place: cuts out the noise, drops inline styles, gives
/// placeholder images their real source, and makes links absolute against `url`.
/// Only nodes under `node` are touched, and the tree keeps its shape.
pub fn do_global_filtering(dom: &mut Dom, node: usize, url: &str, probes: &Vec<ImageResource>)
    requires
        old(dom).wf(),
        node < old(dom).nodes@.len(),
    ensures
        final(dom).wf(),
        final(dom).nodes@.len() == old(dom).nodes@.len(),
        forall|j: int|
            0 <= j < old(dom).nodes@.len() ==> {
                let a = #[trigger] final(dom).nodes@[j];
                let b = old(dom).nodes@[j];
                &&& a.kind == b.kind
                &&& a.name == b.name
                &&& a.text == b.text
                &&& a.parent == b.parent
                &&& b.detached ==> a.detached
            },
        forall|j: int, a: Seq<char>|
            0 <= j < old(dom).nodes@.len() && a != "style"@ && a != "src"@ && a != "href"@
                ==> #[trigger] attr_of(final(dom).nodes@[j].attrs@, a) == attr_of(old(dom).nodes@[j].attrs@, a),
        forall|j: int|
            0 <= j < final(dom).nodes@.len() && below(final(dom).nodes@, node as int, j) && attached(
                final(dom).nodes@,
                node as int,
                j,
            ) ==> !is_noise(#[trigger] final(dom).nodes@[j]),
        forall|j: int|
            0 <= j < final(dom).nodes@.len() && within(old(dom).nodes@, node as int, j)
                && old(dom).nodes@[j].kind == NodeKind::Element
                ==> #[trigger] attr_of(final(dom).nodes@[j].attrs@, "style"@) is None,
        exists|s1: Seq<DomNode>, s2: Seq<DomNode>|
            styles_dropped(old(dom).nodes@, s1, node as int) && images_done(s1, s2, node as int, url@, probes@)
                && s2.len() == final(dom).nodes@.len()
                && forall|j: int, a: Seq<char>| 0 <= j < s2.len() ==> #[trigger] attr_of(final(dom).nodes@[j].attrs@, a)
                    == crate::links::after_links(s2, node as int, url@, j, a),
        filtered(old(dom).nodes@, final(dom).nodes@, node as int, url@, probes@),
{
    let noise = noise_patterns();
    let ghost s0 = dom.nodes@;
    remove_all(dom, node, &noise);
    let ghost s1 = dom.nodes@;
    let style: [&str; 1] = ["style"];
    remove_all_attr(dom, node, &style);
    let ghost s2 = dom.nodes@;
    ImgDataSrcFilter::new(url).run(dom, node, probes);
    let ghost s3 = dom.nodes@;
    RelativeLinksFilter::new(url).run(dom, node);
    assert forall|j: int| 0 <= j < s0.len() implies {
        let a = #[trigger] dom.nodes@[j];
        let b = s0[j];
        &&& a.kind == b.kind
        &&& a.name == b.name
        &&& a.text == b.text
        &&& a.parent == b.parent
        &&& b.detached ==> a.detached
    } by {
        assert(same_but_flag(s1[j], s0[j]));
        assert(same_but_attrs(s2[j], s1[j]));
        assert(same_but_attrs(s3[j], s2[j]));
        assert(same_but_attrs(dom.nodes@[j], s3[j]));
    }
    assert forall|j: int, a: Seq<char>|
        0 <= j < s0.len() && a != "style"@ && a != "src"@ && a != "href"@
            implies #[trigger] attr_of(dom.nodes@[j].attrs@, a) == attr_of(s0[j].attrs@, a) by {
        assert(same_but_flag(s1[j], s0[j]));
        assert(!listed(style@, a)) by {
            if listed(style@, a) {
                let k = choose|k: int| 0 <= k < style@.len() && (#[trigger] style@[k])@ == a;
                assert(style@[k] == "style");
            }
        }
        assert(attr_of(s2[j].attrs@, a) == attr_of(s1[j].attrs@, a));
        assert(attr_of(s3[j].attrs@, a) == attr_of(s2[j].attrs@, a));
        assert(crate::links::address_attr(s3[j]) != Some(a)) by {
            reveal_strlit("href");
            reveal_strlit("src");
        }
    }
    proof {
        reveal_strlit("style");
        reveal_strlit("href");
        reveal_strlit("src");
        let fin = dom.nodes@;
        assert forall|j: int, x: Seq<char>| 0 <= j < s0.len() implies #[trigger] attr_of(s2[j].attrs@, x) == if within(s0, node as int, j)
            && s0[j].kind == NodeKind::Element && x == "style"@ {
            None
        } else {
            attr_of(s0[j].attrs@, x)
        } by {
            assert(same_but_flag(s1[j], s0[j]));
            lemma_below_same_parents(s1, s0, node as int, j);
            if x == "style"@ {
                assert(style@[0] == "style");
                assert(listed(style@, x));
            } else {
                assert(!listed(style@, x)) by {
                    if listed(style@, x) {
                        let k = choose|k: int| 0 <= k < style@.len() && (#[trigger] style@[k])@ == x;
                        assert(style@[k] == "style");
                    }
                }
            }
        }
        assert forall|j: int| 0 <= j < s0.len() implies {
            let x = #[trigger] s2[j];
            let y = s0[j];
            x.kind == y.kind && x.name == y.name && x.text == y.text && x.parent == y.parent
        } by {
            assert(same_but_flag(s1[j], s0[j]));
            assert(same_but_attrs(s2[j], s1[j]));
        }
        assert(styles_dropped(s0, s2, node as int));
        assert(images_done(s2, s3, node as int, url@, probes@));
        assert forall|j: int|
            0 <= j < fin.len() && within(s0, node as int, j) && s0[j].kind == NodeKind::Element
                implies #[trigger] attr_of(fin[j].attrs@, "style"@) is None by {
            assert(attr_of(s2[j].attrs@, "style"@) is None);
            assert("style"@.len() != "src"@.len());
            assert(attr_of(s3[j].attrs@, "style"@) is None);
            assert(crate::links::address_attr(s3[j]) != Some("style"@));
        }
        assert forall|j: int|
            0 <= j < fin.len() && below(fin, node as int, j) && attached(fin, node as int, j)
                implies !is_noise(#[trigger] fin[j]) by {
            lemma_below_same_parents(fin, s1, node as int, j);
            assert(forall|q: int| 0 <= q < fin.len() ==> (#[trigger] s1[q]).detached ==> fin[q].detached) by {
                assert forall|q: int| 0 <= q < fin.len() implies (#[trigger] s1[q]).detached ==> fin[q].detached by {
                    assert(same_but_attrs(s2[q], s1[q]));
                    assert(same_but_attrs(s3[q], s2[q]));
                    assert(same_but_attrs(fin[q], s3[q]));
                }
            }
            assert forall|q: int| 0 <= q < fin.len() implies (#[trigger] fin[q]).parent == s1[q].parent by {
                assert(same_but_attrs(s2[q], s1[q]));
                assert(same_but_attrs(s3[q], s2[q]));
                assert(same_but_attrs(fin[q], s3[q]));
            }
            lemma_attached_fewer_cuts(fin, s1, node as int, j);
            assert(!selects_any(noise@, s1[j]));
            assert(same_but_attrs(s2[j], s1[j]));
            assert(same_but_attrs(s3[j], s2[j]));
            assert(same_but_attrs(fin[j], s3[j]));
            if is_noise(fin[j]) {
                assert(attr_of(fin[j].attrs@, class_name()) == attr_of(s1[j].attrs@, class_name())) by {
                    reveal_strlit("class");
                    assert("class"@ =~= class_name());
                    assert(class_name()[1] != "style"@[1]);
                    assert(attr_of(s2[j].attrs@, class_name()) == attr_of(s1[j].attrs@, class_name()));
                    assert(attr_of(s3[j].attrs@, class_name()) == attr_of(s2[j].attrs@, class_name()));
                    assert(crate::links::address_attr(s3[j]) != Some(class_name()));
                }
                assert(is_noise(s1[j]));
            }
        }
        assert forall|j: int| 0 <= j < s0.len() implies (#[trigger] fin[j]).detached == (s0[j].detached || noise_target(s0, node as int, j)) by {
            assert(same_but_flag(s1[j], s0[j]));
            assert(same_but_attrs(s2[j], s1[j]));
            assert(same_but_attrs(s3[j], s2[j]));
            assert(same_but_attrs(fin[j], s3[j]));
            assert(selects_any(noise@, s0[j]) == is_noise(s0[j]));
        }
        assert(filtered(s0, fin, node as int, url@, probes@));
    }
}

/// The text holds no white space.
pub open spec fn spaceless(w: Seq<char>) -> bool {
    forall|i: int| 0 <= i < w.len() ==> !is_space(#[trigger] w[i])
}

/// The words of a text are non-empty and hold no white space.
pub proof fn lemma_words_plain(s: Seq<char>, i: int, cur: Seq<char>)
    requires
        spaceless(cur),
    ensures
        forall|k: int| 0 <= k < words_from(s, i, cur).len() ==> (#[trigger] words_from(s, i, cur)[k]).len() > 0
            && spaceless(words_from(s, i, cur)[k]),
    decreases s.len() - i,
{
    if i < 0 || i >= s.len() {
        if cur.len() > 0 {
            assert(words_from(s, i, cur) == seq![cur]);
            assert(words_from(s, i, cur)[0] == cur);
        } else {
            assert(words_from(s, i, cur).len() == 0);
        }
    } else if is_space(s[i]) {
        lemma_words_plain(s, i + 1, Seq::empty());
        lemma_words_step(s, i, cur);
        let head: Seq<Seq<char>> = if cur.len() > 0 { seq![cur] } else { Seq::empty() };
        let rest = words_from(s, i + 1, Seq::empty());
        assert forall|k: int| 0 <= k < words_from(s, i, cur).len() implies (#[trigger] words_from(s, i, cur)[k]).len() > 0
            && spaceless(words_from(s, i, cur)[k]) by {
            assert(words_from(s, i, cur) == head + rest);
            if k >= head.len() {
                assert(words_from(s, i, cur)[k] == rest[k - head.len()]);
            } else {
                assert(words_from(s, i, cur)[k] == cur);
            }
        }
    } else {
        assert(spaceless(cur.push(s[i]))) by {
            assert forall|x: int| 0 <= x < cur.push(s[i]).len() implies !is_space(#[trigger] cur.push(s[i])[x]) by {
                if x < cur.len() {
                    assert(cur.push(s[i])[x] == cur[x]);
                }
            }
        }
        lemma_words_plain(s, i + 1, cur.push(s[i]));
        lemma_words_step(s, i, cur);
    }
}

/// Words joined by spaces hold, as a word, only one of themselves.
pub proof fn lemma_join_words_word(ws: Seq<Seq<char>>, t: Seq<char>)
    requires
        t.len() > 0,
        spaceless(t),
        forall|k: int| 0 <= k < ws.len() ==> spaceless(#[trigger] ws[k]) && ws[k] != t,
    ensures
        !has_word(join_words(ws), t),
    decreases ws.len(),
{
    let j = join_words(ws);
    if ws.len() == 0 {
    } else if ws.len() == 1 {
        let w = ws[0];
        assert forall|i: int| !word_at(j, t, i) by {
            if word_at(j, t, i) {
                if i > 0 {
                    assert(is_space(w[i - 1]));
                }
                if i + t.len() < w.len() {
                    assert(is_space(w[i + t.len()]));
                }
                assert(w =~= t);
            }
        }
    } else {
        let u = ws.drop_last();
        let w = ws.last();
        let l = join_words(u);
        assert(spaceless(w));
        lemma_join_words_word(u, t);
        assert(j == l + seq![' '] + w);
        assert forall|i: int| !word_at(j, t, i) by {
            if word_at(j, t, i) {
                if i + t.len() <= l.len() {
                    assert(j.subrange(i, i + t.len()) =~= l.subrange(i, i + t.len()));
                    if i > 0 {
                        assert(j[i - 1] == l[i - 1]);
                    }
                    if i + t.len() < l.len() {
                        assert(j[i + t.len()] == l[i + t.len()]);
                    }
                    assert(word_at(l, t, i));
                } else if i <= l.len() {
                    assert(t[l.len() - i] == j[l.len() as int]);
                } else {
                    if i > l.len() + 1 {
                        assert(j[i - 1] == w[i - 1 - l.len() - 1]);
                    }
                    if i + t.len() < j.len() {
                        assert(j[i + t.len()] == w[i + t.len() - l.len() - 1]);
                    }
                    assert(w =~= t) by {
                        assert forall|x: int| 0 <= x < t.len() implies w[x] == t[x] by {
                            assert(j.subrange(i, i + t.len())[x] == t[x]);
                        }
                    }
                }
            }
        }
    }
}

/// Taking a class out of class lists leaves none that lists it.
pub proof fn lemma_class_gone(v: Seq<char>, classes: Seq<&str>, k: int)
    requires
        0 <= k < classes.len(),
        classes[k]@.len() > 0,
        spaceless(classes[k]@),
    ensures
        !has_word(without_classes(v, classes), classes[k]@),
{
    let pred = |w: Seq<char>| !listed(classes, w);
    let ws = words(v);
    lemma_words_plain(v, 0, Seq::empty());
    let f = ws.filter(pred);
    assert forall|q: int| 0 <= q < f.len() implies spaceless(#[trigger] f[q]) && f[q] != classes[k]@ by {
        ws.lemma_filter_pred(pred, q);
        ws.lemma_filter_contains_rev(pred, f[q]);
        let w = choose|w: int| 0 <= w < ws.len() && ws[w] == f[q];
        assert(spaceless(ws[w]));
    }
    lemma_join_words_word(f, classes[k]@);
}

} // verus!
