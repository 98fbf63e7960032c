use vstd::prelude::*;
use crate::dom::{below, is_tag, Dom, DomNode, NodeKind};

verus! {

/// The local name `p`.
pub open spec fn p_name() -> Seq<char> {
    seq!['p']
}

/// The local name `div`.
pub open spec fn div_name() -> Seq<char> {
    seq!['d', 'i', 'v']
}

/// The nearest `div` element strictly above `j`.
pub open spec fn nearest_div(ns: Seq<DomNode>, j: int) -> Option<int>
    decreases j,
{
    if 0 < j < ns.len() && (ns[j].parent as int) < j {
        if is_tag(ns[ns[j].parent as int], div_name()) {
            Some(ns[j].parent as int)
        } else {
            nearest_div(ns, ns[j].parent as int)
        }
    } else {
        None
    }
}

/// How many characters of text lie under `p`, counting the nodes before `i`.
pub open spec fn text_below(ns: Seq<DomNode>, p: int, i: int) -> nat
    decreases i,
{
    if i <= 0 {
        0
    } else {
        text_below(ns, p, i - 1) + if below(ns, p, i - 1) && ns[i - 1].kind == NodeKind::Text {
            ns[i - 1].text@.len()
        } else {
            0
        }
    }
}

/// The characters of text under `p`.
pub open spec fn text_len(ns: Seq<DomNode>, p: int) -> nat {
    text_below(ns, p, ns.len() as int)
}

/// Node `q` is a paragraph whose nearest `div` is `d`.
pub open spec fn feeds(ns: Seq<DomNode>, q: int, d: int) -> bool {
    0 <= q < ns.len() && is_tag(ns[q], p_name()) && nearest_div(ns, q) == Some(d)
}

/// The paragraph text that `div` `d` collects from the nodes before `i`.
pub open spec fn score_upto(ns: Seq<DomNode>, d: int, i: int) -> nat
    decreases i,
{
    if i <= 0 {
        0
    } else {
        score_upto(ns, d, i - 1) + if feeds(ns, i - 1, d) {
            text_len(ns, i - 1)
        } else {
            0
        }
    }
}

/// The density score of `div` `d`: the characters of all paragraphs that it is the
/// nearest `div` of.
pub open spec fn div_score(ns: Seq<DomNode>, d: int) -> nat {
    score_upto(ns, d, ns.len() as int)
}

/// Some paragraph has `d` as its nearest `div`.
pub open spec fn scored(ns: Seq<DomNode>, d: int) -> bool {
    exists|q: int| feeds(ns, q, d)
}

/// The first paragraph, from `q` on, whose nearest `div` is `d`.
pub open spec fn first_feed(ns: Seq<DomNode>, d: int, q: int) -> int
    decreases ns.len() - q,
{
    if q < 0 || q >= ns.len() {
        ns.len() as int
    } else if feeds(ns, q, d) {
        q
    } else {
        first_feed(ns, d, q + 1)
    }
}

/// A score as a machine word holds it, stopping at the largest value.
pub open spec fn capped(x: nat) -> usize {
    if x > usize::MAX {
        usize::MAX
    } else {
        x as usize
    }
}

/// `a` comes before `b` in the ranking: a higher score, or an equal one and an
/// earlier first paragraph.
pub open spec fn ranks_before(ns: Seq<DomNode>, a: (usize, usize), b: (usize, usize)) -> bool {
    a.1 > b.1 || (a.1 == b.1 && first_feed(ns, a.0 as int, 0) < first_feed(ns, b.0 as int, 0))
}

proof fn lemma_no_feed_no_score(ns: Seq<DomNode>, d: int, q: int)
    requires
        forall|x: int| 0 <= x < q ==> !feeds(ns, x, d),
    ensures
        score_upto(ns, d, q) == 0,
    decreases q,
{
    if q > 0 {
        lemma_no_feed_no_score(ns, d, q - 1);
    }
}

proof fn lemma_nearest_earlier(ns: Seq<DomNode>, j: int)
    ensures
        nearest_div(ns, j) matches Some(d) ==> 0 <= d < j,
    decreases j,
{
    if 0 < j < ns.len() && (ns[j].parent as int) < j {
        lemma_nearest_earlier(ns, ns[j].parent as int);
    }
}

/// The text lengths of the paragraphs among the first `i` nodes whose nearest
/// `div` is `d`, in document order.
pub open spec fn contributions(ns: Seq<DomNode>, d: int, i: int) -> Seq<nat>
    decreases i,
{
    if i <= 0 {
        Seq::empty()
    } else if feeds(ns, i - 1, d) {
        contributions(ns, d, i - 1).push(text_len(ns, i - 1))
    } else {
        contributions(ns, d, i - 1)
    }
}

/// Addition, as a fold step.
pub open spec fn add_step() -> spec_fn(nat, nat) -> nat {
    |acc: nat, x: nat| acc + x
}

proof fn lemma_score_is_sum(ns: Seq<DomNode>, d: int, i: int)
    ensures
        score_upto(ns, d, i) == contributions(ns, d, i).fold_left(0nat, add_step()),
    decreases i,
{
    if i > 0 {
        lemma_score_is_sum(ns, d, i - 1);
        let c = contributions(ns, d, i);
        if feeds(ns, i - 1, d) {
            assert(c.drop_last() == contributions(ns, d, i - 1));
        }
    }
}

/// A container's density score is the sum of its paragraphs' text lengths, in any
/// order: two containers whose paragraphs have the same text lengths, however
/// ordered, have the same score. Reordering the paragraphs of a container leaves
/// its score as it was.
pub proof fn lemma_score_ignores_paragraph_order(ns1: Seq<DomNode>, d1: int, ns2: Seq<DomNode>, d2: int)
    requires
        contributions(ns1, d1, ns1.len() as int).to_multiset() == contributions(ns2, d2, ns2.len() as int).to_multiset(),
    ensures
        div_score(ns1, d1) == div_score(ns2, d2),
{
    lemma_score_is_sum(ns1, d1, ns1.len() as int);
    lemma_score_is_sum(ns2, d2, ns2.len() as int);
    let f = add_step();
    assert(vstd::seq_lib::commutative_foldl(f));
    vstd::seq_lib::lemma_fold_left_permutation(
        contributions(ns1, d1, ns1.len() as int),
        contributions(ns2, d2, ns2.len() as int),
        f,
        0nat,
    );
}

/// An ancestor comes before its descendants.
pub proof fn lemma_below_earlier(ns: Seq<DomNode>, a: int, j: int)
    requires
        below(ns, a, j),
    ensures
        a < j,
    decreases j,
{
    if 0 < j < ns.len() && (ns[j].parent as int) < j && ns[j].parent != a {
        lemma_below_earlier(ns, a, ns[j].parent as int);
    }
}

proof fn lemma_first_feed(ns: Seq<DomNode>, d: int, f: int, q: int)
    requires
        0 <= q <= f,
        feeds(ns, f, d),
        forall|x: int| q <= x < f ==> !feeds(ns, x, d),
    ensures
        first_feed(ns, d, q) == f,
    decreases f - q,
{
    if q < f {
        lemma_first_feed(ns, d, f, q + 1);
    }
}

fn add_capped(a: usize, b: usize) -> (r: usize)
    ensures
        r == capped((a + b) as nat),
{
    if a > usize::MAX - b {
        usize::MAX
    } else {
        a + b
    }
}

impl Dom {
    /// The nearest `div` element strictly above `j`.
    pub fn div_ancestor(&self, j: usize) -> (r: Option<usize>)
        requires
            self.wf(),
            j < self.nodes@.len(),
        ensures
            match r {
                Some(d) => nearest_div(self.nodes@, j as int) == Some(d as int),
                None => nearest_div(self.nodes@, j as int) == None::<int>,
            },
    {
        let mut k: usize = j;
        while k > 0
            invariant
                self.wf(),
                k < self.nodes@.len(),
                nearest_div(self.nodes@, j as int) == nearest_div(self.nodes@, k as int),
            decreases k,
        {
            let p = self.nodes[k].parent;
            if self.nodes[p].kind == NodeKind::Element && crate::text::str_eq(self.nodes[p].name.as_str(), "div") {
                proof {
                    reveal_strlit("div");
                    assert("div"@ =~= div_name());
                }
                return Some(p);
            }
            proof {
                reveal_strlit("div");
                assert("div"@ =~= div_name());
            }
            k = p;
        }
        None
    }

    /// How many characters of text lie under `p`, stopping at the largest machine word.
    pub fn text_length(&self, p: usize) -> (r: usize)
        requires
            self.wf(),
            p < self.nodes@.len(),
        ensures
            r == capped(text_len(self.nodes@, p as int)),
    {
        let n = self.nodes.len();
        let mut total: usize = 0;
        let mut j: usize = 0;
        while j < n
            invariant
                n == self.nodes@.len(),
                self.wf(),
                p < n,
                j <= n,
                total == capped(text_below(self.nodes@, p as int, j as int)),
            decreases n - j,
        {
            if j > p && self.nodes[j].kind == NodeKind::Text && self.is_below(p, j) {
                total = add_capped(total, self.nodes[j].text.unicode_len());
            } else {
                proof {
                    if below(self.nodes@, p as int, j as int) {
                        lemma_below_earlier(self.nodes@, p as int, j as int);
                    }
                }
            }
            j = j + 1;
        }
        total
    }

    /// The density scores: every `div` that is the nearest `div` of some paragraph,
    /// with the characters of text of all such paragraphs, highest first; equal
    /// scores keep the order in which their `div`s were first met.
    pub fn score_divs(&self) -> (r: Vec<(usize, usize)>)
        requires
            self.wf(),
        ensures
            forall|k: int|
                0 <= k < r@.len() ==> {
                    let e = #[trigger] r@[k];
                    &&& e.0 < self.nodes@.len()
                    &&& scored(self.nodes@, e.0 as int)
                    &&& e.1 == capped(div_score(self.nodes@, e.0 as int))
                },
            forall|d: int|
                #[trigger] scored(self.nodes@, d) ==> exists|k: int| 0 <= k < r@.len() && r@[k].0 == d,
            forall|a: int, b: int|
                0 <= a < b < r@.len() ==> ranks_before(self.nodes@, #[trigger] r@[a], #[trigger] r@[b]),
            forall|a: int, b: int|
                0 <= a < r@.len() && 0 <= b < r@.len() && (#[trigger] r@[a]).1 > (#[trigger] r@[b]).1 ==> a < b,
            (forall|d: int| !scored(self.nodes@, d)) ==> r@.len() == 0,
    {
        let ghost ns = self.nodes@;
        let n = self.nodes.len();
        let mut entries: Vec<(usize, usize, usize)> = Vec::new();
        let mut q: usize = 0;
        while q < n
            invariant
                ns == self.nodes@,
                n == ns.len(),
                self.wf(),
                q <= n,
                forall|k: int|
                    0 <= k < entries@.len() ==> {
                        let e = #[trigger] entries@[k];
                        &&& e.0 < n
                        &&& e.2 < q
                        &&& feeds(ns, e.2 as int, e.0 as int)
                        &&& forall|x: int| 0 <= x < e.2 ==> !feeds(ns, x, e.0 as int)
                        &&& e.1 == capped(score_upto(ns, e.0 as int, q as int))
                    },
                forall|k1: int, k2: int|
                    0 <= k1 < k2 < entries@.len() ==> (#[trigger] entries@[k1]).2 < (#[trigger] entries@[k2]).2,
                forall|k1: int, k2: int|
                    0 <= k1 < entries@.len() && 0 <= k2 < entries@.len() && k1 != k2
                        ==> (#[trigger] entries@[k1]).0 != (#[trigger] entries@[k2]).0,
                forall|x: int, d: int|
                    0 <= x < q && #[trigger] feeds(ns, x, d) ==> exists|k: int|
                        0 <= k < entries@.len() && (#[trigger] entries@[k]).0 == d,
            decreases n - q,
        {
            let is_p = self.nodes[q].kind == NodeKind::Element && crate::text::str_eq(self.nodes[q].name.as_str(), "p");
            proof {
                reveal_strlit("p");
                assert("p"@ =~= p_name());
            }
            let anc = if is_p { self.div_ancestor(q) } else { None };
            let ghost old_entries = entries@;
            match anc {
                Some(d) => {
                    proof {
                        lemma_nearest_earlier(ns, q as int);
                    }
                    let len = self.text_length(q);
                    let mut k: usize = 0;
                    while k < entries.len() && entries[k].0 != d
                        invariant
                            k <= entries@.len(),
                            forall|j: int| 0 <= j < k ==> (#[trigger] entries@[j]).0 != d,
                        decreases entries@.len() - k,
                    {
                        k = k + 1;
                    }
                    if k < entries.len() {
                        let e = entries[k];
                        entries.set(k, (e.0, add_capped(e.1, len), e.2));
                    } else {
                        entries.push((d, len, q));
                        proof {
                            assert(entries@[entries@.len() - 1].0 == d);
                            assert forall|x: int| 0 <= x < q implies !feeds(ns, x, d as int) by {
                                if feeds(ns, x, d as int) {
                                    let k3 = choose|k3: int| 0 <= k3 < old_entries.len() && (#[trigger] old_entries[k3]).0 == d;
                                    assert(old_entries[k3].0 != d);
                                }
                            }
                        }
                    }
                    proof {
                        assert(feeds(ns, q as int, d as int));
                        assert forall|k2: int| 0 <= k2 < entries@.len() implies {
                            let e = #[trigger] entries@[k2];
                            e.1 == capped(score_upto(ns, e.0 as int, q + 1))
                        } by {
                            let e = entries@[k2];
                            if e.0 != d {
                                assert(!feeds(ns, q as int, e.0 as int));
                                assert(e == old_entries[k2]);
                            } else if k < old_entries.len() {
                                assert(k2 == k);
                                let a = score_upto(ns, d as int, q as int);
                                let b = text_len(ns, q as int);
                                assert(score_upto(ns, d as int, q + 1) == a + b);
                                assert(e.1 == capped((capped(a) + capped(b)) as nat));
                            } else {
                                assert(k2 == old_entries.len());
                                assert(score_upto(ns, d as int, q as int) == 0) by {
                                    lemma_no_feed_no_score(ns, d as int, q as int);
                                }
                            }
                        }
                        assert forall|x: int, d2: int|
                            0 <= x < q + 1 && #[trigger] feeds(ns, x, d2) implies exists|k3: int|
                                0 <= k3 < entries@.len() && (#[trigger] entries@[k3]).0 == d2 by {
                            if x < q {
                                let k3 = choose|k3: int| 0 <= k3 < old_entries.len() && (#[trigger] old_entries[k3]).0 == d2;
                                assert(entries@[k3].0 == d2);
                            } else if k < old_entries.len() {
                                assert(entries@[k as int].0 == d2);
                            } else {
                                assert(entries@[old_entries.len() as int].0 == d2);
                            }
                        }
                    }
                },
                None => {
                    proof {
                        assert forall|d2: int| !feeds(ns, q as int, d2) by {}
                        assert forall|k2: int| 0 <= k2 < entries@.len() implies {
                            let e = #[trigger] entries@[k2];
                            e.1 == capped(score_upto(ns, e.0 as int, q + 1))
                        } by {
                            assert(!feeds(ns, q as int, entries@[k2].0 as int));
                        }
                        assert forall|x: int, d2: int|
                            0 <= x < q + 1 && #[trigger] feeds(ns, x, d2) implies exists|k3: int|
                                0 <= k3 < entries@.len() && (#[trigger] entries@[k3]).0 == d2 by {
                            assert(x < q);
                        }
                    }
                },
            }
            proof {
                assert forall|k: int| 0 <= k < entries@.len() implies {
                    let e = #[trigger] entries@[k];
                    &&& e.0 < n
                    &&& e.2 < q + 1
                    &&& feeds(ns, e.2 as int, e.0 as int)
                    &&& forall|x: int| 0 <= x < e.2 ==> !feeds(ns, x, e.0 as int)
                } by {
                    if k < old_entries.len() {
                        assert(entries@[k].0 == old_entries[k].0);
                        assert(entries@[k].2 == old_entries[k].2);
                    }
                }
            }
            q = q + 1;
        }
        proof {
            assert forall|k: int| 0 <= k < entries@.len() implies
                (#[trigger] entries@[k]).2 == first_feed(ns, entries@[k].0 as int, 0) by {
                lemma_first_feed(ns, entries@[k].0 as int, entries@[k].2 as int, 0);
            }
        }
        let ranked = rank(entries, Ghost(ns));
        let mut r: Vec<(usize, usize)> = Vec::new();
        let mut k: usize = 0;
        while k < ranked.len()
            invariant
                k <= ranked@.len(),
                r@.len() == k,
                forall|j: int| 0 <= j < k ==> (#[trigger] r@[j]).0 == ranked@[j].0 && r@[j].1 == ranked@[j].1,
            decreases ranked@.len() - k,
        {
            r.push((ranked[k].0, ranked[k].1));
            k = k + 1;
        }
        proof {
            assert forall|d: int| #[trigger] scored(ns, d) implies exists|k: int| 0 <= k < r@.len() && r@[k].0 == d by {
                let x = choose|x: int| feeds(ns, x, d);
                let k1 = choose|k1: int| 0 <= k1 < entries@.len() && (#[trigger] entries@[k1]).0 == d;
                assert(ranked@.contains(entries@[k1]));
                let k2 = choose|k2: int| 0 <= k2 < ranked@.len() && ranked@[k2] == entries@[k1];
                assert(r@[k2].0 == d);
            }
            assert forall|k2: int| 0 <= k2 < r@.len() implies scored(ns, (#[trigger] r@[k2]).0 as int) by {
                assert(feeds(ns, ranked@[k2].2 as int, ranked@[k2].0 as int));
            }
            assert forall|a: int, b: int|
                0 <= a < b < r@.len() implies ranks_before(ns, #[trigger] r@[a], #[trigger] r@[b]) by {
                assert(ranked@[a].1 > ranked@[b].1 || (ranked@[a].1 == ranked@[b].1 && ranked@[a].2 < ranked@[b].2));
            }
            assert forall|a: int, b: int|
                0 <= a < r@.len() && 0 <= b < r@.len() && (#[trigger] r@[a]).1 > (#[trigger] r@[b]).1 implies a < b by {
                if b < a {
                    assert(entry_before(ranked@[b], ranked@[a]));
                }
                if a == b {
                }
            }
            if r@.len() > 0 {
                assert(scored(ns, r@[0].0 as int));
            }
        }
        r
    }
}

/// An entry of the scoring: its `div`, its score and its first paragraph are right.
pub open spec fn sound_entry(ns: Seq<DomNode>, e: (usize, usize, usize)) -> bool {
    &&& e.0 < ns.len()
    &&& feeds(ns, e.2 as int, e.0 as int)
    &&& e.1 == capped(div_score(ns, e.0 as int))
    &&& e.2 == first_feed(ns, e.0 as int, 0)
}

/// `a` is ranked before `b`: a higher score, or an equal score and an earlier first paragraph.
pub open spec fn entry_before(a: (usize, usize, usize), b: (usize, usize, usize)) -> bool {
    a.1 > b.1 || (a.1 == b.1 && a.2 < b.2)
}

/// Sorts entries met in order of their first paragraph into ranking order.
fn rank(entries: Vec<(usize, usize, usize)>, ns: Ghost<Seq<DomNode>>) -> (r: Vec<(usize, usize, usize)>)
    requires
        forall|k: int| 0 <= k < entries@.len() ==> sound_entry(ns@, #[trigger] entries@[k]),
        forall|k1: int, k2: int|
            0 <= k1 < k2 < entries@.len() ==> (#[trigger] entries@[k1]).2 < (#[trigger] entries@[k2]).2,
    ensures
        forall|k: int| 0 <= k < r@.len() ==> sound_entry(ns@, #[trigger] r@[k]),
        forall|k: int| 0 <= k < entries@.len() ==> r@.contains(#[trigger] entries@[k]),
        forall|a: int, b: int| 0 <= a < b < r@.len() ==> entry_before(#[trigger] r@[a], #[trigger] r@[b]),
{
    let mut out: Vec<(usize, usize, usize)> = Vec::new();
    let mut i: usize = 0;
    while i < entries.len()
        invariant
            i <= entries@.len(),
            forall|k: int| 0 <= k < entries@.len() ==> sound_entry(ns@, #[trigger] entries@[k]),
            forall|k1: int, k2: int|
                0 <= k1 < k2 < entries@.len() ==> (#[trigger] entries@[k1]).2 < (#[trigger] entries@[k2]).2,
            forall|k: int| 0 <= k < out@.len() ==> sound_entry(ns@, #[trigger] out@[k]),
            forall|k: int| 0 <= k < i ==> out@.contains(#[trigger] entries@[k]),
            forall|k: int| 0 <= k < out@.len() ==> i < entries@.len() ==> (#[trigger] out@[k]).2 < entries@[i as int].2,
            forall|a: int, b: int| 0 <= a < b < out@.len() ==> entry_before(#[trigger] out@[a], #[trigger] out@[b]),
        decreases entries@.len() - i,
    {
        let e = entries[i];
        let mut pos: usize = 0;
        while pos < out.len() && !(e.1 > out[pos].1 || (e.1 == out[pos].1 && e.2 < out[pos].2))
            invariant
                pos <= out@.len(),
                forall|j: int| 0 <= j < pos ==> !entry_before(e, #[trigger] out@[j]),
            decreases out@.len() - pos,
        {
            pos = pos + 1;
        }
        let ghost before = out@;
        out.insert(pos, e);
        proof {
            assert(out@ == before.insert(pos as int, e));
            assert forall|k: int| 0 <= k < i + 1 implies out@.contains(#[trigger] entries@[k]) by {
                if k < i {
                    let w = choose|w: int| 0 <= w < before.len() && before[w] == entries@[k];
                    if w < pos {
                        assert(out@[w] == entries@[k]);
                    } else {
                        assert(out@[w + 1] == entries@[k]);
                    }
                } else {
                    assert(out@[pos as int] == e);
                }
            }
            assert forall|a: int, b: int| 0 <= a < b < out@.len() implies entry_before(#[trigger] out@[a], #[trigger] out@[b]) by {
                if b < pos {
                } else if a < pos && b == pos {
                    assert(!entry_before(e, before[a]));
                    assert(before[a].2 < e.2);
                } else if a < pos {
                    assert(out@[b] == before[b - 1]);
                } else if a == pos {
                    if b - 1 > pos {
                        assert(entry_before(before[pos as int], before[b - 1]));
                    }
                } else {
                    assert(out@[a] == before[a - 1]);
                    assert(out@[b] == before[b - 1]);
                }
            }
            assert forall|k: int| 0 <= k < out@.len() implies sound_entry(ns@, #[trigger] out@[k]) by {
                if k < pos {
                } else if k > pos {
                    assert(out@[k] == before[k - 1]);
                }
            }
            assert forall|k: int| 0 <= k < out@.len() implies i + 1 < entries@.len() ==> (#[trigger] out@[k]).2 < entries@[i + 1].2 by {
                if k < pos {
                } else if k > pos {
                    assert(out@[k] == before[k - 1]);
                }
            }
        }
        i = i + 1;
    }
    out
}

} // verus!
