use vstd::prelude::*;
use crate::dom::{arena_wf, attr_of, get_attr, set_attr, within, Attribute, Dom, DomNode, NodeKind};
use crate::filter::{lemma_below_same_parents, same_but_attrs};
use crate::srcset::{best_source, image_from_srcset};
use crate::text::{has_prefix, starts_with, str_eq};
use crate::web::{join_url, joined, parse_url, parsed};

verus! {

/// Below this many bytes an image is taken for a placeholder.
pub const PLACEHOLDER_BYTES: usize = 2000;

/// What a size probe learned of an image address.
#[derive(Debug)]
pub struct ImageResource {
    pub url: String,
    pub size_bytes: usize,
    pub mime: String,
}

/// Swaps placeholder images for the real image named in their `data-*` or srcset
/// attributes, resolving relative addresses against a base URL.
pub struct ImgDataSrcFilter {
    pub base: String,
}

/// The element has some `data-*` attribute.
pub open spec fn has_data(attrs: Seq<Attribute>) -> bool {
    exists|k: int| 0 <= k < attrs.len() && has_prefix((#[trigger] attrs[k]).name@, "data-"@)
}

/// The size that the probes report for an image at `u`, from probe `i` on.
pub open spec fn probed_from(probes: Seq<ImageResource>, u: Seq<char>, i: int) -> Option<usize>
    decreases probes.len() - i,
{
    if i < 0 || i >= probes.len() {
        None
    } else if probes[i].url@ == u && has_prefix(probes[i].mime@, "image"@) {
        Some(probes[i].size_bytes)
    } else {
        probed_from(probes, u, i + 1)
    }
}

/// The size of the image at `u`, if a probe found one there.
pub open spec fn probed(probes: Seq<ImageResource>, u: Seq<char>) -> Option<usize> {
    probed_from(probes, u, 0)
}

/// The current source is likely a placeholder: missing, inline, not a URL, or an
/// image that is small or could not be probed.
pub open spec fn placeholder(src: Option<Seq<char>>, probes: Seq<ImageResource>) -> bool {
    match src {
        None => true,
        Some(s) => has_prefix(s, "data:"@) || match parsed(s) {
            None => true,
            Some(u) => match probed(probes, u) {
                None => true,
                Some(size) => size < PLACEHOLDER_BYTES,
            },
        },
    }
}

/// The web address that a `data-*` value stands for: the value as a URL, or else
/// joined to the base; only `http` addresses count.
pub open spec fn data_address(base: Seq<char>, v: Seq<char>) -> Option<Seq<char>> {
    let u = match parsed(v) {
        Some(u) => Some(u),
        None => joined(base, v),
    };
    match u {
        Some(a) => if has_prefix(a, "http"@) { Some(a) } else { None },
        None => None,
    }
}

/// The candidate addresses of the `data-*` attributes from `i` on, in order.
pub open spec fn candidates_from(attrs: Seq<Attribute>, base: Seq<char>, i: int) -> Seq<Seq<char>>
    decreases attrs.len() - i,
{
    if i < 0 || i >= attrs.len() {
        Seq::empty()
    } else {
        let rest = candidates_from(attrs, base, i + 1);
        if has_prefix(attrs[i].name@, "data-"@) {
            match data_address(base, attrs[i].value@) {
                Some(a) => seq![a] + rest,
                None => rest,
            }
        } else {
            rest
        }
    }
}

/// The size of candidate `k`, where a probe found an image.
pub open spec fn cand_size(cs: Seq<Seq<char>>, probes: Seq<ImageResource>, k: int) -> Option<usize> {
    probed(probes, cs[k])
}

/// Candidate `k` is the first of the largest probed images.
pub open spec fn is_best_cand(cs: Seq<Seq<char>>, probes: Seq<ImageResource>, k: int) -> bool {
    &&& 0 <= k < cs.len()
    &&& cand_size(cs, probes, k) is Some
    &&& forall|q: int| 0 <= q < cs.len() && (#[trigger] cand_size(cs, probes, q)) is Some
        ==> cand_size(cs, probes, q)->Some_0 <= cand_size(cs, probes, k)->Some_0
    &&& forall|q: int| 0 <= q < k && (#[trigger] cand_size(cs, probes, q)) is Some
        ==> cand_size(cs, probes, q)->Some_0 < cand_size(cs, probes, k)->Some_0
}

/// The largest image among the candidates, the first of equal ones.
pub open spec fn best_candidate(cs: Seq<Seq<char>>, probes: Seq<ImageResource>) -> Option<Seq<char>> {
    if exists|k: int| is_best_cand(cs, probes, k) {
        Some(cs[choose|k: int| is_best_cand(cs, probes, k)])
    } else {
        None
    }
}

/// The srcset list of an image: `srcset`, or else `data-srcset`.
pub open spec fn srcset_of(attrs: Seq<Attribute>) -> Option<Seq<char>> {
    match attr_of(attrs, "srcset"@) {
        Some(v) => Some(v),
        None => attr_of(attrs, "data-srcset"@),
    }
}

/// The real image of a placeholder: the best of its srcset list where it has one,
/// else the largest image among its `data-*` addresses.
pub open spec fn replacement(attrs: Seq<Attribute>, base: Seq<char>, probes: Seq<ImageResource>) -> Option<Seq<char>> {
    match srcset_of(attrs) {
        Some(v) => best_source(v),
        None => best_candidate(candidates_from(attrs, base, 0), probes),
    }
}

/// The `src` of node `j` after the filter ran under `root`.
pub open spec fn after_images(ns: Seq<DomNode>, root: int, base: Seq<char>, probes: Seq<ImageResource>, j: int) -> Option<Seq<char>> {
    let n = ns[j];
    let src = attr_of(n.attrs@, "src"@);
    if within(ns, root, j) && n.kind == NodeKind::Element && n.name@ == "img"@ && has_data(n.attrs@)
        && placeholder(src, probes) && replacement(n.attrs@, base, probes) is Some {
        replacement(n.attrs@, base, probes)
    } else {
        src
    }
}

proof fn lemma_best_cand_unique(cs: Seq<Seq<char>>, probes: Seq<ImageResource>, a: int, b: int)
    requires
        is_best_cand(cs, probes, a),
        is_best_cand(cs, probes, b),
    ensures
        a == b,
{
    if a < b {
        assert(cand_size(cs, probes, a) is Some);
    } else if b < a {
        assert(cand_size(cs, probes, b) is Some);
    }
}

/// The size that the probes report for an image at `u`.
pub fn probe_size(probes: &Vec<ImageResource>, u: &str) -> (r: Option<usize>)
    ensures
        r == probed(probes@, u@),
{
    let mut i: usize = 0;
    while i < probes.len()
        invariant
            i <= probes@.len(),
            probed(probes@, u@) == probed_from(probes@, u@, i as int),
        decreases probes@.len() - i,
    {
        if str_eq(probes[i].url.as_str(), u) && starts_with(probes[i].mime.as_str(), "image") {
            return Some(probes[i].size_bytes);
        }
        i = i + 1;
    }
    None
}

/// Whether the element has some `data-*` attribute.
pub fn has_data_attr(attrs: &Vec<Attribute>) -> (r: bool)
    ensures
        r == has_data(attrs@),
{
    let mut k: usize = 0;
    while k < attrs.len()
        invariant
            k <= attrs@.len(),
            forall|q: int| 0 <= q < k ==> !has_prefix((#[trigger] attrs@[q]).name@, "data-"@),
        decreases attrs@.len() - k,
    {
        if starts_with(attrs[k].name.as_str(), "data-") {
            return true;
        }
        k = k + 1;
    }
    false
}

impl ImgDataSrcFilter {
    pub fn new(base: &str) -> (r: Self)
        ensures
            r.base@ == base@,
    {
        ImgDataSrcFilter { base: base.to_owned() }
    }

    /// Whether the current source is likely a placeholder.
    pub fn is_likely_placeholder(&self, src: Option<&String>, probes: &Vec<ImageResource>) -> (r: bool)
        ensures
            r == placeholder(
                match src {
                    Some(s) => Some(s@),
                    None => None,
                },
                probes@,
            ),
    {
        match src {
            None => true,
            Some(s) => {
                if starts_with(s.as_str(), "data:") {
                    return true;
                }
                match parse_url(s.as_str()) {
                    None => true,
                    Some(u) => match probe_size(probes, u.as_str()) {
                        None => true,
                        Some(size) => size < PLACEHOLDER_BYTES,
                    },
                }
            },
        }
    }

    /// The web address that a `data-*` value stands for.
    pub fn data_address(&self, v: &str) -> (r: Option<String>)
        ensures
            match r {
                Some(a) => data_address(self.base@, v@) == Some(a@),
                None => data_address(self.base@, v@) is None,
            },
    {
        let u = match parse_url(v) {
            Some(u) => Some(u),
            None => join_url(self.base.as_str(), v),
        };
        match u {
            Some(a) => if starts_with(a.as_str(), "http") { Some(a) } else { None },
            None => None,
        }
    }

    /// The candidate addresses of the `data-*` attributes, in order.
    pub fn candidates(&self, attrs: &Vec<Attribute>) -> (r: Vec<String>)
        ensures
            r@.len() == candidates_from(attrs@, self.base@, 0).len(),
            forall|k: int| 0 <= k < r@.len() ==> (#[trigger] r@[k])@ == candidates_from(attrs@, self.base@, 0)[k],
    {
        let mut rev: Vec<String> = Vec::new();
        let mut i: usize = attrs.len();
        while i > 0
            invariant
                i <= attrs@.len(),
                rev@.len() == candidates_from(attrs@, self.base@, i as int).len(),
                forall|k: int| 0 <= k < rev@.len() ==> (#[trigger] rev@[k])@
                    == candidates_from(attrs@, self.base@, i as int)[rev@.len() - 1 - k],
            decreases i,
        {
            i = i - 1;
            if starts_with(attrs[i].name.as_str(), "data-") {
                match self.data_address(attrs[i].value.as_str()) {
                    Some(a) => {
                        rev.push(a);
                    },
                    None => {},
                }
            }
        }
        let mut r: Vec<String> = Vec::new();
        let mut k: usize = rev.len();
        while k > 0
            invariant
                k <= rev@.len(),
                r@.len() == rev@.len() - k,
                forall|q: int| 0 <= q < r@.len() ==> (#[trigger] r@[q])@ == rev@[rev@.len() - 1 - q]@,
            decreases k,
        {
            k = k - 1;
            r.push(rev[k].clone());
        }
        r
    }

    /// The largest image among the candidates, the first of equal ones.
    pub fn pick_image(&self, cands: &Vec<String>, probes: &Vec<ImageResource>) -> (r: Option<String>)
        ensures
            match r {
                Some(u) => best_candidate(cands@.map_values(|c: String| c@), probes@) == Some(u@),
                None => best_candidate(cands@.map_values(|c: String| c@), probes@) is None,
            },
    {
        let ghost cs = cands@.map_values(|c: String| c@);
        let mut best: Option<(usize, usize)> = None;
        let mut k: usize = 0;
        while k < cands.len()
            invariant
                cs == cands@.map_values(|c: String| c@),
                k <= cands@.len(),
                match best {
                    Some((b, size)) => b < k && cand_size(cs, probes@, b as int) == Some(size)
                        && (forall|q: int| 0 <= q < k && (#[trigger] cand_size(cs, probes@, q)) is Some
                            ==> cand_size(cs, probes@, q)->Some_0 <= size)
                        && (forall|q: int| 0 <= q < b && (#[trigger] cand_size(cs, probes@, q)) is Some
                            ==> cand_size(cs, probes@, q)->Some_0 < size),
                    None => forall|q: int| 0 <= q < k ==> (#[trigger] cand_size(cs, probes@, q)) is None,
                },
            decreases cands@.len() - k,
        {
            let s = probe_size(probes, cands[k].as_str());
            assert(s == cand_size(cs, probes@, k as int));
            match s {
                Some(size) => {
                    match best {
                        Some((_, bs)) => {
                            if size > bs {
                                best = Some((k, size));
                            }
                        },
                        None => {
                            best = Some((k, size));
                        },
                    }
                },
                None => {},
            }
            k = k + 1;
        }
        match best {
            Some((b, _)) => {
                proof {
                    assert(is_best_cand(cs, probes@, b as int));
                    lemma_best_cand_unique(cs, probes@, b as int, choose|j: int| is_best_cand(cs, probes@, j));
                }
                Some(cands[b].clone())
            },
            None => {
                assert forall|j: int| !is_best_cand(cs, probes@, j) by {}
                None
            },
        }
    }

    /// The real image of a placeholder, where one can be determined.
    pub fn replacement(&self, attrs: &Vec<Attribute>, probes: &Vec<ImageResource>) -> (r: Option<String>)
        ensures
            match r {
                Some(u) => replacement(attrs@, self.base@, probes@) == Some(u@),
                None => replacement(attrs@, self.base@, probes@) is None,
            },
    {
        let set = match get_attr(attrs, "srcset") {
            Some(v) => Some(v),
            None => get_attr(attrs, "data-srcset"),
        };
        match set {
            Some(v) => image_from_srcset(v.as_str()),
            None => {
                let cands = self.candidates(attrs);
                proof {
                    assert(cands@.map_values(|c: String| c@) =~= candidates_from(attrs@, self.base@, 0));
                }
                self.pick_image(&cands, probes)
            },
        }
    }

    /// Gives every placeholder image under `node` (itself included) that has a
    /// `data-*` attribute its real source, where one can be determined.
    pub fn run(&self, dom: &mut Dom, node: usize, probes: &Vec<ImageResource>)
        requires
            old(dom).wf(),
            node < old(dom).nodes@.len(),
        ensures
            final(dom).wf(),
            final(dom).nodes@.len() == old(dom).nodes@.len(),
            forall|j: int|
                0 <= j < old(dom).nodes@.len() ==> same_but_attrs(#[trigger] final(dom).nodes@[j], old(dom).nodes@[j]),
            forall|j: int|
                0 <= j < old(dom).nodes@.len() ==> #[trigger] attr_of(final(dom).nodes@[j].attrs@, "src"@)
                    == after_images(old(dom).nodes@, node as int, self.base@, probes@, j),
            forall|j: int, a: Seq<char>|
                0 <= j < old(dom).nodes@.len() && a != "src"@ ==> #[trigger] attr_of(final(dom).nodes@[j].attrs@, a)
                    == attr_of(old(dom).nodes@[j].attrs@, a),
    {
        let ghost before = dom.nodes@;
        let n = dom.nodes.len();
        let mut j: usize = 0;
        while j < n
            invariant
                n == before.len(),
                dom.nodes@.len() == n,
                arena_wf(before),
                node < n,
                j <= n,
                forall|q: int| 0 <= q < n ==> same_but_attrs(#[trigger] dom.nodes@[q], before[q]),
                forall|q: int| j <= q < n ==> (#[trigger] dom.nodes@[q]).attrs == before[q].attrs,
                forall|q: int|
                    0 <= q < j ==> #[trigger] attr_of(dom.nodes@[q].attrs@, "src"@)
                        == after_images(before, node as int, self.base@, probes@, q),
                forall|q: int, a: Seq<char>|
                    0 <= q < j && a != "src"@ ==> #[trigger] attr_of(dom.nodes@[q].attrs@, a)
                        == attr_of(before[q].attrs@, a),
            decreases n - j,
        {
            assert(dom.wf()) by {
                assert forall|i: int| 0 < i < dom.nodes@.len() implies (#[trigger] dom.nodes@[i].parent) < i by {
                    assert(same_but_attrs(dom.nodes@[i], before[i]));
                }
            }
            let inside = dom.is_within(node, j);
            proof {
                lemma_below_same_parents(dom.nodes@, before, node as int, j as int);
            }
            if inside && dom.nodes[j].kind == NodeKind::Element && str_eq(dom.nodes[j].name.as_str(), "img")
                && has_data_attr(&dom.nodes[j].attrs) {
                let src = get_attr(&dom.nodes[j].attrs, "src");
                if self.is_likely_placeholder(src.as_ref(), probes) {
                    match self.replacement(&dom.nodes[j].attrs, probes) {
                        Some(u) => set_attr(&mut dom.nodes[j].attrs, "src", u),
                        None => {},
                    }
                }
            }
            j = j + 1;
        }
        assert(dom.wf()) by {
            assert forall|i: int| 0 < i < dom.nodes@.len() implies (#[trigger] dom.nodes@[i].parent) < i by {
                assert(same_but_attrs(dom.nodes@[i], before[i]));
            }
        }
    }

    /// The addresses whose size `run` may look up: for every image under `node` that
    /// has a `data-*` attribute, in document order, its parsed `src` and then its
    /// `data-*` candidates.
    pub fn probe_targets(&self, dom: &Dom, node: usize) -> (r: Vec<String>)
        requires
            dom.wf(),
            node < dom.nodes@.len(),
        ensures
            views(r@) == targets_upto(dom.nodes@, node as int, self.base@, dom.nodes@.len() as int),
    {
        let ghost ns = dom.nodes@;
        let mut r: Vec<String> = Vec::new();
        let n = dom.nodes.len();
        let mut j: usize = 0;
        while j < n
            invariant
                n == ns.len(),
                ns == dom.nodes@,
                dom.wf(),
                node < n,
                j <= n,
                views(r@) == targets_upto(ns, node as int, self.base@, j as int),
            decreases n - j,
        {
            let ghost old_r = views(r@);
            if dom.nodes[j].kind == NodeKind::Element && str_eq(dom.nodes[j].name.as_str(), "img")
                && has_data_attr(&dom.nodes[j].attrs) && dom.is_within(node, j) {
                match get_attr(&dom.nodes[j].attrs, "src") {
                    Some(s) => match parse_url(s.as_str()) {
                        Some(u) => r.push(u),
                        None => {},
                    },
                    None => {},
                }
                let ghost mid = views(r@);
                assert(mid == old_r + image_src_targets(ns[j as int].attrs@)) by {
                    assert(mid =~= old_r + image_src_targets(ns[j as int].attrs@));
                }
                let cands = self.candidates(&dom.nodes[j].attrs);
                let mut k: usize = 0;
                while k < cands.len()
                    invariant
                        k <= cands@.len(),
                        views(r@) == mid + candidates_from(ns[j as int].attrs@, self.base@, 0).take(k as int),
                        cands@.len() == candidates_from(ns[j as int].attrs@, self.base@, 0).len(),
                        forall|q: int| 0 <= q < cands@.len() ==> (#[trigger] cands@[q])@ == candidates_from(ns[j as int].attrs@, self.base@, 0)[q],
                    decreases cands@.len() - k,
                {
                    let ghost prev = r@;
                    let c = cands[k].clone();
                    r.push(c);
                    proof {
                        assert(views(r@) =~= views(prev).push(cands@[k as int]@));
                        let cs = candidates_from(ns[j as int].attrs@, self.base@, 0);
                        assert(cs.take(k + 1) =~= cs.take(k as int).push(cs[k as int]));
                    }
                    k = k + 1;
                    assert(views(r@) =~= mid + candidates_from(ns[j as int].attrs@, self.base@, 0).take(k as int));
                }
                assert(candidates_from(ns[j as int].attrs@, self.base@, 0).take(cands@.len() as int)
                    =~= candidates_from(ns[j as int].attrs@, self.base@, 0));
            }
            j = j + 1;
        }
        r
    }
}

/// The parsed `src` of an image, as a list of at most one address.
pub open spec fn image_src_targets(attrs: Seq<Attribute>) -> Seq<Seq<char>> {
    match src_target(attrs) {
        Some(u) => seq![u],
        None => Seq::empty(),
    }
}

/// The addresses to probe for the images among the first `j` nodes under `root`.
pub open spec fn targets_upto(ns: Seq<DomNode>, root: int, base: Seq<char>, j: int) -> Seq<Seq<char>>
    decreases j,
{
    if j <= 0 {
        Seq::empty()
    } else {
        targets_upto(ns, root, base, j - 1) + if probed_image(ns, root, j - 1) {
            image_src_targets(ns[j - 1].attrs@) + candidates_from(ns[j - 1].attrs@, base, 0)
        } else {
            Seq::empty()
        }
    }
}

/// The parsed `src` of an image.
pub open spec fn src_target(attrs: Seq<Attribute>) -> Option<Seq<char>> {
    match attr_of(attrs, "src"@) {
        Some(s) => parsed(s),
        None => None,
    }
}

/// The views of a list of strings.
pub open spec fn views(vs: Seq<String>) -> Seq<Seq<char>> {
    vs.map_values(|v: String| v@)
}

/// Node `j` is an image under `root` with some `data-*` attribute.
pub open spec fn probed_image(ns: Seq<DomNode>, root: int, j: int) -> bool {
    ns[j].kind == NodeKind::Element && ns[j].name@ == "img"@ && has_data(ns[j].attrs@) && within(ns, root, j)
}

/// What a list held, it still holds after more was added to it.
proof fn lemma_views_prefix(a: Seq<String>, b: Seq<String>)
    requires
        a.len() <= b.len(),
        forall|q: int| 0 <= q < a.len() ==> #[trigger] b[q] == a[q],
    ensures
        forall|x: Seq<char>| views(a).contains(x) ==> #[trigger] views(b).contains(x),
{
    assert forall|x: Seq<char>| views(a).contains(x) implies #[trigger] views(b).contains(x) by {
        let w = choose|w: int| 0 <= w < views(a).len() && views(a)[w] == x;
        assert(views(b)[w] == x);
    }
}

} // verus!
