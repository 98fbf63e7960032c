use vstd::prelude::*;
use crate::dom::{copies, arena_wf, attached, attr_of, below, is_tag, text_upto, Dom, DomNode, NodeKind};
use crate::filter::class_name;
use crate::pattern::has_word;
use crate::text::{has_infix, has_prefix};
use crate::filter::{classes_stripped, lemma_class_gone, same_but_attrs, spaceless};
use crate::filter::{do_global_filtering, remove_all, remove_all_class, replace_all};
use crate::html::node_to_html;
use crate::images::{targets_upto, views, ImageResource, ImgDataSrcFilter};
use crate::links::RelativeLinksFilter;
use crate::pattern::{any_tag, attr_has, attr_is, attr_starts, class, lemma_selects_stable, selects, selects_any, stable_pattern, with_tag, AttrTest, Pattern};
use crate::score::{capped, div_score, ranks_before, scored};
use crate::text::{push_str, str_eq, string_of};
use crate::web::{domain_of, url_domain};
use extrablatt::Extractor;

verus! {

/// The title that extrablatt's default extractor finds in a page.
pub uninterp spec fn page_title(html: Seq<char>) -> Option<Seq<char>>;

/// A srcset list with every `resize=<digits>` made `resize=1000`.
pub uninterp spec fn rescaled(srcset: Seq<char>) -> Seq<char>;

/// Relies on extrablatt's `DefaultExtractor::article_node` on the parsed page: the
/// HTML of the node that it takes for the article body.
#[verifier::external_body]
fn generic_article_html(html: &str) -> Option<String> {
    let doc = extrablatt::select::document::Document::from(html);
    extrablatt::DefaultExtractor.article_node(&doc, extrablatt::Language::English).map(|n| n.html())
}

/// Relies on extrablatt's `DefaultExtractor::title` on the parsed page.
#[verifier::external_body]
fn generic_title(html: &str) -> (r: Option<String>)
    ensures
        match r {
            Some(t) => page_title(html@) == Some(t@),
            None => page_title(html@) is None,
        },
{
    let doc = extrablatt::select::document::Document::from(html);
    extrablatt::DefaultExtractor.title(&doc).map(|t| t.to_string())
}

/// Relies on extrablatt's `DefaultExtractor::authors` on the parsed page.
#[verifier::external_body]
fn generic_authors(html: &str) -> Vec<String> {
    let doc = extrablatt::select::document::Document::from(html);
    extrablatt::DefaultExtractor.authors(&doc).iter().map(|a| a.to_string()).collect()
}

/// Relies on regex's `Regex::replace_all` with the pattern `resize=\d+`: every such
/// run becomes `resize=1000`.
#[verifier::external_body]
fn rescale(srcset: &str) -> (r: String)
    ensures
        r@ == rescaled(srcset@),
{
    regex::Regex::new(r"resize=\d+").unwrap().replace_all(srcset, "resize=1000").to_string()
}

/// A publisher with an extraction rule of its own.
#[derive(PartialEq, Eq, Structural, Clone, Copy, Debug)]
pub enum Site {
    CommonDreams,
    TheGuardian,
    TheIntercept,
    Gnu,
    Cnn,
    TheAtlantic,
    Vice,
    DailyKos,
    France24,
}

/// The publisher whose rule serves a site key.
pub open spec fn site_of(key: Seq<char>) -> Option<Site> {
    if key == "commondreams.org"@ {
        Some(Site::CommonDreams)
    } else if key == "theguardian.com"@ {
        Some(Site::TheGuardian)
    } else if key == "theintercept.com"@ {
        Some(Site::TheIntercept)
    } else if key == "gnu.org"@ {
        Some(Site::Gnu)
    } else if key == "cnn.com"@ {
        Some(Site::Cnn)
    } else if key == "theatlantic.com"@ {
        Some(Site::TheAtlantic)
    } else if key == "vice.com"@ {
        Some(Site::Vice)
    } else if key == "dailykos.com"@ {
        Some(Site::DailyKos)
    } else if key == "france24.com"@ {
        Some(Site::France24)
    } else {
        None
    }
}

/// The publisher whose rule serves a site key.
pub fn site_for(key: &str) -> (r: Option<Site>)
    ensures
        r == site_of(key@),
{
    if str_eq(key, "commondreams.org") {
        Some(Site::CommonDreams)
    } else if str_eq(key, "theguardian.com") {
        Some(Site::TheGuardian)
    } else if str_eq(key, "theintercept.com") {
        Some(Site::TheIntercept)
    } else if str_eq(key, "gnu.org") {
        Some(Site::Gnu)
    } else if str_eq(key, "cnn.com") {
        Some(Site::Cnn)
    } else if str_eq(key, "theatlantic.com") {
        Some(Site::TheAtlantic)
    } else if str_eq(key, "vice.com") {
        Some(Site::Vice)
    } else if str_eq(key, "dailykos.com") {
        Some(Site::DailyKos)
    } else if str_eq(key, "france24.com") {
        Some(Site::France24)
    } else {
        None
    }
}

/// The position of the last dot among the first `i` characters, or -1.
pub open spec fn last_dot(s: Seq<char>, i: int) -> int
    decreases i,
{
    if i <= 0 || i > s.len() {
        -1
    } else if s[i - 1] == '.' {
        i - 1
    } else {
        last_dot(s, i - 1)
    }
}

/// The site key of a domain: its last two dot-separated labels, as in
/// `www.example.co.uk` giving `co.uk`. A domain without a dot has none.
pub open spec fn registrable(d: Seq<char>) -> Option<Seq<char>> {
    let a = last_dot(d, d.len() as int);
    if a < 0 {
        None
    } else {
        Some(d.subrange(last_dot(d, a) + 1, d.len() as int))
    }
}

/// An element of the given tag whose `class` list holds the word `w`.
pub open spec fn tag_with_class(n: DomNode, tag: Seq<char>, w: Seq<char>) -> bool {
    is_tag(n, tag) && match attr_of(n.attrs@, class_name()) {
        Some(v) => has_word(v, w),
        None => false,
    }
}

/// The element's `class` list holds the word `w`.
pub open spec fn lists_class(n: DomNode, w: Seq<char>) -> bool {
    match attr_of(n.attrs@, class_name()) {
        Some(v) => has_word(v, w),
        None => false,
    }
}

/// Every node of an arena lies under its root, or is the root.
pub proof fn lemma_all_within(ns: Seq<DomNode>, j: int)
    requires
        arena_wf(ns),
        0 <= j < ns.len(),
    ensures
        crate::dom::within(ns, 0, j),
    decreases j,
{
    if j > 0 {
        lemma_all_within(ns, ns[j].parent as int);
    }
}

/// The element that a publisher rule looks for in the page, where it looks for one:
/// The Intercept's `div.PostContent`, GNU's `div#content`, The Atlantic's
/// `div.l-article__container`, and Daily Kos's `noscript` right inside a `div`
/// whose `class` is `story-column`.
pub open spec fn rule_node(site: Site, ns: Seq<DomNode>, j: int) -> bool {
    0 <= j < ns.len() && match site {
        Site::TheIntercept => tag_with_class(ns[j], "div"@, "PostContent"@),
        Site::Gnu => is_tag(ns[j], "div"@) && attr_of(ns[j].attrs@, "id"@) == Some("content"@),
        Site::TheAtlantic => tag_with_class(ns[j], "div"@, "l-article__container"@),
        Site::DailyKos => j >= 1 && is_tag(ns[j], "noscript"@) && (ns[j].parent as int) < ns.len()
            && is_tag(ns[ns[j].parent as int], "div"@)
            && attr_of(ns[ns[j].parent as int].attrs@, class_name()) == Some("story-column"@),
        _ => false,
    }
}

/// The rule looks for an element of the page rather than take the generic body.
pub open spec fn finds_own_node(site: Site) -> bool {
    site == Site::TheIntercept || site == Site::Gnu || site == Site::TheAtlantic || site == Site::DailyKos
}

/// The first node, from `q` on, that the rule looks for; the length where none is.
pub open spec fn first_rule_node(site: Site, ns: Seq<DomNode>, q: int) -> int
    decreases ns.len() - q,
{
    if q < 0 || q >= ns.len() {
        ns.len() as int
    } else if rule_node(site, ns, q) {
        q
    } else {
        first_rule_node(site, ns, q + 1)
    }
}

/// Some `div` has a density score above zero.
pub open spec fn has_dense_div(ns: Seq<DomNode>) -> bool {
    exists|e: int| #[trigger] scored(ns, e) && capped(div_score(ns, e)) > 0
}

/// The text of the first `h2` under `j`, from node `k` on.
pub open spec fn heading_from(ns: Seq<DomNode>, j: int, k: int) -> Option<Seq<char>>
    decreases ns.len() - k,
{
    if k < 0 || k >= ns.len() {
        None
    } else if is_tag(ns[k], "h2"@) && below(ns, j, k) {
        Some(text_upto(ns, k, ns.len() as int))
    } else {
        heading_from(ns, j, k + 1)
    }
}

/// The title that the publisher rule of `site` gives the page: GNU's is the text of
/// the first `h2` in its content `div`; the other rules give none.
pub open spec fn rule_title(site: Option<Site>, ns: Seq<DomNode>) -> Option<Seq<char>> {
    if site == Some(Site::Gnu) && first_rule_node(Site::Gnu, ns, 0) < ns.len() {
        let j = first_rule_node(Site::Gnu, ns, 0);
        heading_from(ns, j, j + 1)
    } else {
        None
    }
}

/// The rule of `site` is sure to find an article body in the page: its own element
/// is there, or, for a rule that starts from the generic body, some `div` scores above zero.
pub open spec fn rule_succeeds(site: Site, ns: Seq<DomNode>) -> bool {
    if finds_own_node(site) {
        first_rule_node(site, ns, 0) < ns.len()
    } else {
        has_dense_div(ns)
    }
}

proof fn lemma_first_rule_node(site: Site, ns: Seq<DomNode>, f: int, q: int)
    requires
        0 <= q <= f <= ns.len(),
        f < ns.len() ==> rule_node(site, ns, f),
        forall|x: int| q <= x < f ==> !rule_node(site, ns, x),
    ensures
        first_rule_node(site, ns, q) == f,
    decreases f - q,
{
    if q < f {
        lemma_first_rule_node(site, ns, f, q + 1);
    }
}

/// The attribute's value begins with `v`.
pub open spec fn attr_begins(n: DomNode, a: Seq<char>, v: Seq<char>) -> bool {
    match attr_of(n.attrs@, a) {
        Some(x) => has_prefix(x, v),
        None => false,
    }
}

/// The attribute's value holds `v`.
pub open spec fn attr_holds(n: DomNode, a: Seq<char>, v: Seq<char>) -> bool {
    match attr_of(n.attrs@, a) {
        Some(x) => has_infix(x, v),
        None => false,
    }
}

/// What a publisher rule cuts out of its article body: Common Dreams' inserted
/// blocks and newswire footer; The Guardian's sub-meta, share blocks, embedded
/// links, guides, videos and credit, footer and plus widgets; The Intercept's
/// newsletter and related-post promotions; CNN's embeds and story footer; France
/// 24's self-promotion. The other rules cut nothing.
pub open spec fn cut_by(site: Site, n: DomNode) -> bool {
    match site {
        Site::CommonDreams => tag_with_class(n, "div"@, "block-inject"@) || tag_with_class(n, "div"@, "newswire-end"@),
        Site::TheGuardian => tag_with_class(n, "div"@, "submeta"@) || tag_with_class(n, "div"@, "block-share"@)
            || (is_tag(n, "div"@) && attr_begins(n, "id"@, "rich-link-"@))
            || (is_tag(n, "div"@) && attr_of(n.attrs@, "data-component"@) == Some("rich-link"@))
            || (is_tag(n, "div"@) && attr_begins(n, "id"@, "guide-"@))
            || (is_tag(n, "div"@) && attr_begins(n, class_name(), "youtube-"@))
            || (n.kind == NodeKind::Element && (attr_holds(n, class_name(), "creditStyling"@)
                || attr_holds(n, class_name(), "footerStyling"@) || attr_holds(n, class_name(), "plusStyling"@))),
        Site::TheIntercept => tag_with_class(n, "div"@, "NewsletterEmbed-container"@)
            || tag_with_class(n, "div"@, "PromoteRelatedPost-promo"@),
        Site::Cnn => tag_with_class(n, "div"@, "el__article--embed"@)
            || (is_tag(n, "section"@) && attr_of(n.attrs@, "id"@) == Some("story-bottom"@)),
        Site::France24 => n.kind == NodeKind::Element && attr_holds(n, class_name(), "o-self-promo"@),
        _ => false,
    }
}

impl Site {
    /// The patterns that the publisher's rule cuts out of its article body.
    pub fn cuts(self) -> (r: Vec<Pattern>)
        ensures
            forall|n: DomNode| selects_any(r@, n) == #[trigger] cut_by(self, n),
            forall|k: int| 0 <= k < r@.len() ==> stable_pattern(#[trigger] r@[k]),
    {
        let mut r: Vec<Pattern> = Vec::new();
        proof {
            reveal_strlit("class");
            reveal_strlit("id");
            reveal_strlit("data-component");
            reveal_strlit("style");
            reveal_strlit("src");
            reveal_strlit("href");
            assert("class"@ =~= class_name());
            assert("class"@[1] != "style"@[1]);
            assert("id"@.len() != "style"@.len() && "id"@.len() != "src"@.len() && "id"@ != "href"@);
            assert("data-component"@.len() != "style"@.len());
        }
        match self {
            Site::CommonDreams => {
                r.push(with_tag("div", class("block-inject")));
                r.push(with_tag("div", class("newswire-end")));
                proof {
                    assert forall|n: DomNode| selects_any(r@, n) == #[trigger] cut_by(self, n) by {
                        if tag_with_class(n, "div"@, "block-inject"@) { assert(selects(r@[0], n)); }
                        if tag_with_class(n, "div"@, "newswire-end"@) { assert(selects(r@[1], n)); }
                        if selects_any(r@, n) {
                            let k = choose|k: int| 0 <= k < r@.len() && selects(#[trigger] r@[k], n);
                            assert(k == 0 || k == 1);
                        }
                    }
                }
            },
            Site::TheGuardian => {
                r.push(with_tag("div", class("submeta")));
                r.push(with_tag("div", class("block-share")));
                r.push(with_tag("div", attr_starts("id", "rich-link-")));
                r.push(with_tag("div", attr_is("data-component", "rich-link")));
                r.push(with_tag("div", attr_starts("id", "guide-")));
                r.push(with_tag("div", attr_starts("class", "youtube-")));
                r.push(any_tag(attr_has("class", "creditStyling")));
                r.push(any_tag(attr_has("class", "footerStyling")));
                r.push(any_tag(attr_has("class", "plusStyling")));
                proof {
                    reveal_strlit("rich-link-");
                    reveal_strlit("guide-");
                    reveal_strlit("youtube-");
                    reveal_strlit("creditStyling");
                    reveal_strlit("footerStyling");
                    reveal_strlit("plusStyling");
                    assert forall|n: DomNode| selects_any(r@, n) == #[trigger] cut_by(self, n) by {
                        if tag_with_class(n, "div"@, "submeta"@) { assert(selects(r@[0], n)); }
                        if tag_with_class(n, "div"@, "block-share"@) { assert(selects(r@[1], n)); }
                        if is_tag(n, "div"@) && attr_begins(n, "id"@, "rich-link-"@) { assert(selects(r@[2], n)); }
                        if is_tag(n, "div"@) && attr_of(n.attrs@, "data-component"@) == Some("rich-link"@) { assert(selects(r@[3], n)); }
                        if is_tag(n, "div"@) && attr_begins(n, "id"@, "guide-"@) { assert(selects(r@[4], n)); }
                        if is_tag(n, "div"@) && attr_begins(n, class_name(), "youtube-"@) { assert(selects(r@[5], n)); }
                        if n.kind == NodeKind::Element && attr_holds(n, class_name(), "creditStyling"@) { assert(selects(r@[6], n)); }
                        if n.kind == NodeKind::Element && attr_holds(n, class_name(), "footerStyling"@) { assert(selects(r@[7], n)); }
                        if n.kind == NodeKind::Element && attr_holds(n, class_name(), "plusStyling"@) { assert(selects(r@[8], n)); }
                        if selects_any(r@, n) {
                            let k = choose|k: int| 0 <= k < r@.len() && selects(#[trigger] r@[k], n);
                            assert(0 <= k < 9);
                        }
                    }
                }
            },
            Site::TheIntercept => {
                r.push(with_tag("div", class("NewsletterEmbed-container")));
                r.push(with_tag("div", class("PromoteRelatedPost-promo")));
                proof {
                    assert forall|n: DomNode| selects_any(r@, n) == #[trigger] cut_by(self, n) by {
                        if tag_with_class(n, "div"@, "NewsletterEmbed-container"@) { assert(selects(r@[0], n)); }
                        if tag_with_class(n, "div"@, "PromoteRelatedPost-promo"@) { assert(selects(r@[1], n)); }
                        if selects_any(r@, n) {
                            let k = choose|k: int| 0 <= k < r@.len() && selects(#[trigger] r@[k], n);
                            assert(k == 0 || k == 1);
                        }
                    }
                }
            },
            Site::Cnn => {
                r.push(with_tag("div", class("el__article--embed")));
                r.push(with_tag("section", attr_is("id", "story-bottom")));
                proof {
                    assert forall|n: DomNode| selects_any(r@, n) == #[trigger] cut_by(self, n) by {
                        if tag_with_class(n, "div"@, "el__article--embed"@) { assert(selects(r@[0], n)); }
                        if is_tag(n, "section"@) && attr_of(n.attrs@, "id"@) == Some("story-bottom"@) { assert(selects(r@[1], n)); }
                        if selects_any(r@, n) {
                            let k = choose|k: int| 0 <= k < r@.len() && selects(#[trigger] r@[k], n);
                            assert(k == 0 || k == 1);
                        }
                    }
                }
            },
            Site::France24 => {
                r.push(any_tag(attr_has("class", "o-self-promo")));
                proof {
                    reveal_strlit("o-self-promo");
                    assert forall|n: DomNode| selects_any(r@, n) == #[trigger] cut_by(self, n) by {
                        if n.kind == NodeKind::Element && attr_holds(n, class_name(), "o-self-promo"@) { assert(selects(r@[0], n)); }
                        if selects_any(r@, n) {
                            let k = choose|k: int| 0 <= k < r@.len() && selects(#[trigger] r@[k], n);
                            assert(k == 0);
                        }
                    }
                }
            },
            _ => {
                assert forall|n: DomNode| selects_any(r@, n) == #[trigger] cut_by(self, n) by {}
            },
        }
        r
    }
}

/// `d` is the `div` that density scoring picks: a positive score, ranked first.
pub open spec fn top_div(ns: Seq<DomNode>, d: int) -> bool {
    &&& 0 <= d < ns.len()
    &&& scored(ns, d)
    &&& capped(div_score(ns, d)) > 0
    &&& forall|e: int| #[trigger] scored(ns, e) && e != d ==> ranks_before(
        ns,
        (d as usize, capped(div_score(ns, d))),
        (e as usize, capped(div_score(ns, e))),
    )
}

/// `base` is the default article body of the page: the generic extractor's body
/// where it found one, else a copy of the `div` that density scoring picks.
pub open spec fn default_body(ns: Seq<DomNode>, generic: Option<Dom>, base: Seq<DomNode>) -> bool {
    match generic {
        Some(g) => base == g.nodes@,
        None => exists|d: int, m: Seq<int>| top_div(ns, d) && copies(ns, d, base, m),
    }
}

/// `d` is `base` with what the rule of `site` cuts taken out (see `cut_by`).
pub open spec fn site_cut(base: Seq<DomNode>, d: Seq<DomNode>, site: Site) -> bool {
    &&& d.len() == base.len()
    &&& forall|j: int| 0 <= j < base.len() ==> crate::filter::same_but_flag(#[trigger] d[j], base[j])
        && d[j].detached == (base[j].detached || (below(base, 0, j) && attached(base, 0, j) && cut_by(site, base[j])))
}

/// `b` is `a` with the `resize=` values of its picture sources set to 1000 (see
/// `fix_picture_source_scaling`).
pub open spec fn pictures_rescaled(a: Seq<DomNode>, b: Seq<DomNode>) -> bool {
    &&& b.len() == a.len()
    &&& forall|j: int| 0 <= j < a.len() ==> same_but_attrs(#[trigger] b[j], a[j])
    &&& forall|j: int, x: Seq<char>| 0 <= j < a.len() ==> #[trigger] attr_of(b[j].attrs@, x) == if x == "srcset"@
        && picture_source(a, j) && attr_of(a[j].attrs@, x) is Some {
        Some(rescaled(attr_of(a[j].attrs@, x)->Some_0))
    } else {
        attr_of(a[j].attrs@, x)
    }
}

/// `b` is `a` with CNN's paragraph `div`s made plain paragraphs.
pub open spec fn cnn_paragraphs(a: Seq<DomNode>, b: Seq<DomNode>) -> bool {
    exists|ps: Seq<Pattern>| (forall|n: DomNode| #[trigger] selects_any(ps, n) == tag_with_class(n, "div"@, "zn-body__paragraph"@))
        && crate::filter::replaced(a, b, 0, ps, "p"@)
}

/// `d` is the article body that the rule of `site` makes from the page, given the
/// generic extractor's body.
pub open spec fn rule_body(site: Site, ns: Seq<DomNode>, generic: Option<Dom>, d: Seq<DomNode>) -> bool {
    match site {
        Site::CommonDreams => exists|base: Seq<DomNode>| default_body(ns, generic, base) && site_cut(base, d, site),
        Site::France24 => exists|base: Seq<DomNode>| default_body(ns, generic, base) && site_cut(base, d, site),
        Site::TheGuardian => exists|base: Seq<DomNode>, mid: Seq<DomNode>, keep: Seq<&str>|
            default_body(ns, generic, base) && keep.len() == 1 && keep[0]@ == "fig--has-shares"@
                && classes_stripped(base, mid, 0, keep) && site_cut(mid, d, site),
        Site::Cnn => exists|base: Seq<DomNode>, mid: Seq<DomNode>|
            default_body(ns, generic, base) && site_cut(base, mid, site) && cnn_paragraphs(mid, d),
        Site::Vice => exists|base: Seq<DomNode>| default_body(ns, generic, base) && pictures_rescaled(base, d),
        Site::TheIntercept => exists|c: Seq<DomNode>, m: Seq<int>|
            copies(ns, first_rule_node(site, ns, 0), c, m) && site_cut(c, d, site),
        Site::Gnu => exists|m: Seq<int>| copies(ns, first_rule_node(site, ns, 0), d, m),
        Site::TheAtlantic => exists|m: Seq<int>| copies(ns, first_rule_node(site, ns, 0), d, m),
        Site::DailyKos => true,
    }
}

/// The rule of `site` finds an article body: its own element is in the page, or, for
/// a rule that starts from the default body, there is one.
pub open spec fn rule_gives(site: Site, ns: Seq<DomNode>, generic: Option<Dom>) -> bool {
    if finds_own_node(site) {
        first_rule_node(site, ns, 0) < ns.len()
    } else {
        generic is Some || has_dense_div(ns)
    }
}

/// The site has a rule, and it finds an article body.
pub open spec fn site_gives(site: Option<Site>, ns: Seq<DomNode>, generic: Option<Dom>) -> bool {
    match site {
        Some(st) => rule_gives(st, ns, generic),
        None => false,
    }
}

/// The site's rule starts from the default body.
pub open spec fn takes_default(site: Option<Site>) -> bool {
    match site {
        Some(st) => !finds_own_node(st),
        None => false,
    }
}

/// `d` is the located article body: the rule's where it finds one, else the default body.
pub open spec fn located_body(site: Option<Site>, ns: Seq<DomNode>, generic: Option<Dom>, d: Seq<DomNode>) -> bool {
    if site_gives(site, ns, generic) {
        rule_body(site->Some_0, ns, generic, d)
    } else {
        default_body(ns, generic, d)
    }
}

/// The position of the last dot among the first `i` characters.
fn find_last_dot(s: &str, i: usize) -> (r: Option<usize>)
    requires
        i <= s@.len(),
    ensures
        match r {
            Some(k) => last_dot(s@, i as int) == k as int && k < i,
            None => last_dot(s@, i as int) == -1,
        },
{
    let mut k: usize = i;
    while k > 0
        invariant
            k <= i <= s@.len(),
            last_dot(s@, i as int) == last_dot(s@, k as int),
        decreases k,
    {
        if s.get_char(k - 1) == '.' {
            return Some(k - 1);
        }
        k = k - 1;
    }
    None
}

/// The site key of a URL: the last two labels of its domain.
pub fn site_domain(url: &str) -> (r: Option<String>)
    ensures
        match domain_of(url@) {
            Some(d) => match r {
                Some(k) => registrable(d) == Some(k@),
                None => registrable(d) is None,
            },
            None => r is None,
        },
{
    let d = match url_domain(url) {
        Some(d) => d,
        None => return None,
    };
    let n = d.unicode_len();
    match find_last_dot(d.as_str(), n) {
        None => None,
        Some(a) => {
            let start = match find_last_dot(d.as_str(), a) {
                Some(b) => b + 1,
                None => 0,
            };
            Some(d.as_str().substring_char(start, n).to_owned())
        },
    }
}

/// A possibly partial extraction: each part may be missing, and a missing part is
/// later filled in by the generic extractor.
#[derive(Debug)]
pub struct ExtractionParts {
    pub title: Option<String>,
    pub authors: Vec<String>,
    pub publishing_date: Option<String>,
    /// The article body, as a document of its own whose root is node 0.
    pub article_node: Option<Dom>,
    /// The publisher rule that produced the parts.
    pub rule: Option<Site>,
    /// What the rule cut out of the article body.
    pub removed: Vec<Pattern>,
    /// Diagnostics: what could not be found, and that a fallback was taken.
    pub warnings: Vec<String>,
}

/// No node that can still be reached under the root of `d` is selected by `ps`.
pub open spec fn clear_of(d: Dom, ps: Seq<Pattern>) -> bool {
    forall|j: int|
        0 <= j < d.nodes@.len() && below(d.nodes@, 0, j) && attached(d.nodes@, 0, j)
            ==> !selects_any(ps, #[trigger] d.nodes@[j])
}

impl ExtractionParts {
    /// The parts are well formed, and the body is clear of what the rule cut out.
    pub open spec fn wf(&self) -> bool {
        &&& self.article_node matches Some(d) ==> d.wf() && clear_of(d, self.removed@)
        &&& forall|k: int| 0 <= k < self.removed@.len() ==> stable_pattern(#[trigger] self.removed@[k])
    }

    /// No part at all.
    pub fn empty() -> (r: Self)
        ensures
            r.wf(),
            r.title is None,
            r.authors@.len() == 0,
            r.publishing_date is None,
            r.article_node is None,
            r.rule is None,
            r.removed@.len() == 0,
    {
        ExtractionParts {
            title: None,
            authors: Vec::new(),
            publishing_date: None,
            article_node: None,
            rule: None,
            removed: Vec::new(),
            warnings: Vec::new(),
        }
    }

    /// Only an article body, found by `rule`, from which the `removed` patterns were cut.
    pub fn with_article(article: Dom, rule: Site, removed: Vec<Pattern>, warnings: Vec<String>) -> (r: Self)
        requires
            article.wf(),
            clear_of(article, removed@),
            forall|k: int| 0 <= k < removed@.len() ==> stable_pattern(#[trigger] removed@[k]),
        ensures
            r.wf(),
            r.title is None,
            r.authors@.len() == 0,
            r.publishing_date is None,
            r.article_node == Some(article),
            r.rule == Some(rule),
            r.removed@ == removed@,
    {
        ExtractionParts {
            title: None,
            authors: Vec::new(),
            publishing_date: None,
            article_node: Some(article),
            rule: Some(rule),
            removed,
            warnings,
        }
    }
}

/// A finished article.
#[derive(Debug)]
pub struct Article {
    pub url: String,
    pub title: String,
    pub authors: Vec<String>,
    pub publishing_date: Option<String>,
    pub html: String,
    /// The cleaned document whose root is the article body; `html` is its markup.
    pub body: Dom,
    /// Diagnostics gathered on the way, when they were asked for.
    pub warnings: Vec<String>,
}

/// Why no article came out of a page.
#[derive(PartialEq, Eq, Structural, Clone, Copy, Debug)]
pub enum ExtractError {
    /// Neither a publisher rule, nor the generic extractor, nor density scoring
    /// located the article body.
    ContentNotFound,
}

/// Extracts the article of one fetched page.
#[derive(Debug)]
pub struct ArticleExtractor {
    pub url: String,
    pub html: String,
    pub doc: Dom,
    pub print_warnings: bool,
}

/// The site key under which the publisher rules are looked up.
pub open spec fn key_of(url: Seq<char>) -> Seq<char> {
    match domain_of(url) {
        Some(d) => match registrable(d) {
            Some(k) => k,
            None => Seq::empty(),
        },
        None => Seq::empty(),
    }
}

/// Makes a removal list from patterns.
fn removal_list(a: Pattern, b: Option<Pattern>) -> (r: Vec<Pattern>)
    ensures
        r@.len() == if b is Some { 2int } else { 1int },
        r@[0] == a,
        b matches Some(p) ==> r@[1] == p,
{
    let mut r: Vec<Pattern> = Vec::new();
    r.push(a);
    match b {
        Some(p) => r.push(p),
        None => {},
    }
    r
}

impl ArticleExtractor {
    /// The extractor of the page `html` fetched from `url`.
    pub fn new(url: &str, html: &str, print_warnings: bool) -> (r: Self)
        ensures
            r.wf(),
            r.url@ == url@,
            r.html@ == html@,
            r.print_warnings == print_warnings,
    {
        ArticleExtractor { url: url.to_owned(), html: html.to_owned(), doc: Dom::parse(html), print_warnings }
    }

    pub open spec fn wf(&self) -> bool {
        self.doc.wf()
    }

    /// The `div` that density scoring picks: the first of the ranking, where its
    /// score is above zero.
    pub fn density_node(&self) -> (r: Option<usize>)
        requires
            self.wf(),
        ensures
            match r {
                Some(d) => d < self.doc.nodes@.len() && scored(self.doc.nodes@, d as int)
                    && capped(div_score(self.doc.nodes@, d as int)) > 0
                    && forall|e: int| #[trigger] scored(self.doc.nodes@, e) && e != d ==> ranks_before(
                        self.doc.nodes@,
                        (d, capped(div_score(self.doc.nodes@, d as int))),
                        (e as usize, capped(div_score(self.doc.nodes@, e))),
                    ),
                None => forall|e: int| #[trigger] scored(self.doc.nodes@, e) ==> capped(div_score(self.doc.nodes@, e)) == 0,
            },
            (forall|e: int| !scored(self.doc.nodes@, e)) ==> r is None,
    {
        let s = self.doc.score_divs();
        let ghost ns = self.doc.nodes@;
        if s.len() > 0 && s[0].1 > 0 {
            proof {
                assert forall|e: int| #[trigger] scored(ns, e) && e != s@[0].0 implies ranks_before(
                    ns,
                    (s@[0].0, capped(div_score(ns, s@[0].0 as int))),
                    (e as usize, capped(div_score(ns, e))),
                ) by {
                    let k = choose|k: int| 0 <= k < s@.len() && s@[k].0 == e;
                    assert(ranks_before(ns, s@[0], s@[k]));
                    assert(s@[k] == (e as usize, capped(div_score(ns, e))));
                }
            }
            Some(s[0].0)
        } else {
            proof {
                assert forall|e: int| #[trigger] scored(ns, e) implies capped(div_score(ns, e)) == 0 by {
                    let k = choose|k: int| 0 <= k < s@.len() && s@[k].0 == e;
                    if k > 0 {
                        assert(ranks_before(ns, s@[0], s@[k]));
                    }
                }
            }
            None
        }
    }

    /// The body that the generic extractor finds in the page, parsed.
    pub fn generic_body(&self) -> (r: Option<Dom>)
        ensures
            r matches Some(d) ==> d.wf(),
    {
        match generic_article_html(self.html.as_str()) {
            Some(h) => Some(Dom::parse(h.as_str())),
            None => None,
        }
    }

    /// The authors that the generic extractor finds in the page, in its own order.
    pub fn generic_authors(&self) -> Vec<String> {
        generic_authors(self.html.as_str())
    }

    /// The default article body, given the generic extractor's: that body where
    /// there is one, else a copy of the `div` that density scoring picks.
    pub fn default_article_node_from(&self, generic: Option<Dom>) -> (r: Option<Dom>)
        requires
            self.wf(),
            generic matches Some(g) ==> g.wf(),
        ensures
            r is Some <==> (generic is Some || has_dense_div(self.doc.nodes@)),
            r matches Some(d) ==> d.wf() && default_body(self.doc.nodes@, generic, d.nodes@),
    {
        match generic {
            Some(g) => Some(g),
            None => match self.density_node() {
                Some(d) => {
                    let b = self.doc.subtree(d);
                    assert(top_div(self.doc.nodes@, d as int));
                    Some(b)
                },
                None => None,
            },
        }
    }

    /// The article body by the generic extractor, or else by density scoring.
    pub fn default_article_node(&self) -> (r: Option<Dom>)
        requires
            self.wf(),
        ensures
            r matches Some(d) ==> d.wf(),
            has_dense_div(self.doc.nodes@) ==> r is Some,
    {
        let g = self.generic_body();
        self.default_article_node_from(g)
    }

    /// Notes that a part could not be found, where diagnostics are asked for.
    pub fn warn(&self, warnings: &mut Vec<String>, msg: &str)
        ensures
            self.print_warnings ==> final(warnings)@.len() == old(warnings)@.len() + 1
                && final(warnings)@.drop_last() == old(warnings)@
                && final(warnings)@.last()@ == "WARNING: ("@ + self.url@ + ") "@ + msg@
                    + " - falling back on default extractor"@,
            !self.print_warnings ==> final(warnings)@ == old(warnings)@,
    {
        if self.print_warnings {
            let mut w: Vec<char> = Vec::new();
            push_str(&mut w, "WARNING: (");
            push_str(&mut w, self.url.as_str());
            push_str(&mut w, ") ");
            push_str(&mut w, msg);
            push_str(&mut w, " - falling back on default extractor");
            warnings.push(string_of(&w));
            assert(warnings@.drop_last() =~= old(warnings)@);
        }
    }

    /// Cuts the patterns out of an article body, which is then clear of them.
    fn cut(article: &mut Dom, removed: &Vec<Pattern>)
        requires
            old(article).wf(),
        ensures
            final(article).wf(),
            clear_of(*final(article), removed@),
            final(article).nodes@.len() == old(article).nodes@.len(),
            forall|j: int| 0 <= j < old(article).nodes@.len()
                ==> crate::filter::same_but_flag(#[trigger] final(article).nodes@[j], old(article).nodes@[j]),
            crate::filter::cut_result(old(article).nodes@, final(article).nodes@, 0, removed@),
    {
        remove_all(article, 0, removed);
    }

    /// Common Dreams: the default body, without inserted blocks and the newswire footer.
    pub fn commondreams_article(&self, generic: Option<Dom>) -> (r: Option<ExtractionParts>)
        requires
            self.wf(),
            generic matches Some(g) ==> g.wf(),
        ensures
            r matches Some(p) ==> p.wf() && p.rule == Some(Site::CommonDreams) && p.authors@.len() == 0
                && p.publishing_date is None && p.article_node is Some && p.title is None,
            r is Some <==> rule_gives(Site::CommonDreams, self.doc.nodes@, generic),
            r matches Some(p) ==> (p.article_node matches Some(d) ==> rule_body(Site::CommonDreams, self.doc.nodes@, generic, d.nodes@)),
            r matches Some(p) ==> forall|n: DomNode| selects_any(p.removed@, n) == #[trigger] cut_by(Site::CommonDreams, n),
    {
        let mut article = self.default_article_node_from(generic)?;
        let ghost base = article.nodes@;
        let removed = Site::CommonDreams.cuts();
        Self::cut(&mut article, &removed);
        proof {
            assert(site_cut(base, article.nodes@, Site::CommonDreams)) by {
                assert forall|j: int| 0 <= j < base.len() implies crate::filter::same_but_flag(#[trigger] article.nodes@[j], base[j])
                    && article.nodes@[j].detached == (base[j].detached || (below(base, 0, j) && attached(base, 0, j) && cut_by(Site::CommonDreams, base[j]))) by {
                    assert(selects_any(removed@, base[j]) == cut_by(Site::CommonDreams, base[j]));
                }
            }
        }
        Some(ExtractionParts::with_article(article, Site::CommonDreams, removed, Vec::new()))
    }

    /// The Guardian: the default body, without sub-meta, share blocks, embedded links,
    /// guides, videos and credit, footer and plus widgets; no class list keeps
    /// `fig--has-shares`.
    pub fn theguardian_article(&self, generic: Option<Dom>) -> (r: Option<ExtractionParts>)
        requires
            self.wf(),
            generic matches Some(g) ==> g.wf(),
        ensures
            r matches Some(p) ==> p.wf() && p.rule == Some(Site::TheGuardian) && p.authors@.len() == 0
                && p.publishing_date is None && p.article_node is Some && p.title is None,
            r is Some <==> rule_gives(Site::TheGuardian, self.doc.nodes@, generic),
            r matches Some(p) ==> (p.article_node matches Some(d) ==> rule_body(Site::TheGuardian, self.doc.nodes@, generic, d.nodes@)),
            r matches Some(p) ==> forall|n: DomNode| selects_any(p.removed@, n) == #[trigger] cut_by(Site::TheGuardian, n),
            r matches Some(p) ==> (p.article_node matches Some(d) ==> forall|j: int|
                0 <= j < d.nodes@.len() && d.nodes@[j].kind == NodeKind::Element
                    ==> !lists_class(#[trigger] d.nodes@[j], "fig--has-shares"@)),
    {
        let mut article = self.default_article_node_from(generic)?;
        // Keeps the element itself from being cut out later as a share widget.
        let keep: [&str; 1] = ["fig--has-shares"];
        let ghost before = article.nodes@;
        remove_all_class(&mut article, 0, &keep);
        proof {
            reveal_strlit("fig--has-shares");
            reveal_strlit("class");
            assert("class"@ =~= class_name());
            let fig = keep@[0]@;
            assert(fig == "fig--has-shares"@);
            assert(spaceless(fig));
            let mid = article.nodes@;
            assert forall|j: int| 0 <= j < mid.len() && mid[j].kind == NodeKind::Element
                implies !lists_class(#[trigger] mid[j], "fig--has-shares"@) by {
                lemma_all_within(before, j);
                assert(same_but_attrs(mid[j], before[j]));
                if attr_of(before[j].attrs@, class_name()) is Some {
                    lemma_class_gone(attr_of(before[j].attrs@, class_name())->Some_0, keep@, 0);
                }
            }
        }
        let ghost mid = article.nodes@;
        let cuts = Site::TheGuardian.cuts();
        Self::cut(&mut article, &cuts);
        proof {
            assert forall|j: int| 0 <= j < article.nodes@.len() && article.nodes@[j].kind == NodeKind::Element
                implies !lists_class(#[trigger] article.nodes@[j], "fig--has-shares"@) by {
                assert(crate::filter::same_but_flag(article.nodes@[j], mid[j]));
            }
            assert(site_cut(mid, article.nodes@, Site::TheGuardian)) by {
                assert forall|j: int| 0 <= j < mid.len() implies crate::filter::same_but_flag(#[trigger] article.nodes@[j], mid[j])
                    && article.nodes@[j].detached == (mid[j].detached || (below(mid, 0, j) && attached(mid, 0, j) && cut_by(Site::TheGuardian, mid[j]))) by {
                    assert(selects_any(cuts@, mid[j]) == cut_by(Site::TheGuardian, mid[j]));
                }
            }
            assert(rule_body(Site::TheGuardian, self.doc.nodes@, generic, article.nodes@));
        }
        Some(ExtractionParts::with_article(article, Site::TheGuardian, cuts, Vec::new()))
    }

    /// The Intercept: the post content, without newsletter and related-post promotions.
    pub fn theintercept_article(&self) -> (r: Option<ExtractionParts>)
        requires
            self.wf(),
        ensures
            r matches Some(p) ==> p.wf() && p.rule == Some(Site::TheIntercept) && p.authors@.len() == 0
                && p.publishing_date is None && p.article_node is Some && p.title is None,
            r is Some <==> first_rule_node(Site::TheIntercept, self.doc.nodes@, 0) < self.doc.nodes@.len(),
            r matches Some(p) ==> (p.article_node matches Some(d) ==> exists|c: Seq<DomNode>, m: Seq<int>|
                copies(self.doc.nodes@, first_rule_node(Site::TheIntercept, self.doc.nodes@, 0), c, m)
                && c.len() == d.nodes@.len()
                && forall|j: int| 0 <= j < c.len() ==> crate::filter::same_but_flag(#[trigger] d.nodes@[j], c[j])),
            r is Some <==> rule_gives(Site::TheIntercept, self.doc.nodes@, None),
            r matches Some(p) ==> (p.article_node matches Some(d) ==> rule_body(Site::TheIntercept, self.doc.nodes@, None, d.nodes@)),
            r matches Some(p) ==> forall|n: DomNode| selects_any(p.removed@, n) == #[trigger] cut_by(Site::TheIntercept, n),
    {
        let mut warnings: Vec<String> = Vec::new();
        let pat = with_tag("div", class("PostContent"));
        let found = self.doc.find_first(&pat);
        proof {
            self.lemma_found(pat, Site::TheIntercept, found);
        }
        let j = match found {
            Some(j) => j,
            None => {
                self.warn(&mut warnings, "could not extract article node");
                return None;
            },
        };
        let mut article = self.doc.subtree(j);
        let ghost base = article.nodes@;
        let removed = Site::TheIntercept.cuts();
        Self::cut(&mut article, &removed);
        proof {
            assert(site_cut(base, article.nodes@, Site::TheIntercept)) by {
                assert forall|q: int| 0 <= q < base.len() implies crate::filter::same_but_flag(#[trigger] article.nodes@[q], base[q])
                    && article.nodes@[q].detached == (base[q].detached || (below(base, 0, q) && attached(base, 0, q) && cut_by(Site::TheIntercept, base[q]))) by {
                    assert(selects_any(removed@, base[q]) == cut_by(Site::TheIntercept, base[q]));
                }
            }
        }
        Some(ExtractionParts::with_article(article, Site::TheIntercept, removed, warnings))
    }

    /// What `find_first` of a pattern that selects exactly the rule's element found
    /// is the rule's first element.
    proof fn lemma_found(&self, pat: Pattern, site: Site, found: Option<usize>)
        requires
            forall|q: int| 0 <= q < self.doc.nodes@.len() ==> selects(pat, #[trigger] self.doc.nodes@[q])
                == rule_node(site, self.doc.nodes@, q),
            match found {
                Some(j) => j < self.doc.nodes@.len() && selects(pat, self.doc.nodes@[j as int])
                    && forall|q: int| 0 <= q < j ==> !selects(pat, #[trigger] self.doc.nodes@[q]),
                None => forall|q: int| 0 <= q < self.doc.nodes@.len() ==> !selects(pat, #[trigger] self.doc.nodes@[q]),
            },
        ensures
            match found {
                Some(j) => first_rule_node(site, self.doc.nodes@, 0) == j,
                None => first_rule_node(site, self.doc.nodes@, 0) == self.doc.nodes@.len(),
            },
    {
        let ns = self.doc.nodes@;
        match found {
            Some(j) => {
                assert forall|x: int| 0 <= x < j implies !rule_node(site, ns, x) by {
                    assert(!selects(pat, ns[x]));
                }
                lemma_first_rule_node(site, ns, j as int, 0);
            },
            None => {
                assert forall|x: int| 0 <= x < ns.len() implies !rule_node(site, ns, x) by {
                    assert(!selects(pat, ns[x]));
                }
                lemma_first_rule_node(site, ns, ns.len() as int, 0);
            },
        }
    }

    /// GNU: the content `div`, titled by its first `h2`.
    pub fn gnu_article(&self) -> (r: Option<ExtractionParts>)
        requires
            self.wf(),
        ensures
            r matches Some(p) ==> p.wf() && p.rule == Some(Site::Gnu) && p.authors@.len() == 0
                && p.publishing_date is None && p.article_node is Some,
            r is Some <==> first_rule_node(Site::Gnu, self.doc.nodes@, 0) < self.doc.nodes@.len(),
            r matches Some(p) ==> crate::feed::opt_view(p.title) == rule_title(Some(Site::Gnu), self.doc.nodes@),
            r matches Some(p) ==> (p.article_node matches Some(d) ==> exists|m: Seq<int>|
                copies(self.doc.nodes@, first_rule_node(Site::Gnu, self.doc.nodes@, 0), d.nodes@, m)),
            r is Some <==> rule_gives(Site::Gnu, self.doc.nodes@, None),
            r matches Some(p) ==> (p.article_node matches Some(d) ==> rule_body(Site::Gnu, self.doc.nodes@, None, d.nodes@)),
            r matches Some(p) ==> forall|n: DomNode| selects_any(p.removed@, n) == #[trigger] cut_by(Site::Gnu, n),
    {
        let ghost ns = self.doc.nodes@;
        let mut warnings: Vec<String> = Vec::new();
        let pat = with_tag("div", attr_is("id", "content"));
        let found = self.doc.find_first(&pat);
        proof {
            self.lemma_found(pat, Site::Gnu, found);
        }
        let j = match found {
            Some(j) => j,
            None => {
                self.warn(&mut warnings, "could not extract article node");
                return None;
            },
        };
        let mut title: Option<String> = None;
        let n = self.doc.nodes.len();
        let mut k: usize = j + 1;
        while k < n
            invariant
                self.wf(),
                ns == self.doc.nodes@,
                n == ns.len(),
                j < n,
                j + 1 <= k <= n,
                title is None ==> heading_from(ns, j as int, j + 1) == heading_from(ns, j as int, k as int),
                title matches Some(t) ==> heading_from(ns, j as int, j + 1) == Some(t@),
                title is Some ==> k == n,
            decreases n - k,
        {
            if self.doc.nodes[k].kind == NodeKind::Element && str_eq(self.doc.nodes[k].name.as_str(), "h2")
                && self.doc.is_below(j, k) {
                let t = self.doc.text_under(k);
                proof {
                    assert(heading_from(ns, j as int, k as int) == Some(t@));
                }
                title = Some(t);
                k = n;
            } else {
                proof {
                    assert(heading_from(ns, j as int, k as int) == heading_from(ns, j as int, k + 1));
                }
                k = k + 1;
            }
        }
        if title.is_none() {
            self.warn(&mut warnings, "could not extract title");
        }
        let article = self.doc.subtree(j);
        let mut parts = ExtractionParts::with_article(article, Site::Gnu, Vec::new(), warnings);
        parts.title = title;
        Some(parts)
    }

    /// CNN: the default body, without embeds and the story footer; its paragraph
    /// `div`s become plain paragraphs.
    pub fn cnn_article(&self, generic: Option<Dom>) -> (r: Option<ExtractionParts>)
        requires
            self.wf(),
            generic matches Some(g) ==> g.wf(),
        ensures
            r matches Some(p) ==> p.wf() && p.rule == Some(Site::Cnn) && p.authors@.len() == 0
                && p.publishing_date is None && p.article_node is Some && p.title is None,
            r is Some <==> rule_gives(Site::Cnn, self.doc.nodes@, generic),
            r matches Some(p) ==> (p.article_node matches Some(d) ==> rule_body(Site::Cnn, self.doc.nodes@, generic, d.nodes@)),
            r matches Some(p) ==> forall|n: DomNode| selects_any(p.removed@, n) == #[trigger] cut_by(Site::Cnn, n),
    {
        let mut article = self.default_article_node_from(generic)?;
        let ghost base = article.nodes@;
        let cuts = Site::Cnn.cuts();
        Self::cut(&mut article, &cuts);
        let ghost before = article.nodes@;
        proof {
            assert(site_cut(base, before, Site::Cnn)) by {
                assert forall|j: int| 0 <= j < base.len() implies crate::filter::same_but_flag(#[trigger] before[j], base[j])
                    && before[j].detached == (base[j].detached || (below(base, 0, j) && attached(base, 0, j) && cut_by(Site::Cnn, base[j]))) by {
                    assert(selects_any(cuts@, base[j]) == cut_by(Site::Cnn, base[j]));
                }
            }
        }
        let paragraphs = removal_list(with_tag("div", class("zn-body__paragraph")), None);
        replace_all(&mut article, 0, &paragraphs, "p");
        proof {
            reveal_strlit("div");
            reveal_strlit("section");
            reveal_strlit("p");
            let after = article.nodes@;
            assert forall|n: DomNode| #[trigger] selects_any(paragraphs@, n) == tag_with_class(n, "div"@, "zn-body__paragraph"@) by {
                if tag_with_class(n, "div"@, "zn-body__paragraph"@) {
                    assert(selects(paragraphs@[0], n));
                }
                if selects_any(paragraphs@, n) {
                    let k = choose|k: int| 0 <= k < paragraphs@.len() && selects(#[trigger] paragraphs@[k], n);
                    assert(k == 0);
                }
            }
            assert(cnn_paragraphs(before, after));
            assert forall|j: int|
                0 <= j < after.len() && below(after, 0, j) && attached(after, 0, j)
                    implies !selects_any(cuts@, #[trigger] after[j]) by {
                crate::filter::lemma_below_same_parents(after, before, 0, j);
                crate::filter::lemma_attached_fewer_cuts(after, before, 0, j);
                assert(!selects_any(cuts@, before[j]));
                if selects_any(cuts@, after[j]) {
                    assert(cut_by(Site::Cnn, after[j]));
                    if !crate::filter::is_target(before, 0, paragraphs@, j) {
                        assert(selects_any(cuts@, before[j]) == cut_by(Site::Cnn, before[j]));
                        assert(cut_by(Site::Cnn, before[j]));
                    } else {
                        assert(after[j].name@ == "p"@);
                    }
                }
            }
            assert(rule_body(Site::Cnn, self.doc.nodes@, generic, after));
        }
        Some(ExtractionParts::with_article(article, Site::Cnn, cuts, Vec::new()))
    }

    /// The Atlantic: the article container.
    pub fn theatlantic_article(&self) -> (r: Option<ExtractionParts>)
        requires
            self.wf(),
        ensures
            r matches Some(p) ==> p.wf() && p.rule == Some(Site::TheAtlantic) && p.authors@.len() == 0
                && p.publishing_date is None && p.article_node is Some && p.title is None,
            r is Some <==> first_rule_node(Site::TheAtlantic, self.doc.nodes@, 0) < self.doc.nodes@.len(),
            r matches Some(p) ==> (p.article_node matches Some(d) ==> exists|m: Seq<int>|
                copies(self.doc.nodes@, first_rule_node(Site::TheAtlantic, self.doc.nodes@, 0), d.nodes@, m)),
            r is Some <==> rule_gives(Site::TheAtlantic, self.doc.nodes@, None),
            r matches Some(p) ==> (p.article_node matches Some(d) ==> rule_body(Site::TheAtlantic, self.doc.nodes@, None, d.nodes@)),
            r matches Some(p) ==> forall|n: DomNode| selects_any(p.removed@, n) == #[trigger] cut_by(Site::TheAtlantic, n),
    {
        let mut warnings: Vec<String> = Vec::new();
        let pat = with_tag("div", class("l-article__container"));
        let found = self.doc.find_first(&pat);
        proof {
            self.lemma_found(pat, Site::TheAtlantic, found);
        }
        match found {
            Some(j) => {
                let article = self.doc.subtree(j);
                Some(ExtractionParts::with_article(article, Site::TheAtlantic, Vec::new(), warnings))
            },
            None => {
                self.warn(&mut warnings, "could not extract article node");
                None
            },
        }
    }

    /// Vice: the default body, asking for large picture sources.
    pub fn vice_article(&self, generic: Option<Dom>) -> (r: Option<ExtractionParts>)
        requires
            self.wf(),
            generic matches Some(g) ==> g.wf(),
        ensures
            r matches Some(p) ==> p.wf() && p.rule == Some(Site::Vice) && p.authors@.len() == 0
                && p.publishing_date is None && p.article_node is Some && p.title is None,
            r is Some <==> rule_gives(Site::Vice, self.doc.nodes@, generic),
            r matches Some(p) ==> (p.article_node matches Some(d) ==> rule_body(Site::Vice, self.doc.nodes@, generic, d.nodes@)),
            r matches Some(p) ==> forall|n: DomNode| selects_any(p.removed@, n) == #[trigger] cut_by(Site::Vice, n),
    {
        let mut article = self.default_article_node_from(generic)?;
        fix_picture_source_scaling(&mut article);
        let removed: Vec<Pattern> = Vec::new();
        assert forall|n: DomNode| selects_any(removed@, n) == #[trigger] cut_by(Site::Vice, n) by {}
        Some(ExtractionParts::with_article(article, Site::Vice, removed, Vec::new()))
    }

    /// Daily Kos: the story, which the page holds as markup inside a `noscript` of the
    /// story column.
    pub fn dailykos_article(&self) -> (r: Option<ExtractionParts>)
        requires
            self.wf(),
        ensures
            r matches Some(p) ==> p.wf() && p.rule == Some(Site::DailyKos) && p.authors@.len() == 0
                && p.publishing_date is None && p.article_node is Some && p.title is None,
            r is Some <==> first_rule_node(Site::DailyKos, self.doc.nodes@, 0) < self.doc.nodes@.len(),
            r is Some <==> rule_gives(Site::DailyKos, self.doc.nodes@, None),
            r matches Some(p) ==> (p.article_node matches Some(d) ==> rule_body(Site::DailyKos, self.doc.nodes@, None, d.nodes@)),
            r matches Some(p) ==> forall|n: DomNode| selects_any(p.removed@, n) == #[trigger] cut_by(Site::DailyKos, n),
    {
        let ghost ns = self.doc.nodes@;
        proof {
            reveal_strlit("class");
            assert("class"@ =~= class_name());
        }
        let mut warnings: Vec<String> = Vec::new();
        let n = self.doc.nodes.len();
        let mut k: usize = 1;
        while k < n
            invariant
                self.wf(),
                ns == self.doc.nodes@,
                n == ns.len(),
                1 <= k,
                "class"@ == class_name(),
                forall|x: int| 0 <= x < k && x < n ==> !rule_node(Site::DailyKos, ns, x),
            decreases n - k,
        {
            let node = &self.doc.nodes[k];
            if node.kind == NodeKind::Element && str_eq(node.name.as_str(), "noscript") {
                let parent = &self.doc.nodes[node.parent];
                let story = match crate::dom::get_attr(&parent.attrs, "class") {
                    Some(c) => str_eq(c.as_str(), "story-column"),
                    None => false,
                };
                if parent.kind == NodeKind::Element && str_eq(parent.name.as_str(), "div") && story {
                    proof {
                        assert(rule_node(Site::DailyKos, ns, k as int));
                        lemma_first_rule_node(Site::DailyKos, ns, k as int, 0);
                    }
                    let inner = self.doc.text_under(k);
                    let article = Dom::parse(inner.as_str());
                    return Some(ExtractionParts::with_article(article, Site::DailyKos, Vec::new(), warnings));
                }
            }
            k = k + 1;
        }
        proof {
            lemma_first_rule_node(Site::DailyKos, ns, n as int, 0);
        }
        self.warn(&mut warnings, "could not extract article node");
        None
    }

    /// France 24: the default body, without self-promotion.
    pub fn france24_article(&self, generic: Option<Dom>) -> (r: Option<ExtractionParts>)
        requires
            self.wf(),
            generic matches Some(g) ==> g.wf(),
        ensures
            r matches Some(p) ==> p.wf() && p.rule == Some(Site::France24) && p.authors@.len() == 0
                && p.publishing_date is None && p.article_node is Some && p.title is None,
            r is Some <==> rule_gives(Site::France24, self.doc.nodes@, generic),
            r matches Some(p) ==> (p.article_node matches Some(d) ==> rule_body(Site::France24, self.doc.nodes@, generic, d.nodes@)),
            r matches Some(p) ==> forall|n: DomNode| selects_any(p.removed@, n) == #[trigger] cut_by(Site::France24, n),
    {
        let mut article = self.default_article_node_from(generic)?;
        let ghost base = article.nodes@;
        let removed = Site::France24.cuts();
        Self::cut(&mut article, &removed);
        proof {
            assert(site_cut(base, article.nodes@, Site::France24)) by {
                assert forall|j: int| 0 <= j < base.len() implies crate::filter::same_but_flag(#[trigger] article.nodes@[j], base[j])
                    && article.nodes@[j].detached == (base[j].detached || (below(base, 0, j) && attached(base, 0, j) && cut_by(Site::France24, base[j]))) by {
                    assert(selects_any(removed@, base[j]) == cut_by(Site::France24, base[j]));
                }
            }
        }
        Some(ExtractionParts::with_article(article, Site::France24, removed, Vec::new()))
    }

    /// The parts that the publisher rule for the page's site finds, given the generic
    /// extractor's body; empty where the site has no rule or its rule finds nothing.
    /// The generic body comes back where no rule took it.
    pub fn extract_article_parts(&self, generic: Option<Dom>) -> (r: (ExtractionParts, Option<Dom>))
        requires
            self.wf(),
            generic matches Some(g) ==> g.wf(),
        ensures
            r.0.wf(),
            r.0.rule is Some ==> r.0.rule == site_of(key_of(self.url@)),
            r.0.article_node is Some ==> r.0.rule is Some && r.0.rule == site_of(key_of(self.url@)),
            site_of(key_of(self.url@)) is None ==> r.0.article_node is None,
            r.0.authors@.len() == 0,
            r.0.publishing_date is None,
            crate::feed::opt_view(r.0.title) == rule_title(site_of(key_of(self.url@)), self.doc.nodes@),
            r.0.article_node is Some <==> site_gives(site_of(key_of(self.url@)), self.doc.nodes@, generic),
            r.0.article_node matches Some(d) ==> rule_body(site_of(key_of(self.url@))->Some_0, self.doc.nodes@, generic, d.nodes@)
                && forall|n: DomNode| selects_any(r.0.removed@, n) == #[trigger] cut_by(site_of(key_of(self.url@))->Some_0, n),
            r.1 matches Some(g) ==> g.wf(),
            r.1 is None ==> generic is None || takes_default(site_of(key_of(self.url@))),
            r.1 is Some ==> r.1 == generic,
    {
        let key = match site_domain(self.url.as_str()) {
            Some(k) => k,
            None => String::new(),
        };
        let site = site_for(key.as_str());
        proof {
            assert(site == site_of(key_of(self.url@)));
        }
        let (parts, rest) = match site {
            Some(Site::CommonDreams) => (self.commondreams_article(generic), None),
            Some(Site::TheGuardian) => (self.theguardian_article(generic), None),
            Some(Site::TheIntercept) => (self.theintercept_article(), generic),
            Some(Site::Gnu) => (self.gnu_article(), generic),
            Some(Site::Cnn) => (self.cnn_article(generic), None),
            Some(Site::TheAtlantic) => (self.theatlantic_article(), generic),
            Some(Site::Vice) => (self.vice_article(generic), None),
            Some(Site::DailyKos) => (self.dailykos_article(), generic),
            Some(Site::France24) => (self.france24_article(generic), None),
            None => (None, generic),
        };
        let ghost ns = self.doc.nodes@;
        proof {
            if let Some(st) = site {
                if !finds_own_node(st) {
                    assert(rule_title(site, ns) is None);
                }
            }
        }
        match parts {
            Some(p) => (p, rest),
            None => (ExtractionParts::empty(), rest),
        }
    }

    /// Locates the article body, given the generic extractor's: the publisher rule's,
    /// else the generic body, else a copy of the `div` that density scoring picks.
    /// Fails exactly where all three find none.
    pub fn locate(&self, generic: Option<Dom>) -> (r: Result<ExtractionParts, ExtractError>)
        requires
            self.wf(),
            generic matches Some(g) ==> g.wf(),
        ensures
            r matches Ok(p) ==> p.wf() && p.article_node is Some,
            r matches Ok(p) ==> (p.rule is Some ==> p.rule == site_of(key_of(self.url@))),
            r matches Ok(p) ==> crate::feed::opt_view(p.title) == rule_title(site_of(key_of(self.url@)), self.doc.nodes@)
                && p.authors@.len() == 0 && p.publishing_date is None,
            r is Err <==> (!site_gives(site_of(key_of(self.url@)), self.doc.nodes@, generic) && generic is None
                && !has_dense_div(self.doc.nodes@)),
            r matches Ok(p) ==> (p.article_node matches Some(d)
                ==> located_body(site_of(key_of(self.url@)), self.doc.nodes@, generic, d.nodes@)),
            r matches Ok(p) ==> (site_gives(site_of(key_of(self.url@)), self.doc.nodes@, generic)
                ==> forall|n: DomNode| selects_any(p.removed@, n) == #[trigger] cut_by(site_of(key_of(self.url@))->Some_0, n)),
    {
        let ghost ns = self.doc.nodes@;
        let (mut parts, rest) = self.extract_article_parts(generic);
        if parts.article_node.is_none() {
            match self.default_article_node_from(rest) {
                Some(d) => {
                    parts.article_node = Some(d);
                    parts.removed = Vec::new();
                },
                None => return Err(ExtractError::ContentNotFound),
            }
        }
        Ok(parts)
    }

    /// Cleans an article body for publication (see `do_global_filtering`). What a
    /// publisher rule cut out of it stays out.
    pub fn clean_body(&self, article: &mut Dom, removed: &Vec<Pattern>, probes: &Vec<ImageResource>)
        requires
            old(article).wf(),
            clear_of(*old(article), removed@),
            forall|k: int| 0 <= k < removed@.len() ==> stable_pattern(#[trigger] removed@[k]),
        ensures
            final(article).wf(),
            clear_of(*final(article), removed@),
            crate::filter::filtered(old(article).nodes@, final(article).nodes@, 0, self.url@, probes@),
    {
        let ghost before = article.nodes@;
        do_global_filtering(article, 0, self.url.as_str(), probes);
        proof {
            let after = article.nodes@;
            assert forall|j: int|
                0 <= j < after.len() && below(after, 0, j) && attached(after, 0, j)
                    implies !selects_any(removed@, #[trigger] after[j]) by {
                crate::filter::lemma_below_same_parents(after, before, 0, j);
                crate::filter::lemma_attached_fewer_cuts(after, before, 0, j);
                assert(!selects_any(removed@, before[j]));
                if selects_any(removed@, after[j]) {
                    let k = choose|k: int| 0 <= k < removed@.len() && selects(#[trigger] removed@[k], after[j]);
                    lemma_selects_stable(removed@[k], after[j], before[j]);
                }
            }
        }
    }

    /// The addresses whose image size `finish` may look up for these parts.
    pub fn probe_targets(&self, parts: &ExtractionParts) -> (r: Vec<String>)
        requires
            parts.wf(),
        ensures
            parts.article_node matches Some(d) ==> views(r@) == targets_upto(d.nodes@, 0, self.url@, d.nodes@.len() as int),
    {
        match &parts.article_node {
            Some(d) => ImgDataSrcFilter::new(self.url.as_str()).probe_targets(d, 0),
            None => Vec::new(),
        }
    }

    /// Cleans the located body and assembles the article. Each part that the rule
    /// left missing comes from the generic extractor: the title by `page_title`, the
    /// authors `authors`, the date `fallback_date`; the title last of all is the
    /// page's own URL.
    pub fn finish(&self, parts: ExtractionParts, probes: &Vec<ImageResource>, authors: Vec<String>, fallback_date: Option<String>) -> (r: Article)
        requires
            parts.wf(),
            parts.article_node is Some,
        ensures
            r.url@ == self.url@,
            r.title@ == match parts.title {
                Some(t) => t@,
                None => match page_title(self.html@) {
                    Some(t) => t,
                    None => self.url@,
                },
            },
            r.authors@ == if parts.authors@.len() > 0 { parts.authors@ } else { authors@ },
            r.publishing_date == if parts.publishing_date is Some { parts.publishing_date } else { fallback_date },
            r.warnings@ == parts.warnings@,
            r.body.wf(),
            clear_of(r.body, parts.removed@),
            parts.article_node matches Some(d) ==> crate::filter::filtered(d.nodes@, r.body.nodes@, 0, self.url@, probes@),
    {
        let ExtractionParts { title, authors: own_authors, publishing_date, article_node, rule: _, removed, warnings } = parts;
        let mut article = match article_node {
            Some(d) => d,
            None => Dom::parse(""),
        };
        self.clean_body(&mut article, &removed, probes);
        let html = node_to_html(&article, 0);
        let title = match title {
            Some(t) => t,
            None => match generic_title(self.html.as_str()) {
                Some(t) => t,
                None => self.url.clone(),
            },
        };
        let authors = if own_authors.len() > 0 { own_authors } else { authors };
        let publishing_date = match publishing_date {
            Some(d) => Some(d),
            None => fallback_date,
        };
        Article { url: self.url.clone(), title, authors, publishing_date, html, body: article, warnings }
    }

    /// Extracts the article of the page, given the generic extractor's body, authors
    /// and date, and the image sizes that `probes` reports. It fails exactly where no
    /// rule, no generic body and no positively scored `div` gives a body.
    pub fn extract_with(
        &self,
        generic: Option<Dom>,
        authors: Vec<String>,
        fallback_date: Option<String>,
        probes: &Vec<ImageResource>,
    ) -> (r: Result<Article, ExtractError>)
        requires
            self.wf(),
            generic matches Some(g) ==> g.wf(),
        ensures
            r is Err <==> (!site_gives(site_of(key_of(self.url@)), self.doc.nodes@, generic) && generic is None
                && !has_dense_div(self.doc.nodes@)),
            r matches Ok(a) ==> a.url@ == self.url@ && a.publishing_date == fallback_date && a.authors@ == authors@
                && a.title@ == match rule_title(site_of(key_of(self.url@)), self.doc.nodes@) {
                    Some(t) => t,
                    None => match page_title(self.html@) {
                        Some(t) => t,
                        None => self.url@,
                    },
                },
            r matches Ok(a) ==> a.body.wf() && exists|base: Seq<DomNode>|
                located_body(site_of(key_of(self.url@)), self.doc.nodes@, generic, base)
                    && #[trigger] crate::filter::filtered(base, a.body.nodes@, 0, self.url@, probes@),
            r matches Ok(a) ==> (site_gives(site_of(key_of(self.url@)), self.doc.nodes@, generic)
                ==> forall|j: int| 0 <= j < a.body.nodes@.len() && below(a.body.nodes@, 0, j) && attached(a.body.nodes@, 0, j)
                    ==> !cut_by(site_of(key_of(self.url@))->Some_0, #[trigger] a.body.nodes@[j])),
    {
        let ghost g0 = generic;
        let parts = self.locate(generic)?;
        let ghost body = parts.article_node->Some_0.nodes@;
        let ghost removed = parts.removed@;
        let a = self.finish(parts, probes, authors, fallback_date);
        proof {
            assert(located_body(site_of(key_of(self.url@)), self.doc.nodes@, g0, body));
            if site_gives(site_of(key_of(self.url@)), self.doc.nodes@, g0) {
                assert forall|j: int| 0 <= j < a.body.nodes@.len() && below(a.body.nodes@, 0, j) && attached(a.body.nodes@, 0, j)
                    implies !cut_by(site_of(key_of(self.url@))->Some_0, #[trigger] a.body.nodes@[j]) by {
                    assert(!selects_any(removed, a.body.nodes@[j]));
                    assert(selects_any(removed, a.body.nodes@[j]) == cut_by(site_of(key_of(self.url@))->Some_0, a.body.nodes@[j]));
                }
            }
        }
        Ok(a)
    }

    /// Extracts the article of the page, asking the generic extractor for its body and
    /// authors; `fallback_date` stands for its publication date, and `probes`
    /// reports the sizes of images.
    pub fn extract(&self, probes: &Vec<ImageResource>, fallback_date: Option<String>) -> (r: Result<Article, ExtractError>)
        requires
            self.wf(),
        ensures
            r is Err ==> !has_dense_div(self.doc.nodes@),
            (site_of(key_of(self.url@)) matches Some(st) && finds_own_node(st) && rule_succeeds(st, self.doc.nodes@))
                || has_dense_div(self.doc.nodes@) ==> r is Ok,
            r matches Ok(a) ==> a.url@ == self.url@ && a.publishing_date == fallback_date
                && a.title@ == match rule_title(site_of(key_of(self.url@)), self.doc.nodes@) {
                    Some(t) => t,
                    None => match page_title(self.html@) {
                        Some(t) => t,
                        None => self.url@,
                    },
                },
    {
        let generic = self.generic_body();
        let authors = generic_authors(self.html.as_str());
        self.extract_with(generic, authors, fallback_date, probes)
    }
}

/// Some `picture` element stands above node `j`.
pub open spec fn under_picture(ns: Seq<DomNode>, j: int) -> bool {
    exists|a: int| 0 <= a < ns.len() && below(ns, a, j) && #[trigger] is_tag(ns[a], "picture"@)
}

/// The node is a `source` element inside a `picture`.
pub open spec fn picture_source(ns: Seq<DomNode>, j: int) -> bool {
    is_tag(ns[j], "source"@) && under_picture(ns, j)
}

/// Asks for the large version of every `picture` source image: each `resize=` value
/// in its srcset list becomes 1000. Nothing else changes.
pub fn fix_picture_source_scaling(article: &mut Dom)
    requires
        old(article).wf(),
    ensures
        final(article).wf(),
        final(article).nodes@.len() == old(article).nodes@.len(),
        forall|j: int|
            0 <= j < old(article).nodes@.len() ==> same_but_attrs(#[trigger] final(article).nodes@[j], old(article).nodes@[j]),
        forall|j: int, a: Seq<char>|
            0 <= j < old(article).nodes@.len() ==> #[trigger] attr_of(final(article).nodes@[j].attrs@, a) == if a
                == "srcset"@ && picture_source(old(article).nodes@, j) && attr_of(old(article).nodes@[j].attrs@, a) is Some {
                Some(rescaled(attr_of(old(article).nodes@[j].attrs@, a)->Some_0))
            } else {
                attr_of(old(article).nodes@[j].attrs@, a)
            },
        pictures_rescaled(old(article).nodes@, final(article).nodes@),
{
    let ghost before = article.nodes@;
    let n = article.nodes.len();
    let mut j: usize = 0;
    while j < n
        invariant
            n == article.nodes@.len(),
            n == before.len(),
            j <= n,
            crate::dom::arena_wf(before),
            forall|q: int| 0 <= q < n ==> same_but_attrs(#[trigger] article.nodes@[q], before[q]),
            forall|q: int| j <= q < n ==> (#[trigger] article.nodes@[q]).attrs == before[q].attrs,
            forall|q: int, a: Seq<char>|
                0 <= q < j ==> #[trigger] attr_of(article.nodes@[q].attrs@, a) == if a == "srcset"@
                    && picture_source(before, q) && attr_of(before[q].attrs@, a) is Some {
                    Some(rescaled(attr_of(before[q].attrs@, a)->Some_0))
                } else {
                    attr_of(before[q].attrs@, a)
                },
        decreases n - j,
    {
        assert(article.wf()) by {
            assert forall|i: int| 0 < i < n implies (#[trigger] article.nodes@[i].parent) < i by {
                assert(same_but_attrs(article.nodes@[i], before[i]));
            }
        }
        let above = has_picture_above(article, j);
        proof {
            assert forall|x: int| 0 <= x < n implies (#[trigger] article.nodes@[x]).kind == before[x].kind
                && article.nodes@[x].name == before[x].name by {
                assert(same_but_attrs(article.nodes@[x], before[x]));
            }
            lemma_under_picture_same(article.nodes@, before, j as int);
        }
        if article.nodes[j].kind == NodeKind::Element && str_eq(article.nodes[j].name.as_str(), "source") && above {
            match crate::dom::get_attr(&article.nodes[j].attrs, "srcset") {
                Some(v) => {
                    let fixed = rescale(v.as_str());
                    crate::dom::set_attr(&mut article.nodes[j].attrs, "srcset", fixed);
                },
                None => {},
            }
        }
        j = j + 1;
    }
    assert(article.wf()) by {
        assert forall|i: int| 0 < i < n implies (#[trigger] article.nodes@[i].parent) < i by {
            assert(same_but_attrs(article.nodes@[i], before[i]));
        }
    }
}

/// Whether a picture stands above `j` depends on parents, kinds and names alone.
proof fn lemma_under_picture_same(a: Seq<DomNode>, b: Seq<DomNode>, j: int)
    requires
        a.len() == b.len(),
        forall|x: int| 0 <= x < a.len() ==> (#[trigger] a[x]).parent == b[x].parent,
        forall|x: int| 0 <= x < a.len() ==> (#[trigger] a[x]).kind == b[x].kind && a[x].name == b[x].name,
    ensures
        under_picture(a, j) == under_picture(b, j),
{
    if under_picture(a, j) {
        let w = choose|w: int| 0 <= w < a.len() && below(a, w, j) && #[trigger] is_tag(a[w], "picture"@);
        crate::filter::lemma_below_same_parents(a, b, w, j);
        assert(is_tag(b[w], "picture"@));
    }
    if under_picture(b, j) {
        let w = choose|w: int| 0 <= w < b.len() && below(b, w, j) && #[trigger] is_tag(b[w], "picture"@);
        crate::filter::lemma_below_same_parents(a, b, w, j);
        assert(is_tag(a[w], "picture"@));
    }
}

/// Whether some `picture` element stands above node `j`.
fn has_picture_above(d: &Dom, j: usize) -> (r: bool)
    requires
        d.wf(),
        j < d.nodes@.len(),
    ensures
        r == under_picture(d.nodes@, j as int),
{
    let ghost ns = d.nodes@;
    let mut k: usize = j;
    while k > 0
        invariant
            d.wf(),
            ns == d.nodes@,
            k < ns.len(),
            k == j || below(ns, k as int, j as int),
            forall|a: int| 0 <= a < ns.len() && below(ns, a, j as int) && is_tag(ns[a], "picture"@)
                ==> below(ns, a, k as int),
        decreases k,
    {
        let p = d.nodes[k].parent;
        if d.nodes[p].kind == NodeKind::Element && str_eq(d.nodes[p].name.as_str(), "picture") {
            proof {
                lemma_below_trans(ns, p as int, k as int, j as int);
                assert(is_tag(ns[p as int], "picture"@));
            }
            return true;
        }
        proof {
            assert forall|a: int| 0 <= a < ns.len() && below(ns, a, j as int) && is_tag(ns[a], "picture"@)
                implies below(ns, a, p as int) by {
                lemma_below_parent(ns, a, k as int);
            }
            lemma_below_trans(ns, p as int, k as int, j as int);
        }
        k = p;
    }
    proof {
        assert forall|a: int| 0 <= a < ns.len() && below(ns, a, j as int) implies !(#[trigger] is_tag(ns[a], "picture"@)) by {
            if is_tag(ns[a], "picture"@) {
                assert(below(ns, a, 0));
            }
        }
    }
    false
}

/// `k` is the parent of a node `a` lies above; so `a` is the parent itself or lies above it.
proof fn lemma_below_parent(ns: Seq<DomNode>, a: int, k: int)
    requires
        below(ns, a, k),
    ensures
        ns[k].parent as int == a || below(ns, a, ns[k].parent as int),
{
}

/// Lying above is transitive, through a parent link.
proof fn lemma_below_trans(ns: Seq<DomNode>, p: int, k: int, j: int)
    requires
        0 < k < ns.len(),
        arena_wf(ns),
        p == ns[k].parent,
        k == j || below(ns, k, j),
    ensures
        below(ns, p, j),
    decreases j,
{
    if k == j {
        assert(ns[j].parent < j);
    } else if ns[j].parent as int == k {
        lemma_below_trans(ns, p, k, k);
    } else {
        lemma_below_trans(ns, p, k, ns[j].parent as int);
    }
}

} // verus!
