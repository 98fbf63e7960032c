use vstd::prelude::*;
use crate::dom::{attached, attr_of, get_attr, Dom, DomNode, NodeKind};
use crate::text::str_eq;
use crate::web::{domain_of, url_domain};
use crate::images::views;

verus! {

/// A link leads back to the feed's own site: its host is `stallman.org`.
pub open spec fn own_origin(s: Seq<char>) -> bool {
    domain_of(s) == Some("stallman.org"@)
}

/// Whether a link leads back to the feed's own site.
pub fn is_own_origin(s: &str) -> (r: bool)
    ensures
        r == own_origin(s@),
{
    match url_domain(s) {
        Some(d) => str_eq(d.as_str(), "stallman.org"),
        None => false,
    }
}

/// The `href` of node `j`, where it is a reachable `a` element that has one.
pub open spec fn link_at(ns: Seq<DomNode>, j: int) -> Option<Seq<char>> {
    if attached(ns, 0, j) && ns[j].kind == NodeKind::Element && ns[j].name@ == "a"@ {
        attr_of(ns[j].attrs@, "href"@)
    } else {
        None
    }
}

/// The links among the first `i` nodes, in document order, leaving out those back
/// to the feed's own site.
pub open spec fn outside_links(ns: Seq<DomNode>, i: int) -> Seq<Seq<char>>
    decreases i,
{
    if i <= 0 {
        Seq::empty()
    } else {
        let rest = outside_links(ns, i - 1);
        match link_at(ns, i - 1) {
            Some(h) => if own_origin(h) { rest } else { rest.push(h) },
            None => rest,
        }
    }
}

/// The first `i` items, each kept only where it did not come before.
pub open spec fn first_occurrences(s: Seq<Seq<char>>, i: int) -> Seq<Seq<char>>
    decreases i,
{
    if i <= 0 {
        Seq::empty()
    } else {
        let rest = first_occurrences(s, i - 1);
        if rest.contains(s[i - 1]) { rest } else { rest.push(s[i - 1]) }
    }
}

/// Each item once, at its first place.
pub open spec fn dedup(s: Seq<Seq<char>>) -> Seq<Seq<char>> {
    first_occurrences(s, s.len() as int)
}

/// The article links of a parsed description.
pub open spec fn article_links_of(d: Dom) -> Seq<Seq<char>> {
    dedup(outside_links(d.nodes@, d.nodes@.len() as int))
}

/// The article links of a parsed description: the `href` of each `a` element in
/// document order, without those back to the feed's own site, each link once at
/// its first place.
pub fn links_of(d: &Dom) -> (r: Vec<String>)
    requires
        d.wf(),
    ensures
        r@.len() == article_links_of(*d).len(),
        forall|k: int| 0 <= k < r@.len() ==> (#[trigger] r@[k])@ == article_links_of(*d)[k],
{
    let ghost ns = d.nodes@;
    let n = d.nodes.len();
    let mut all: Vec<String> = Vec::new();
    let mut j: usize = 0;
    while j < n
        invariant
            n == ns.len(),
            ns == d.nodes@,
            d.wf(),
            j <= n,
            all@.len() == outside_links(ns, j as int).len(),
            forall|k: int| 0 <= k < all@.len() ==> (#[trigger] all@[k])@ == outside_links(ns, j as int)[k],
        decreases n - j,
    {
        let node = &d.nodes[j];
        if d.is_attached(0, j) && node.kind == NodeKind::Element && str_eq(node.name.as_str(), "a") {
            match get_attr(&node.attrs, "href") {
                Some(h) => {
                    if !is_own_origin(h.as_str()) {
                        all.push(h);
                    }
                },
                None => {},
            }
        }
        j = j + 1;
    }
    let ghost s = outside_links(ns, n as int);
    let mut r: Vec<String> = Vec::new();
    let mut i: usize = 0;
    while i < all.len()
        invariant
            i <= all@.len(),
            all@.len() == s.len(),
            forall|k: int| 0 <= k < all@.len() ==> (#[trigger] all@[k])@ == s[k],
            r@.len() == first_occurrences(s, i as int).len(),
            forall|k: int| 0 <= k < r@.len() ==> (#[trigger] r@[k])@ == first_occurrences(s, i as int)[k],
        decreases all@.len() - i,
    {
        let ghost prev = first_occurrences(s, i as int);
        let mut seen = false;
        let mut k: usize = 0;
        while k < r.len()
            invariant
                i < all@.len(),
                k <= r@.len(),
                r@.len() == prev.len(),
                forall|q: int| 0 <= q < r@.len() ==> (#[trigger] r@[q])@ == prev[q],
                seen == exists|q: int| 0 <= q < k && prev[q] == all@[i as int]@,
            decreases r@.len() - k,
        {
            if str_eq(r[k].as_str(), all[i].as_str()) {
                seen = true;
            }
            k = k + 1;
        }
        assert(seen == prev.contains(s[i as int]));
        if !seen {
            r.push(all[i].clone());
        }
        i = i + 1;
    }
    assert(all@.len() == s.len());
    r
}

/// The article links of a feed entry's description, which is HTML: those of its
/// parsed document (see `links_of`). So each link stands once, at its first place,
/// and none leads back to the feed's own site.
pub fn parse_article_links(description: &str) -> (r: Vec<String>)
    ensures
        exists|d: Dom| d.wf() && #[trigger] views(r@) == article_links_of(d),
        forall|a: int, b: int| 0 <= a < b < r@.len() ==> (#[trigger] r@[a])@ != (#[trigger] r@[b])@,
        forall|k: int| 0 <= k < r@.len() ==> !own_origin((#[trigger] r@[k])@),
{
    let d = Dom::parse(description);
    let r = links_of(&d);
    proof {
        assert(views(r@) =~= article_links_of(d));
        lemma_article_links_clean(d);
        assert forall|a: int, b: int| 0 <= a < b < r@.len() implies (#[trigger] r@[a])@ != (#[trigger] r@[b])@ by {
            assert(article_links_of(d)[a] != article_links_of(d)[b]);
        }
        assert forall|k: int| 0 <= k < r@.len() implies !own_origin((#[trigger] r@[k])@) by {
            assert(!own_origin(article_links_of(d)[k]));
        }
    }
    r
}

/// A news item of the feed.
#[derive(Debug)]
pub struct Item {
    /// The item's title.
    pub title: String,
    /// When the item was added to the feed, in seconds since the Unix epoch; this is
    /// not when the article was written.
    pub date: Option<i64>,
    /// The comment on the articles, which holds the links to them.
    pub description: String,
    /// The links to the articles that the description mentions.
    pub links: Vec<String>,
}

/// Each link stands once, and none leads back to the feed's own site.
pub open spec fn clean_links(links: Seq<String>) -> bool {
    &&& forall|a: int, b: int| 0 <= a < b < links.len() ==> (#[trigger] links[a])@ != (#[trigger] links[b])@
    &&& forall|k: int| 0 <= k < links.len() ==> !own_origin((#[trigger] links[k])@)
}

/// Why the feed could not be read.
#[derive(PartialEq, Eq, Structural, Clone, Copy, Debug)]
pub enum FeedError {
    /// The bytes are not an RSS channel.
    Unreadable,
}

/// What rss reads from a channel: the title, publication date and description of
/// each item, in order.
pub uninterp spec fn feed_entries(feed: Seq<u8>) -> Option<Seq<(Option<Seq<char>>, Option<Seq<char>>, Option<Seq<char>>)>>;

/// The view of an optional string.
pub open spec fn opt_view(o: Option<String>) -> Option<Seq<char>> {
    match o {
        Some(s) => Some(s@),
        None => None,
    }
}

/// Relies on rss's `Channel::read_from` and the `title`, `pub_date` and
/// `description` of each of its items.
#[verifier::external_body]
fn read_entries(feed: &[u8]) -> (r: Option<Vec<(Option<String>, Option<String>, Option<String>)>>)
    ensures
        match r {
            Some(v) => feed_entries(feed@) matches Some(es) && v@.len() == es.len() && forall|k: int|
                0 <= k < es.len() ==> (opt_view((#[trigger] v@[k]).0), opt_view(v@[k].1), opt_view(v@[k].2)) == es[k],
            None => feed_entries(feed@) is None,
        },
{
    let channel = rss::Channel::read_from(feed).ok()?;
    Some(channel.items().iter().map(|i| (
        i.title().map(String::from),
        i.pub_date().map(String::from),
        i.description().map(String::from),
    )).collect())
}

/// What chrono reads from an RFC 2822 date: the moment in seconds since the Unix epoch.
pub uninterp spec fn rfc2822_of(s: Seq<char>) -> Option<i64>;

/// Relies on chrono's `DateTime::parse_from_rfc2822` and `timestamp`: the moment in
/// seconds since the Unix epoch.
#[verifier::external_body]
fn rfc2822_seconds(s: &str) -> (r: Option<i64>)
    ensures
        r == rfc2822_of(s@),
{
    chrono::DateTime::parse_from_rfc2822(s).ok().map(|d| d.timestamp())
}

/// The items of an RSS feed. An item without a title is `<Untitled>`, one without a
/// description `<No description>`; the links come from the description.
pub fn parse_feed(feed: &[u8]) -> (r: Result<Vec<Item>, FeedError>)
    ensures
        r is Ok <==> feed_entries(feed@) is Some,
        r matches Ok(items) ==> feed_entries(feed@) matches Some(es) && items@.len() == es.len()
            && forall|k: int| 0 <= k < es.len() ==> {
                &&& (#[trigger] items@[k]).title@ == match es[k].0 { Some(t) => t, None => "<Untitled>"@ }
                &&& items@[k].description@ == match es[k].2 { Some(d) => d, None => "<No description>"@ }
                &&& clean_links(items@[k].links@)
                &&& items@[k].date == match es[k].1 { Some(d) => rfc2822_of(d), None => None }
            },
{
    let entries = match read_entries(feed) {
        Some(e) => e,
        None => return Err(FeedError::Unreadable),
    };
    let ghost es = feed_entries(feed@)->Some_0;
    let mut items: Vec<Item> = Vec::new();
    let mut k: usize = 0;
    while k < entries.len()
        invariant
            k <= entries@.len(),
            entries@.len() == es.len(),
            forall|q: int| 0 <= q < es.len() ==> (opt_view((#[trigger] entries@[q]).0), opt_view(entries@[q].1), opt_view(entries@[q].2)) == es[q],
            items@.len() == k,
            forall|q: int| 0 <= q < k ==> {
                &&& (#[trigger] items@[q]).title@ == match es[q].0 { Some(t) => t, None => "<Untitled>"@ }
                &&& items@[q].description@ == match es[q].2 { Some(d) => d, None => "<No description>"@ }
                &&& clean_links(items@[q].links@)
                &&& items@[q].date == match es[q].1 { Some(d) => rfc2822_of(d), None => None }
            },
        decreases entries@.len() - k,
    {
        let e = &entries[k];
        assert(opt_view(e.0) == es[k as int].0);
        let title = match &e.0 {
            Some(t) => t.clone(),
            None => "<Untitled>".to_owned(),
        };
        let date = match &e.1 {
            Some(d) => rfc2822_seconds(d.as_str()),
            None => None,
        };
        let links = match &e.2 {
            Some(d) => parse_article_links(d.as_str()),
            None => parse_article_links(""),
        };
        let description = match &e.2 {
            Some(d) => d.clone(),
            None => "<No description>".to_owned(),
        };
        items.push(Item { title, date, description, links });
        k = k + 1;
    }
    Ok(items)
}

proof fn lemma_outside_only(ns: Seq<DomNode>, i: int)
    ensures
        forall|k: int| 0 <= k < outside_links(ns, i).len() ==> !own_origin(#[trigger] outside_links(ns, i)[k]),
    decreases i,
{
    if i > 0 {
        lemma_outside_only(ns, i - 1);
        let rest = outside_links(ns, i - 1);
        assert forall|k: int| 0 <= k < outside_links(ns, i).len() implies !own_origin(#[trigger] outside_links(ns, i)[k]) by {
            if k < rest.len() {
                assert(outside_links(ns, i)[k] == rest[k]);
            }
        }
    }
}

proof fn lemma_first_occurrences(s: Seq<Seq<char>>, i: int)
    requires
        0 <= i <= s.len(),
    ensures
        forall|a: int, b: int| 0 <= a < b < first_occurrences(s, i).len()
            ==> (#[trigger] first_occurrences(s, i)[a]) != (#[trigger] first_occurrences(s, i)[b]),
        forall|k: int| 0 <= k < first_occurrences(s, i).len()
            ==> s.take(i).contains(#[trigger] first_occurrences(s, i)[k]),
        forall|p: int| 0 <= p < i ==> first_occurrences(s, i).contains(#[trigger] s[p]),
    decreases i,
{
    if i > 0 {
        lemma_first_occurrences(s, i - 1);
        let rest = first_occurrences(s, i - 1);
        let fo = first_occurrences(s, i);
        assert forall|k: int| 0 <= k < fo.len() implies s.take(i).contains(#[trigger] fo[k]) by {
            if k < rest.len() {
                assert(fo[k] == rest[k]);
                let w = choose|w: int| 0 <= w < s.take(i - 1).len() && #[trigger] s.take(i - 1)[w] == rest[k];
                assert(s.take(i)[w] == rest[k]);
            } else {
                assert(s.take(i)[i - 1] == fo[k]);
            }
        }
        assert forall|p: int| 0 <= p < i implies fo.contains(#[trigger] s[p]) by {
            if p < i - 1 {
                let w = choose|w: int| 0 <= w < rest.len() && rest[w] == s[p];
                assert(fo[w] == s[p]);
            } else if !rest.contains(s[i - 1]) {
                assert(fo[rest.len() as int] == s[p]);
            } else {
                let w = choose|w: int| 0 <= w < rest.len() && rest[w] == s[p];
                assert(fo[w] == s[p]);
            }
        }
        assert forall|a: int, b: int| 0 <= a < b < fo.len() implies (#[trigger] fo[a]) != (#[trigger] fo[b]) by {
            if b == rest.len() && !rest.contains(s[i - 1]) {
                assert(fo[a] == rest[a]);
            } else {
                assert(fo[a] == rest[a]);
                assert(fo[b] == rest[b]);
            }
        }
    }
}

/// The article links of a description hold each link once, none that leads back to
/// the feed's own site, and every link to elsewhere that the description holds.
pub proof fn lemma_article_links_clean(d: Dom)
    ensures
        forall|a: int, b: int| 0 <= a < b < article_links_of(d).len()
            ==> (#[trigger] article_links_of(d)[a]) != (#[trigger] article_links_of(d)[b]),
        forall|k: int| 0 <= k < article_links_of(d).len() ==> !own_origin(#[trigger] article_links_of(d)[k]),
        forall|j: int| 0 <= j < d.nodes@.len() && (#[trigger] link_at(d.nodes@, j)) is Some
            && !own_origin(link_at(d.nodes@, j)->Some_0) ==> article_links_of(d).contains(link_at(d.nodes@, j)->Some_0),
{
    let ns = d.nodes@;
    let s = outside_links(ns, ns.len() as int);
    lemma_first_occurrences(s, s.len() as int);
    lemma_outside_only(ns, ns.len() as int);
    assert(s.take(s.len() as int) =~= s);
    assert forall|k: int| 0 <= k < article_links_of(d).len() implies !own_origin(#[trigger] article_links_of(d)[k]) by {
        let w = choose|w: int| 0 <= w < s.len() && s[w] == article_links_of(d)[k];
        assert(!own_origin(s[w]));
    }
    assert forall|j: int| 0 <= j < ns.len() && (#[trigger] link_at(ns, j)) is Some
        && !own_origin(link_at(ns, j)->Some_0) implies article_links_of(d).contains(link_at(ns, j)->Some_0) by {
        lemma_link_listed(ns, j, ns.len() as int);
        let h = link_at(ns, j)->Some_0;
        let w = choose|w: int| 0 <= w < s.len() && s[w] == h;
        assert(first_occurrences(s, s.len() as int).contains(s[w]));
    }
}

proof fn lemma_link_listed(ns: Seq<DomNode>, j: int, i: int)
    requires
        0 <= j < i,
        link_at(ns, j) is Some,
        !own_origin(link_at(ns, j)->Some_0),
    ensures
        outside_links(ns, i).contains(link_at(ns, j)->Some_0),
    decreases i,
{
    let h = link_at(ns, j)->Some_0;
    if j < i - 1 {
        lemma_link_listed(ns, j, i - 1);
        let rest = outside_links(ns, i - 1);
        let w = choose|w: int| 0 <= w < rest.len() && rest[w] == h;
        match link_at(ns, i - 1) {
            Some(g) => if !own_origin(g) {
                assert(outside_links(ns, i)[w] == h);
            },
            None => {},
        }
    } else {
        let rest = outside_links(ns, i - 1);
        assert(outside_links(ns, i)[rest.len() as int] == h);
    }
}

} // verus!
