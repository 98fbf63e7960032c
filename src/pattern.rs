use vstd::prelude::*;
use crate::dom::{attr_of, get_attr, Attribute, DomNode, NodeKind};
use crate::text::{contains, has_infix, has_prefix, matches_at, occurs_at, starts_with, str_eq};

verus! {

/// A test on an element's attributes, in the manner of a CSS attribute selector.
#[derive(Debug)]
pub enum AttrTest {
    /// Every element passes.
    Any,
    /// The `class` attribute lists the class (`.name`).
    HasClass(String),
    /// The attribute has exactly the value (`[a='v']`, `#id`).
    Equals(String, String),
    /// The attribute's value begins with the text (`[a^='v']`).
    Prefix(String, String),
    /// The attribute's value holds the text (`[a*='v']`).
    Contains(String, String),
}

/// An element selector: an optional tag name and an attribute test.
#[derive(Debug)]
pub struct Pattern {
    pub tag: Option<String>,
    pub test: AttrTest,
}

/// The white space that separates class names.
pub open spec fn is_space(c: char) -> bool {
    c == ' ' || c == '\t' || c == '\n' || c == '\r' || c == '\x0C'
}

/// `t` stands in `s` at `i` as a whole white-space-separated word.
pub open spec fn word_at(s: Seq<char>, t: Seq<char>, i: int) -> bool {
    &&& occurs_at(s, t, i)
    &&& (i == 0 || is_space(s[i - 1]))
    &&& (i + t.len() == s.len() || is_space(s[i + t.len()]))
}

/// The white-space-separated list `s` holds the word `t`.
pub open spec fn has_word(s: Seq<char>, t: Seq<char>) -> bool {
    t.len() > 0 && exists|i: int| word_at(s, t, i)
}

/// Whether the attribute test holds of an attribute list.
pub open spec fn test_holds(test: AttrTest, attrs: Seq<Attribute>) -> bool {
    match test {
        AttrTest::Any => true,
        AttrTest::HasClass(c) => match attr_of(attrs, seq!['c', 'l', 'a', 's', 's']) {
            Some(v) => has_word(v, c@),
            None => false,
        },
        AttrTest::Equals(a, v) => attr_of(attrs, a@) == Some(v@),
        AttrTest::Prefix(a, v) => match attr_of(attrs, a@) {
            Some(x) => v@.len() > 0 && has_prefix(x, v@),
            None => false,
        },
        AttrTest::Contains(a, v) => match attr_of(attrs, a@) {
            Some(x) => v@.len() > 0 && has_infix(x, v@),
            None => false,
        },
    }
}

/// Whether the node is an element that the pattern selects.
pub open spec fn selects(p: Pattern, n: DomNode) -> bool {
    &&& n.kind == NodeKind::Element
    &&& match p.tag {
        Some(t) => n.name@ == t@,
        None => true,
    }
    &&& test_holds(p.test, n.attrs@)
}

/// Whether some pattern of the list selects the node.
pub open spec fn selects_any(ps: Seq<Pattern>, n: DomNode) -> bool {
    exists|k: int| 0 <= k < ps.len() && selects(#[trigger] ps[k], n)
}

/// Whether `t` is one of the white-space-separated words of `s`.
pub fn contains_word(s: &str, t: &str) -> (r: bool)
    ensures
        r == has_word(s@, t@),
{
    let n = s.unicode_len();
    let m = t.unicode_len();
    if m == 0 {
        return false;
    }
    if m > n {
        return false;
    }
    let last = n - m;
    let mut i: usize = 0;
    while i <= last
        invariant
            n == s@.len(),
            m == t@.len(),
            m > 0,
            last == n - m,
            i <= last + 1,
            forall|k: int| 0 <= k < i ==> !word_at(s@, t@, k),
        decreases last + 1 - i,
    {
        if matches_at(s, t, i) {
            let left = i == 0 || is_space_char(s.get_char(i - 1));
            let right = i + m == n || is_space_char(s.get_char(i + m));
            if left && right {
                assert(word_at(s@, t@, i as int));
                return true;
            }
        }
        i = i + 1;
    }
    false
}

/// Whether `c` separates class names.
pub fn is_space_char(c: char) -> (r: bool)
    ensures
        r == is_space(c),
{
    c == ' ' || c == '\t' || c == '\n' || c == '\r' || c == '\x0C'
}

impl Pattern {
    /// Whether the pattern selects the node.
    pub fn selects(&self, n: &DomNode) -> (r: bool)
        ensures
            r == selects(*self, *n),
    {
        if n.kind != NodeKind::Element {
            return false;
        }
        match &self.tag {
            Some(t) => {
                if !str_eq(n.name.as_str(), t.as_str()) {
                    return false;
                }
            },
            None => {},
        }
        match &self.test {
            AttrTest::Any => true,
            AttrTest::HasClass(c) => {
                proof {
                    reveal_strlit("class");
                    assert("class"@ =~= seq!['c', 'l', 'a', 's', 's']);
                }
                match get_attr(&n.attrs, "class") {
                    Some(v) => contains_word(v.as_str(), c.as_str()),
                    None => false,
                }
            },
            AttrTest::Equals(a, v) => match get_attr(&n.attrs, a.as_str()) {
                Some(x) => str_eq(x.as_str(), v.as_str()),
                None => false,
            },
            AttrTest::Prefix(a, v) => match get_attr(&n.attrs, a.as_str()) {
                Some(x) => v.unicode_len() > 0 && starts_with(x.as_str(), v.as_str()),
                None => false,
            },
            AttrTest::Contains(a, v) => match get_attr(&n.attrs, a.as_str()) {
                Some(x) => v.unicode_len() > 0 && contains(x.as_str(), v.as_str()),
                None => false,
            },
        }
    }
}

/// Whether some pattern of the list selects the node.
pub fn select_any(ps: &Vec<Pattern>, n: &DomNode) -> (r: bool)
    ensures
        r == selects_any(ps@, *n),
{
    let mut k: usize = 0;
    while k < ps.len()
        invariant
            k <= ps@.len(),
            forall|q: int| 0 <= q < k ==> !selects(#[trigger] ps@[q], *n),
        decreases ps@.len() - k,
    {
        if ps[k].selects(n) {
            return true;
        }
        k = k + 1;
    }
    false
}

/// A pattern for elements with the given tag name that pass the test.
pub fn with_tag(tag: &str, test: AttrTest) -> (r: Pattern)
    ensures
        r.tag matches Some(t) && t@ == tag@,
        r.test == test,
{
    Pattern { tag: Some(tag.to_owned()), test }
}

/// A pattern for elements of any tag name that pass the test.
pub fn any_tag(test: AttrTest) -> (r: Pattern)
    ensures
        r.tag is None,
        r.test == test,
{
    Pattern { tag: None, test }
}

/// The test that the `class` attribute lists `c`.
pub fn class(c: &str) -> (r: AttrTest)
    ensures
        r matches AttrTest::HasClass(x) && x@ == c@,
{
    AttrTest::HasClass(c.to_owned())
}

/// The test that attribute `a` has exactly the value `v`.
pub fn attr_is(a: &str, v: &str) -> (r: AttrTest)
    ensures
        r matches AttrTest::Equals(x, y) && x@ == a@ && y@ == v@,
{
    AttrTest::Equals(a.to_owned(), v.to_owned())
}

/// The test that attribute `a` begins with `v`.
pub fn attr_starts(a: &str, v: &str) -> (r: AttrTest)
    ensures
        r matches AttrTest::Prefix(x, y) && x@ == a@ && y@ == v@,
{
    AttrTest::Prefix(a.to_owned(), v.to_owned())
}

/// The test that attribute `a` holds `v`.
pub fn attr_has(a: &str, v: &str) -> (r: AttrTest)
    ensures
        r matches AttrTest::Contains(x, y) && x@ == a@ && y@ == v@,
{
    AttrTest::Contains(a.to_owned(), v.to_owned())
}

/// The pattern looks at no attribute that article cleaning rewrites (`style`, `src`, `href`).
pub open spec fn stable_pattern(p: Pattern) -> bool {
    match p.test {
        AttrTest::Any => true,
        AttrTest::HasClass(_) => true,
        AttrTest::Equals(a, _) => a@ != "style"@ && a@ != "src"@ && a@ != "href"@,
        AttrTest::Prefix(a, _) => a@ != "style"@ && a@ != "src"@ && a@ != "href"@,
        AttrTest::Contains(a, _) => a@ != "style"@ && a@ != "src"@ && a@ != "href"@,
    }
}

/// A stable pattern selects a node as it did before its `style`, `src` and `href`
/// were rewritten.
pub proof fn lemma_selects_stable(p: Pattern, x: DomNode, y: DomNode)
    requires
        stable_pattern(p),
        x.kind == y.kind,
        x.name == y.name,
        forall|a: Seq<char>| a != "style"@ && a != "src"@ && a != "href"@
            ==> #[trigger] attr_of(x.attrs@, a) == attr_of(y.attrs@, a),
    ensures
        selects(p, x) == selects(p, y),
{
    reveal_strlit("style");
    reveal_strlit("src");
    reveal_strlit("href");
    let c = seq!['c', 'l', 'a', 's', 's'];
    assert(c != "style"@ && c != "src"@ && c != "href"@) by {
        assert(c[1] != "style"@[1]);
        assert(c.len() != "src"@.len());
        assert(c.len() != "href"@.len());
    }
    assert(attr_of(x.attrs@, c) == attr_of(y.attrs@, c));
    match p.test {
        AttrTest::Equals(a, _) => assert(attr_of(x.attrs@, a@) == attr_of(y.attrs@, a@)),
        AttrTest::Prefix(a, _) => assert(attr_of(x.attrs@, a@) == attr_of(y.attrs@, a@)),
        AttrTest::Contains(a, _) => assert(attr_of(x.attrs@, a@) == attr_of(y.attrs@, a@)),
        _ => {},
    }
}

} // verus!
