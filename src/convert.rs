use vstd::prelude::*;
use crate::extract::Article;
use crate::resolve::ResolvedItem;
use crate::text::{push_str, string_of};

verus! {

/// The parts joined, with `sep` between each two.
pub open spec fn joined_with(parts: Seq<Seq<char>>, sep: Seq<char>) -> Seq<char>
    decreases parts.len(),
{
    if parts.len() == 0 {
        Seq::empty()
    } else if parts.len() == 1 {
        parts[0]
    } else {
        joined_with(parts.drop_last(), sep) + sep + parts.last()
    }
}

/// The strings joined, with `sep` between each two.
pub fn join(parts: &Vec<String>, sep: &str) -> (r: String)
    ensures
        r@ == joined_with(parts@.map_values(|p: String| p@), sep@),
{
    let ghost ps = parts@.map_values(|p: String| p@);
    let mut out: Vec<char> = Vec::new();
    let mut i: usize = 0;
    while i < parts.len()
        invariant
            i <= parts@.len(),
            ps == parts@.map_values(|p: String| p@),
            out@ == joined_with(ps.take(i as int), sep@),
        decreases parts@.len() - i,
    {
        if i > 0 {
            push_str(&mut out, sep);
        }
        push_str(&mut out, parts[i].as_str());
        proof {
            assert(ps.take(i + 1).drop_last() =~= ps.take(i as int));
            if i == 0 {
                assert(out@ =~= ps.take(1)[0]);
            }
        }
        i = i + 1;
    }
    assert(ps.take(parts@.len() as int) =~= ps);
    string_of(&out)
}

/// The line with an article's authors and date; the date floats right when both are there.
pub open spec fn byline(authors: Seq<char>, date: Seq<char>) -> Seq<char> {
    let float = if authors.len() == 0 || date.len() == 0 { "left"@ } else { "right"@ };
    "\n        <h5>\n            <span style=\"float: left;\">"@ + authors
        + "</span>\n            <span style=\"float: "@ + float + "; margin-right: 10%\">"@ + date
        + "</span>\n        </h5>\n        <br/>\n        "@
}

/// The line with an article's authors and date.
pub fn authors_date_elem(authors: &str, date: &str) -> (r: String)
    ensures
        r@ == byline(authors@, date@),
{
    let float = if authors.unicode_len() == 0 || date.unicode_len() == 0 { "left" } else { "right" };
    let mut out: Vec<char> = Vec::new();
    push_str(&mut out, "\n        <h5>\n            <span style=\"float: left;\">");
    push_str(&mut out, authors);
    push_str(&mut out, "</span>\n            <span style=\"float: ");
    push_str(&mut out, float);
    push_str(&mut out, "; margin-right: 10%\">");
    push_str(&mut out, date);
    push_str(&mut out, "</span>\n        </h5>\n        <br/>\n        ");
    string_of(&out)
}

/// The HTML of one article: its title, a link to it, its byline and its body.
pub open spec fn article_markup(art: Article) -> Seq<char> {
    "<div>\n        <h1>"@ + art.title@ + "</h1>\n        <a href=\""@ + art.url@ + "\">"@ + art.url@
        + "</a>\n        "@ + byline(
        joined_with(art.authors@.map_values(|p: String| p@), ", "@),
        match art.publishing_date {
            Some(d) => d@,
            None => Seq::empty(),
        },
    ) + "\n        "@ + art.html@ + "\n    </div>\n    "@
}

/// The HTML of one feed item: the comment, then its articles.
pub open spec fn item_markup(resolved: ResolvedItem) -> Seq<char> {
    "<p><strong>RMS says:</strong></p><blockquote>"@ + resolved.item.description@ + "</blockquote>"@
        + joined_with(resolved.articles@.map_values(|a: Article| article_markup(a)), "<p><hr></p>"@)
}

/// The whole page for the resolved items.
pub open spec fn page_markup(items: Seq<ResolvedItem>, style: Seq<char>) -> Seq<char> {
    "\n    <!DOCTYPE html>\n    <html>\n        <head>\n        <style>"@ + style
        + "</style>\n        </head>\n        <body>"@
        + joined_with(items.map_values(|i: ResolvedItem| item_markup(i)), "<br/><hr><br/><br/><br/>"@)
        + "</body>\n    </html>"@
}

/// The HTML of one article: its title, a link to it, its byline and its body.
pub fn article_to_html(art: &Article) -> (r: String)
    ensures
        r@ == article_markup(*art),
{
    let authors = join(&art.authors, ", ");
    let date = match &art.publishing_date {
        Some(d) => d.clone(),
        None => String::new(),
    };
    let elem = authors_date_elem(authors.as_str(), date.as_str());
    let mut out: Vec<char> = Vec::new();
    push_str(&mut out, "<div>\n        <h1>");
    push_str(&mut out, art.title.as_str());
    push_str(&mut out, "</h1>\n        <a href=\"");
    push_str(&mut out, art.url.as_str());
    push_str(&mut out, "\">");
    push_str(&mut out, art.url.as_str());
    push_str(&mut out, "</a>\n        ");
    push_str(&mut out, elem.as_str());
    push_str(&mut out, "\n        ");
    push_str(&mut out, art.html.as_str());
    push_str(&mut out, "\n    </div>\n    ");
    string_of(&out)
}

/// The HTML of one feed item: the comment, then its articles.
pub fn item_to_html(resolved: &ResolvedItem) -> (r: String)
    ensures
        r@ == item_markup(*resolved),
{
    let mut parts: Vec<String> = Vec::new();
    let mut i: usize = 0;
    while i < resolved.articles.len()
        invariant
            i <= resolved.articles@.len(),
            parts@.len() == i,
            forall|k: int| 0 <= k < i ==> (#[trigger] parts@[k])@ == article_markup(resolved.articles@[k]),
        decreases resolved.articles@.len() - i,
    {
        parts.push(article_to_html(&resolved.articles[i]));
        i = i + 1;
    }
    let articles = join(&parts, "<p><hr></p>");
    assert(parts@.map_values(|p: String| p@) =~= resolved.articles@.map_values(|a: Article| article_markup(a)));
    let mut out: Vec<char> = Vec::new();
    push_str(&mut out, "<p><strong>RMS says:</strong></p><blockquote>");
    push_str(&mut out, resolved.item.description.as_str());
    push_str(&mut out, "</blockquote>");
    push_str(&mut out, articles.as_str());
    string_of(&out)
}

/// The whole page for the resolved items, with `style` as its stylesheet.
pub fn html(items: &Vec<ResolvedItem>, style: &str) -> (r: String)
    ensures
        r@ == page_markup(items@, style@),
{
    let mut parts: Vec<String> = Vec::new();
    let mut i: usize = 0;
    while i < items.len()
        invariant
            i <= items@.len(),
            parts@.len() == i,
            forall|k: int| 0 <= k < i ==> (#[trigger] parts@[k])@ == item_markup(items@[k]),
        decreases items@.len() - i,
    {
        parts.push(item_to_html(&items[i]));
        i = i + 1;
    }
    let body = join(&parts, "<br/><hr><br/><br/><br/>");
    assert(parts@.map_values(|p: String| p@) =~= items@.map_values(|i: ResolvedItem| item_markup(i)));
    let mut out: Vec<char> = Vec::new();
    push_str(&mut out, "\n    <!DOCTYPE html>\n    <html>\n        <head>\n        <style>");
    push_str(&mut out, style);
    push_str(&mut out, "</style>\n        </head>\n        <body>");
    push_str(&mut out, body.as_str());
    push_str(&mut out, "</body>\n    </html>");
    string_of(&out)
}

} // verus!
