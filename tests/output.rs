use daily_stallman::dom::Dom;
use daily_stallman::convert::{article_to_html, authors_date_elem, html, join};
use daily_stallman::extract::Article;
use daily_stallman::feed::{parse_feed, FeedError, Item};
use daily_stallman::options::keep_latest;
use daily_stallman::resolve::ResolvedItem;

fn article() -> Article {
    Article {
        url: "http://a.org/x".to_string(),
        title: "T".to_string(),
        authors: vec!["A".to_string(), "B".to_string()],
        publishing_date: Some("2020-11-22".to_string()),
        html: "<p>body</p>".to_string(),
        body: Dom::parse("<p>body</p>"),
        warnings: Vec::new(),
    }
}

#[test]
fn strings_are_joined_with_separator() {
    assert_eq!(join(&vec!["a".to_string(), "b".to_string(), "c".to_string()], ", "), "a, b, c");
    assert_eq!(join(&Vec::new(), ", "), "");
}

#[test]
fn byline_floats_the_date_right_only_with_both_parts() {
    assert!(authors_date_elem("A", "D").contains("float: right;"));
    assert!(authors_date_elem("", "D").contains("float: left; margin-right"));
}

#[test]
fn article_html_has_title_link_byline_and_body() {
    let h = article_to_html(&article());
    assert!(h.starts_with("<div>\n        <h1>T</h1>\n        <a href=\"http://a.org/x\">http://a.org/x</a>"));
    assert!(h.contains("A, B"));
    assert!(h.contains("2020-11-22"));
    assert!(h.ends_with("<p>body</p>\n    </div>\n    "));
}

#[test]
fn page_html_wraps_every_item() {
    let item = Item { title: "t".to_string(), date: None, description: "RMS comment".to_string(), links: Vec::new() };
    let page = html(&vec![ResolvedItem { item, articles: vec![article()] }], "body{}");
    assert!(page.contains("<style>body{}</style>"));
    assert!(page.contains("<blockquote>RMS comment</blockquote><div>"));
}

#[test]
fn feed_items_are_read() {
    let rss = r#"<?xml version="1.0"?><rss version="2.0"><channel><title>c</title><link>http://s</link><description>d</description>
        <item><title>One</title><pubDate>Sun, 22 Nov 2020 10:00:00 +0000</pubDate><description>&lt;a href="http://x.org/a"&gt;x&lt;/a&gt;</description></item>
        <item></item></channel></rss>"#;
    let items = parse_feed(rss.as_bytes()).unwrap();
    assert_eq!(items.len(), 2);
    assert_eq!(items[0].title, "One");
    assert_eq!(items[0].links, vec!["http://x.org/a".to_string()]);
    assert_eq!(items[0].date, Some(1606039200));
    assert_eq!(items[1].title, "<Untitled>");
    assert_eq!(items[1].description, "<No description>");
    assert!(items[1].links.is_empty());
}

#[test]
fn unreadable_feed_is_an_error() {
    assert!(matches!(parse_feed(b"not a feed"), Err(FeedError::Unreadable)));
}

#[test]
fn latest_keeps_the_first_items() {
    let mut v = vec![1, 2, 3];
    keep_latest(&mut v, 2);
    assert_eq!(v, vec![1, 2]);
    keep_latest(&mut v, 10);
    assert_eq!(v, vec![1, 2]);
}
