use daily_stallman::dom::Dom;
use daily_stallman::extract::{fix_picture_source_scaling, site_domain, site_for, ArticleExtractor, ExtractError, Site};
use daily_stallman::filter::{do_global_filtering, remove_all, replace_all, strip_classes};
use daily_stallman::html::node_to_html;
use daily_stallman::pattern::{class, with_tag, AttrTest};

#[test]
fn site_keys_are_the_last_two_labels() {
    assert_eq!(site_domain("https://www.commondreams.org/news/x").as_deref(), Some("commondreams.org"));
    assert_eq!(site_domain("https://www.example.co.uk/a").as_deref(), Some("co.uk"));
    assert_eq!(site_domain("http://localhost/a"), None);
    assert_eq!(site_domain("not a url"), None);
    assert_eq!(site_for("gnu.org"), Some(Site::Gnu));
    assert_eq!(site_for("example.org"), None);
}

#[test]
fn override_rule_cuts_its_widgets() {
    let html = "<html><body><div class='PostContent'><p>Body text.</p>\
        <div class='NewsletterEmbed-container'>Sign up</div></div></body></html>";
    let extractor = ArticleExtractor::new("https://theintercept.com/2020/story", html, false);
    let (parts, _) = extractor.extract_article_parts(None);
    assert_eq!(parts.rule, Some(Site::TheIntercept));
    let article = extractor.extract(&Vec::new(), None).unwrap();
    assert!(article.html.contains("Body text."));
    assert!(!article.html.contains("Sign up"));
    assert!(!article.html.contains("NewsletterEmbed"));
    assert!(article.html.starts_with("<div class=\"PostContent\">"));
}

#[test]
fn gnu_rule_takes_the_title_from_the_heading() {
    let html = "<html><body><div id='content'><h2>Why Free Software</h2><p>Text.</p></div></body></html>";
    let extractor = ArticleExtractor::new("https://www.gnu.org/philosophy/x.html", html, false);
    let article = extractor.extract(&Vec::new(), None).unwrap();
    assert_eq!(article.title, "Why Free Software");
    assert!(article.html.contains("Text."));
}

#[test]
fn missing_override_node_is_warned_about() {
    let extractor = ArticleExtractor::new("https://theatlantic.com/a", "<p>x</p>", true);
    let parts = extractor.theatlantic_article();
    assert!(parts.is_none());
}

#[test]
fn page_without_content_fails() {
    let extractor = ArticleExtractor::new("http://example.com/a", "<html><head></head><body></body></html>", false);
    assert!(matches!(extractor.extract(&Vec::new(), None), Err(ExtractError::ContentNotFound)));
}

#[test]
fn title_falls_back_to_the_url() {
    let html = "<html><body><div><p>Only some text here.</p></div></body></html>";
    let extractor = ArticleExtractor::new("http://example.com/a", html, false);
    let article = extractor.extract(&Vec::new(), None).unwrap();
    assert_eq!(article.title, "http://example.com/a");
    assert!(article.html.contains("Only some text here."));
}

#[test]
fn generic_title_is_used_when_no_rule_gives_one() {
    let html = "<html><head><meta property='og:title' content=' The Headline '></head>\
        <body><div><p>Words and words.</p></div></body></html>";
    let extractor = ArticleExtractor::new("http://example.com/a", html, false);
    let article = extractor.extract(&Vec::new(), None).unwrap();
    assert_eq!(article.title, "The Headline");
}

#[test]
fn noise_and_styles_are_removed() {
    let mut dom = Dom::parse(
        "<div style='color: red'><script>var x;</script><p class='share-bar'>s</p>\
         <aside>a</aside><span class='ad'>buy</span><p>keep</p></div>",
    );
    do_global_filtering(&mut dom, 0, "http://example.com/", &Vec::new());
    assert_eq!(node_to_html(&dom, 0), "<div><p>keep</p></div>");
}

#[test]
fn remove_all_counts_its_targets() {
    let mut dom = Dom::parse("<div><div class='x'><div class='x'>in</div></div><p>out</p></div>");
    let n = remove_all(&mut dom, 0, &vec![with_tag("div", class("x"))]);
    assert_eq!(n, 2);
    assert_eq!(node_to_html(&dom, 0), "<div><p>out</p></div>");
}

#[test]
fn replaced_widgets_become_paragraphs() {
    let mut dom = Dom::parse("<div><div class='zn-body__paragraph' id='q'>t</div></div>");
    replace_all(&mut dom, 0, &vec![with_tag("div", class("zn-body__paragraph"))], "p");
    assert_eq!(node_to_html(&dom, 0), "<div><p>t</p></div>");
}

#[test]
fn classes_are_stripped_from_the_list() {
    assert_eq!(strip_classes("a  fig--has-shares\tb", &["fig--has-shares"]), "a b");
    assert_eq!(strip_classes("fig--has-shares", &["fig--has-shares"]), "");
    assert_eq!(strip_classes(" c ", &["d"]), "c");
}

#[test]
fn picture_sources_are_rescaled() {
    let mut dom = Dom::parse("<picture><source srcset='a.jpg?resize=300 1x, a.jpg?resize=20'></picture><source srcset='b?resize=5'>");
    fix_picture_source_scaling(&mut dom);
    let html = node_to_html(&dom, 0);
    assert!(html.contains("a.jpg?resize=1000 1x, a.jpg?resize=1000"));
    assert!(html.contains("b?resize=5"));
}

#[test]
fn any_pattern_selects_by_tag() {
    let mut dom = Dom::parse("<div><form>f</form><p>p</p></div>");
    remove_all(&mut dom, 0, &vec![with_tag("form", AttrTest::Any)]);
    assert_eq!(node_to_html(&dom, 0), "<div><p>p</p></div>");
}

#[test]
fn warnings_are_collected_when_asked_for() {
    let html = "<html><body><div id='content'><p>No heading.</p></div></body></html>";
    let quiet = ArticleExtractor::new("https://gnu.org/x", html, false).extract(&Vec::new(), None).unwrap();
    assert!(quiet.warnings.is_empty());
    let loud = ArticleExtractor::new("https://gnu.org/x", html, true).extract(&Vec::new(), None).unwrap();
    assert_eq!(loud.warnings.len(), 1);
    assert!(loud.warnings[0].contains("https://gnu.org/x"));
    assert!(loud.warnings[0].contains("could not extract title"));
}

#[test]
fn subtree_copy_keeps_the_nodes_below() {
    let dom = Dom::parse("<div id='a'><p>one <b>two</b></p></div><p>out</p>");
    let j = dom.find_first(&with_tag("div", AttrTest::Any)).unwrap();
    let sub = dom.subtree(j);
    assert_eq!(node_to_html(&sub, 0), "<div id=\"a\"><p>one <b>two</b></p></div>");
    assert_eq!(dom.text_under(j), "one two");
}

#[test]
fn rule_element_alone_gives_an_article() {
    let html = "<html><body><div id='content'><h2>T</h2></div></body></html>";
    let article = ArticleExtractor::new("https://www.gnu.org/a", html, false)
        .extract(&Vec::new(), Some("2020-01-02".to_string()))
        .unwrap();
    assert_eq!(article.title, "T");
    assert_eq!(article.publishing_date.as_deref(), Some("2020-01-02"));
}

#[test]
fn links_without_href_keep_their_other_attributes() {
    let mut dom = Dom::parse("<a src='rel.png'>x</a>");
    daily_stallman::links::RelativeLinksFilter::new("http://example.com/").run(&mut dom, 0);
    assert!(node_to_html(&dom, 0).contains("src=\"rel.png\""));
}

#[test]
fn generic_body_is_cut_by_the_site_rule() {
    let generic = Dom::parse("<div><p>Story.</p><div class='block-inject'>Ad block</div></div>");
    let extractor = ArticleExtractor::new("https://www.commondreams.org/news/x", "<html></html>", false);
    let article = extractor
        .extract_with(Some(generic), vec!["A. Writer".to_string()], None, &Vec::new())
        .unwrap();
    assert!(article.html.contains("Story."));
    assert!(!article.html.contains("Ad block"));
    assert_eq!(article.authors, vec!["A. Writer".to_string()]);
}

#[test]
fn no_rule_no_generic_no_density_fails() {
    let extractor = ArticleExtractor::new("https://example.org/x", "<p>loose</p>", false);
    assert!(matches!(extractor.extract_with(None, Vec::new(), None, &Vec::new()), Err(ExtractError::ContentNotFound)));
    let generic = Dom::parse("<p>found</p>");
    assert!(extractor.extract_with(Some(generic), Vec::new(), None, &Vec::new()).is_ok());
}
