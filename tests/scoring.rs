use daily_stallman::extract::ArticleExtractor;

#[test]
fn no_containers_no_candidate() {
    let extractor = ArticleExtractor::new("http://example.com", "<p>loose paragraph</p><section><p>x</p></section>", false);
    assert!(extractor.doc.score_divs().is_empty());
    assert_eq!(extractor.density_node(), None);
}

#[test]
fn more_text_ranks_higher_and_order_within_does_not_matter() {
    let a = "<div id='a'><p>aa</p><p>bbbb</p></div><div id='b'><p>ccccc</p></div>";
    let b = "<div id='a'><p>bbbb</p><p>aa</p></div><div id='b'><p>ccccc</p></div>";
    let sa = ArticleExtractor::new("http://example.com", a, false).doc.score_divs();
    let sb = ArticleExtractor::new("http://example.com", b, false).doc.score_divs();
    assert_eq!(sa.iter().map(|e| e.1).collect::<Vec<_>>(), vec![6, 5]);
    assert_eq!(sb.iter().map(|e| e.1).collect::<Vec<_>>(), vec![6, 5]);
}

#[test]
fn equal_scores_keep_first_seen_order() {
    let html = "<div id='one'><p>abc</p></div><div id='two'><p>xyz</p></div>";
    let extractor = ArticleExtractor::new("http://example.com", html, false);
    let s = extractor.doc.score_divs();
    assert_eq!(s.len(), 2);
    assert!(s[0].0 < s[1].0);
    assert_eq!(extractor.density_node(), Some(s[0].0));
}

#[test]
fn empty_paragraphs_give_no_candidate() {
    let extractor = ArticleExtractor::new("http://example.com", "<div><p></p></div>", false);
    assert_eq!(extractor.doc.score_divs().len(), 1);
    assert_eq!(extractor.density_node(), None);
}
