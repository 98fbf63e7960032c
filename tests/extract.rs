use daily_stallman::dom::Dom;
use daily_stallman::extract::ArticleExtractor;
use daily_stallman::html::node_to_html;

#[test]
fn converts_node_to_html_correctly() {
    let node = Dom::parse("<div>hello</div>");
    assert_eq!("<div>hello</div>", node_to_html(&node, 0));
}

#[test]
fn scores_divs_correctly() {
    let html = "<html>
            <head />
            <body>
                <div><p><strong>strong text</strong></p></div>
                <div>
                    <p>Some text.</p>
                    <p>And some more.</p>
                </div>
                <div>no p</div>
            </body>
        </html>";

    let extractor = ArticleExtractor::new("http://www.example.com", html, false);

    let score = extractor.doc.score_divs();

    assert_eq!(score.len(), 2);
    assert_eq!(score[0].1, 24);
    assert_eq!(score[1].1, 11);
}
