use daily_stallman::feed::parse_article_links;

#[test]
fn can_parse_article_links() {
    let desc = "<p>\nThe United States, European Union, United Kingdom, Canada, \
        and\nAustralia oppose the push for the WTO to waive patent restrictions and\n<a \
        href=\"https://www.commondreams.org/news/2020/11/20/rejecting-wto-drug-patent-waivers-\
        amid-pandemic-richest-nations-put-big-pharma\">allow all countries to make and use \
        Covid-19 vaccines without paying\nfor the privilege</a>.\n\n<p>\nIt is worth reminding \
        people that the WTO is the reason why most\ncountries allow medicines to be patented.  \
        That was a scheme to enrich\nbig pharma companies at the expense of people who can\'t \
        afford\nmonopolistic prices for drugs.  This system represents a decision to\nkill \
        millions of people, and is one of the reasons why we ought to\nabolish the WTO.\n\n\
        <p>\nCovid-19 vaccine developers are keeping the techniques of making them\nsecret \
        and <a href=\"https://www.theguardian.com/world/2020/nov/22/hackers-try-to-steal-covid\
        -vaccine-secrets-in-intellectual-property-war\">have the gall to criticize people for \
        trying to get those\nsecrets</a>.\n\n<p>\nThis information should be made available to \
        every would-be vaccine\nmanufacturer.\n\n<p>\nBoth of these articles used the \
        misleading term <a href=\"https://gnu.org/philosophy/not-ipr.html\">\"intellectual \
        property.\"</a>\n  The first uses it to mean patents.  The second uses it to mean \
        trade\nsecrets.  Patents and trade secrets are totally different and have\nnothing \
        whatsoever in common.\n\n<p>\nThe term lumps together patents with copyrights with \
        trade secrets\nwith trademarks, and some other things as well.  These laws are\n\
        totally different, so the term is sophisticated-sounding confusion.\n\n<p>\nWhen \
        someone uses the term \"intellectual property\", understand it to\nmean, \"I don\'t \
        know what I am talking about.\"\n\n\n\n";

    assert_eq!(
        parse_article_links(desc),
        vec![
            "https://www.commondreams.org/news/2020/11/20/rejecting-wto-drug-patent-\
                    waivers-amid-pandemic-richest-nations-put-big-pharma",
            "https://www.theguardian.com/world/2020/nov/22/hackers-try-to-steal-covid-\
                    vaccine-secrets-in-intellectual-property-war",
            "https://gnu.org/philosophy/not-ipr.html"
        ]
    )
}

#[test]
fn stallman_org_links_are_removed() {
    let desc = r#"I'm a <a href="https://stallman.org/archives/2018-sep-dec.html#26_October_
        2018_(Khashoggi_admission)">bad</a> link."#;

    assert!(parse_article_links(desc).is_empty());
}

#[test]
fn duplicate_links_are_kept_once_in_first_order() {
    let desc = r#"<a href="http://b.org/1">x</a> <a href="http://a.org/2">y</a>
        <a href="http://b.org/1">z</a> <a href="http://stallman.org/x">w</a>"#;
    assert_eq!(parse_article_links(desc), vec!["http://b.org/1", "http://a.org/2"]);
}

#[test]
fn own_site_is_told_by_host() {
    let desc = r#"<a href="https://user@stallman.org/x">a</a> <a href="HTTPS://STALLMAN.ORG/y">b</a>
        <a href="https://www.stallman.org/z">c</a> <a href="https://stallman.org.example.com/w">d</a>"#;
    assert_eq!(
        parse_article_links(desc),
        vec!["https://www.stallman.org/z", "https://stallman.org.example.com/w"]
    );
}
