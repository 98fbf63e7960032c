use daily_stallman::dom::{get_attr, Dom, NodeKind};
use daily_stallman::links::RelativeLinksFilter;

fn resolve(elem: &str, base: &str) -> String {
    let mut dom = Dom::parse(elem);
    RelativeLinksFilter::new(base).run(&mut dom, 0);
    let first = dom
        .nodes
        .iter()
        .find(|n| n.kind == NodeKind::Element && (n.name == "img" || n.name == "a" || n.name == "area"))
        .unwrap();
    let is_link = first.name != "img" && get_attr(&first.attrs, "href").is_some();
    let attr = if is_link { "href" } else { "src" };
    get_attr(&first.attrs, attr).unwrap()
}

#[test]
fn can_resolve_relative_links() {
    assert_eq!(
        resolve("<a href='img.png'/>", "http://example.com/folder/"),
        "http://example.com/folder/img.png"
    );

    assert_eq!(
        resolve("<img src='img.png'/>", "http://example.com/file"),
        "http://example.com/img.png"
    );

    assert_eq!(
        resolve(
            "<a href='http://site.com/img.png'/>",
            "http://example.com/file"
        ),
        "http://site.com/img.png"
    );

    assert_eq!(
        resolve(
            "<img src='../img.png'/>",
            "http://example.com/first/second/"
        ),
        "http://example.com/first/img.png"
    );

    assert_eq!(
        resolve("<a href='/img.png'/>", "http://example.com/first/second/"),
        "http://example.com/img.png"
    );
}
