use daily_stallman::dom::{get_attr, Dom};
use daily_stallman::images::{ImageResource, ImgDataSrcFilter};
use daily_stallman::srcset::image_from_srcset;

fn probe(url: &str, size: usize) -> ImageResource {
    ImageResource { url: url.to_string(), size_bytes: size, mime: "image/jpeg".to_string() }
}

fn first_img_src(dom: &Dom) -> Option<String> {
    let img = dom.nodes.iter().find(|n| n.name == "img").unwrap();
    get_attr(&img.attrs, "src")
}

#[test]
fn srcset_picks_the_largest_descriptor() {
    assert_eq!(image_from_srcset("a.jpg 100w b.jpg 300w c.jpg 200w").as_deref(), Some("b.jpg"));
    assert_eq!(image_from_srcset("a.jpg 1.5x b.jpg 1.25x").as_deref(), Some("a.jpg"));
    assert_eq!(image_from_srcset("a.jpg xyz b.jpg 1x").as_deref(), Some("b.jpg"));
    assert_eq!(image_from_srcset("only.png").as_deref(), Some("only.png"));
    assert_eq!(image_from_srcset("  "), None);
}

#[test]
fn placeholder_is_replaced_by_largest_data_image() {
    let mut dom = Dom::parse(
        "<img src='data:image/gif;base64,R0l' data-src='/big.jpg' data-small='http://cdn.example.com/s.jpg'>",
    );
    let filter = ImgDataSrcFilter::new("http://example.com/post/");
    let targets = filter.probe_targets(&dom, 0);
    assert!(targets.contains(&"http://example.com/big.jpg".to_string()));
    let probes = vec![probe("http://example.com/big.jpg", 90000), probe("http://cdn.example.com/s.jpg", 3000)];
    filter.run(&mut dom, 0, &probes);
    assert_eq!(first_img_src(&dom).as_deref(), Some("http://example.com/big.jpg"));
}

#[test]
fn large_source_images_are_kept() {
    let mut dom = Dom::parse("<img src='http://example.com/real.jpg' data-src='http://example.com/other.jpg'>");
    let probes = vec![probe("http://example.com/real.jpg", 5000), probe("http://example.com/other.jpg", 90000)];
    ImgDataSrcFilter::new("http://example.com/").run(&mut dom, 0, &probes);
    assert_eq!(first_img_src(&dom).as_deref(), Some("http://example.com/real.jpg"));
}

#[test]
fn small_or_unprobed_sources_are_placeholders() {
    let filter = ImgDataSrcFilter::new("http://example.com/");
    let probes = vec![probe("http://example.com/tiny.gif", 43)];
    assert!(filter.is_likely_placeholder(None, &probes));
    assert!(filter.is_likely_placeholder(Some(&"http://example.com/tiny.gif".to_string()), &probes));
    assert!(filter.is_likely_placeholder(Some(&"http://example.com/unknown.gif".to_string()), &probes));
    assert!(filter.is_likely_placeholder(Some(&"relative.gif".to_string()), &probes));
    let big = vec![probe("http://example.com/tiny.gif", 2000)];
    assert!(!filter.is_likely_placeholder(Some(&"http://example.com/tiny.gif".to_string()), &big));
}

#[test]
fn srcset_wins_over_data_attributes() {
    let mut dom = Dom::parse("<img data-srcset='s.jpg 10w l.jpg 20w' data-src='http://example.com/d.jpg'>");
    let probes = vec![probe("http://example.com/d.jpg", 99999)];
    ImgDataSrcFilter::new("http://example.com/").run(&mut dom, 0, &probes);
    assert_eq!(first_img_src(&dom).as_deref(), Some("l.jpg"));
}

#[test]
fn images_without_data_attributes_are_left_alone() {
    let mut dom = Dom::parse("<img src='data:x'>");
    ImgDataSrcFilter::new("http://example.com/").run(&mut dom, 0, &Vec::new());
    assert_eq!(first_img_src(&dom).as_deref(), Some("data:x"));
}
