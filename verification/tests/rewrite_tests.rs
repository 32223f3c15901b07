use phisherman::rewrite::{append_pixel, rewrite_links};
use phisherman::text::push_dec;

fn bytes(s: &str) -> Vec<u8> {
    s.as_bytes().to_vec()
}

fn text(v: &[u8]) -> String {
    String::from_utf8(v.to_vec()).unwrap()
}

#[test]
fn decimal_rendering() {
    let mut v: Vec<u8> = Vec::new();
    push_dec(&mut v, 0);
    assert_eq!(text(&v), "0");
    let mut v: Vec<u8> = Vec::new();
    push_dec(&mut v, 12345);
    assert_eq!(text(&v), "12345");
    let mut v: Vec<u8> = Vec::new();
    push_dec(&mut v, u128::MAX);
    assert_eq!(text(&v), "340282366920938463463374607431768211455");
}

#[test]
fn two_anchors_rewritten_in_order() {
    let body = bytes(
        "<p>See <a href=\"https://a.com\">here</a> and <a href='https://b.com'>here</a></p>",
    );
    let base = bytes("http://localhost:3000");
    let r = rewrite_links(&body, &base, 7);
    assert_eq!(r.urls.len(), 2);
    assert_eq!(text(&r.urls[0]), "https://a.com");
    assert_eq!(text(&r.urls[1]), "https://b.com");
    assert_eq!(
        text(&r.body),
        "<p>See <a href=\"http://localhost:3000/click/7/0\">here</a> \
         and <a href='http://localhost:3000/click/7/1'>here</a></p>"
    );
}

#[test]
fn attributes_are_preserved_verbatim() {
    let body = bytes("<a class=\"x\" href=\"https://a.com\" id=\"y\">go</a>");
    let base = bytes("http://h");
    let r = rewrite_links(&body, &base, 3);
    assert_eq!(r.urls.len(), 1);
    assert_eq!(text(&r.urls[0]), "https://a.com");
    assert_eq!(
        text(&r.body),
        "<a class=\"x\" href=\"http://h/click/3/0\" id=\"y\">go</a>"
    );
}

#[test]
fn body_without_anchors_is_unchanged() {
    let body = bytes("<p>no links here, just text and an <img src=\"x\"> tag</p>");
    let base = bytes("http://h");
    let r = rewrite_links(&body, &base, 1);
    assert_eq!(r.urls.len(), 0);
    assert_eq!(r.body, body);
}

#[test]
fn empty_body_is_unchanged() {
    let body: Vec<u8> = Vec::new();
    let base = bytes("http://h");
    let r = rewrite_links(&body, &base, 1);
    assert_eq!(r.urls.len(), 0);
    assert!(r.body.is_empty());
}

#[test]
fn anchor_without_href_is_left_alone() {
    let body = bytes("<a name=\"top\">anchor</a> <a href=\"https://c.de\">c</a>");
    let base = bytes("http://h");
    let r = rewrite_links(&body, &base, 9);
    assert_eq!(r.urls.len(), 1);
    assert_eq!(text(&r.urls[0]), "https://c.de");
    assert_eq!(
        text(&r.body),
        "<a name=\"top\">anchor</a> <a href=\"http://h/click/9/0\">c</a>"
    );
}

#[test]
fn empty_href_value_is_not_an_anchor() {
    let body = bytes("<a href=\"\">x</a>");
    let base = bytes("http://h");
    let r = rewrite_links(&body, &base, 9);
    assert_eq!(r.urls.len(), 0);
    assert_eq!(r.body, body);
}

#[test]
fn duplicate_urls_get_independent_indices() {
    let body = bytes("<a href=\"https://a.com\">one</a><a href=\"https://a.com\">two</a>");
    let base = bytes("http://h");
    let r = rewrite_links(&body, &base, 5);
    assert_eq!(r.urls.len(), 2);
    assert_eq!(text(&r.urls[0]), "https://a.com");
    assert_eq!(text(&r.urls[1]), "https://a.com");
    assert_eq!(
        text(&r.body),
        "<a href=\"http://h/click/5/0\">one</a><a href=\"http://h/click/5/1\">two</a>"
    );
}

#[test]
fn pixel_is_appended() {
    let mut body = bytes("<p>hi</p>");
    let base = bytes("http://localhost:3000");
    append_pixel(&mut body, &base, 42);
    assert_eq!(
        text(&body),
        "<p>hi</p><img src=\"http://localhost:3000/track/42\" width=\"1\" height=\"1\" \
         alt=\"\" style=\"display:none;\" />"
    );
}
