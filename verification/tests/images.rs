use homepage::assets::{asset_response, asset_type, list_assets};
use homepage::media::{
    blank, count_blank, ctype_for_filename, ctype_kind, guess_from_magic, looks_like_image,
    response_kind,
};
use homepage::reply::{icon_response, index_response, status_response, Reply};
use homepage::startup::{choose_favicon, choose_index};

fn long(start: &[u8]) -> Vec<u8> {
    let mut bytes = start.to_vec();
    bytes.resize(64, b'x');
    bytes
}

fn header<'a>(reply: &'a Reply, name: &str) -> Option<&'a str> {
    reply.headers.iter().find(|h| h.0 == name).map(|h| h.1)
}

#[test]
fn type_by_file_name() {
    assert_eq!(ctype_for_filename("a.svg"), Some("image/svg+xml"));
    assert_eq!(ctype_for_filename("a.PNG"), Some("image/png"));
    assert_eq!(ctype_for_filename("a.jpg"), Some("image/jpeg"));
    assert_eq!(ctype_for_filename("a.JpEg"), Some("image/jpeg"));
    assert_eq!(ctype_for_filename("a.webp"), Some("image/webp"));
    assert_eq!(ctype_for_filename("a.gif"), Some("image/gif"));
    assert_eq!(ctype_for_filename("a.ico"), Some("image/x-icon"));
    assert_eq!(ctype_for_filename(".png"), Some("image/png"));
    assert_eq!(ctype_for_filename("png"), None);
    assert_eq!(ctype_for_filename("a.png.txt"), None);
    assert_eq!(ctype_for_filename(""), None);
}

#[test]
fn kind_by_content_type() {
    assert_eq!(ctype_kind("image/svg+xml"), Some(("svg", "image/svg+xml")));
    assert_eq!(ctype_kind(" Image/PNG ; charset=x"), Some(("png", "image/png")));
    assert_eq!(ctype_kind("image/webp"), Some(("webp", "image/webp")));
    assert_eq!(ctype_kind("image/jpeg"), Some(("jpg", "image/jpeg")));
    assert_eq!(ctype_kind("image/jpg"), Some(("jpg", "image/jpeg")));
    assert_eq!(ctype_kind("image/gif"), Some(("gif", "image/gif")));
    assert_eq!(ctype_kind("image/x-icon"), Some(("ico", "image/x-icon")));
    assert_eq!(ctype_kind("image/vnd.microsoft.icon"), Some(("ico", "image/x-icon")));
    assert_eq!(ctype_kind("image/icon"), Some(("ico", "image/x-icon")));
    assert_eq!(ctype_kind("text/html"), None);
    assert_eq!(ctype_kind("image/avif"), None);
    assert_eq!(ctype_kind(""), None);
    assert_eq!(ctype_kind(";image/png"), None);
}

#[test]
fn kind_by_first_bytes() {
    assert_eq!(guess_from_magic(&[0x89, b'P', b'N', b'G', 1]), ("png", "image/png"));
    assert_eq!(guess_from_magic(&[0xff, 0xd8, 0xff]), ("jpg", "image/jpeg"));
    assert_eq!(guess_from_magic(b"GIF89a"), ("gif", "image/gif"));
    assert_eq!(guess_from_magic(b"RIFF0000WEBP"), ("webp", "image/webp"));
    assert_eq!(guess_from_magic(b"RIFF0000WAVE"), ("ico", "image/x-icon"));
    assert_eq!(guess_from_magic(b"RIFF0000WEB"), ("ico", "image/x-icon"));
    assert_eq!(guess_from_magic(&[0, 0, 1, 0]), ("ico", "image/x-icon"));
    assert_eq!(guess_from_magic(b"<svg xmlns"), ("svg", "image/svg+xml"));
    assert_eq!(guess_from_magic(b"<?xml version"), ("svg", "image/svg+xml"));
    assert_eq!(guess_from_magic(b" <svg"), ("ico", "image/x-icon"));
    assert_eq!(guess_from_magic(b""), ("ico", "image/x-icon"));
}

#[test]
fn content_type_comes_before_the_bytes() {
    assert_eq!(response_kind("image/png", b"GIF89a"), ("png", "image/png"));
    assert_eq!(response_kind("application/octet-stream", b"GIF89a"), ("gif", "image/gif"));
    assert_eq!(response_kind("", b"GIF89a"), ("gif", "image/gif"));
}

#[test]
fn kinds_and_file_names_agree() {
    for (content_type, bytes) in
        [("image/jpg", &b""[..]), ("", b"<svg"), ("image/webp; q=1", b""), ("", b"?")]
    {
        let (extension, kind) = response_kind(content_type, bytes);
        assert_eq!(ctype_for_filename(&format!("0123.{}", extension)), Some(kind));
    }
}

#[test]
fn short_bytes_are_no_image() {
    assert!(!looks_like_image(&[0x89; 31], Some("image/png")));
    assert!(looks_like_image(&[0x89; 32], Some("image/png")));
}

#[test]
fn html_is_no_image() {
    assert!(!looks_like_image(&long(b"<!DOCTYPE html>"), Some("image/png")));
    assert!(!looks_like_image(&long(b" \r\n\t<html>"), Some("image/svg+xml")));
    assert!(!looks_like_image(&long(b"<HTML>"), None));
    assert!(!looks_like_image(&long(b"<"), Some("image/svg+xml")));
}

#[test]
fn vector_images_are_told_by_their_type() {
    assert!(looks_like_image(&long(b"<svg xmlns"), Some("image/svg+xml")));
    assert!(looks_like_image(&long(b"\n<SVG xmlns"), Some("image/svg+xml")));
    assert!(looks_like_image(&long(b"<?xml version='1.0'?><svg xmlns"), None));
    assert!(looks_like_image(&long(b"<svg xmlns"), None));
    assert!(looks_like_image(&long(b"<?xml version"), Some("image/svg+xml")));
    assert!(!looks_like_image(&long(b"<svg xmlns"), Some("image/png")));
    assert!(!looks_like_image(&long(b"<?xml version"), Some("text/xml")));
}

#[test]
fn xml_head_alone_is_no_image() {
    let page = b"<?xml version='1.0'?><html><body></body></html>";
    assert!(!looks_like_image(page, None));
    assert!(!looks_like_image(&long(b"<?xml version"), None));
    assert!(!looks_like_image(b"<?xml version='1.0'?><HTML><body><svg></svg></body></HTML>", None));
    assert!(looks_like_image(b"<?xml version='1.0'?><!-- a comment --><SVG></SVG>", None));
}

#[test]
fn comments_show_nothing() {
    assert!(looks_like_image(b"<?xml version='1.0'?><!-- <html> --><svg></svg>", None));
    assert!(!looks_like_image(b"<?xml version='1.0'?><!-- <svg> --><html></html>", None));
    assert!(!looks_like_image(b"<?xml version='1.0'?><!-- <svg></svg> without an end", None));
}

#[test]
fn elements_may_have_a_prefix() {
    assert!(looks_like_image(b"<?xml version='1.0'?><s:svg xmlns:s='x'></s:svg>", None));
    assert!(!looks_like_image(b"<?xml version='1.0'?><h:html><s:svg/></h:html>", None));
    assert!(looks_like_image(b"<?xml version='1.0'?><htmlish/><svg></svg>", None));
    assert!(!looks_like_image(b"<?xml version='1.0'?><?a:svg?><other></other>", None));
}

#[test]
fn doctype_shows_nothing() {
    let text = b"<?xml version='1.0'?><!DOCTYPE svg [ <!ENTITY a 'b'> ]>\n<svg></svg>";
    assert!(looks_like_image(text, None));
    assert!(!looks_like_image(b"<?xml version='1.0'?><!DOCTYPE html><html><svg/></html>", None));
    assert!(!looks_like_image(b"<?xml version='1.0'?><!DOCTYPE svg><other></other>", None));
}

#[test]
fn blank_bytes_alone_are_taken_as_they_are() {
    assert!(looks_like_image(&[b' '; 40], Some("image/png")));
    assert_eq!(count_blank(b" \t\n\r\x0cx "), 5);
    assert_eq!(count_blank(b"\x0b"), 0);
    assert!(blank(b' '));
    assert!(!blank(0x0b));
}

#[test]
fn image_is_answered_with_its_headers() {
    let reply = icon_response(vec![1, 2, 3], "image/svg+xml");
    assert_eq!(reply.status, 200);
    assert_eq!(reply.body, vec![1, 2, 3]);
    assert_eq!(reply.headers.len(), 4);
    assert_eq!(header(&reply, "content-type"), Some("image/svg+xml"));
    assert_eq!(header(&reply, "cache-control"), Some("public, max-age=604800, immutable"));
    assert_eq!(
        header(&reply, "content-security-policy"),
        Some("default-src 'none'; img-src 'none'; style-src 'none'")
    );
    assert_eq!(header(&reply, "x-content-type-options"), Some("nosniff"));
}

#[test]
fn page_is_answered_as_html() {
    let reply = index_response("<p>主页</p>");
    assert_eq!(reply.status, 200);
    assert_eq!(reply.headers, vec![("content-type", "text/html; charset=utf-8")]);
    assert_eq!(reply.body, "<p>主页</p>".as_bytes().to_vec());
}

#[test]
fn status_alone() {
    let reply = status_response(204);
    assert_eq!(reply.status, 204);
    assert!(reply.headers.is_empty());
    assert!(reply.body.is_empty());
}

#[test]
fn listing_holds_the_images_in_order() {
    let names = ["b.png", "notes.txt", "a.svg", "B.PNG", "a.png", "图.ico", "a.svg.bak"];
    let list = list_assets(names.iter().map(|n| n.to_string()).collect());
    assert_eq!(list, vec!["B.PNG", "a.png", "a.svg", "b.png", "图.ico"]);
}

#[test]
fn listing_does_not_depend_on_the_order_of_reading() {
    let one = list_assets(vec!["c.png".to_string(), "a.png".to_string(), "b.png".to_string()]);
    let two = list_assets(vec!["b.png".to_string(), "c.png".to_string(), "a.png".to_string()]);
    assert_eq!(one, two);
    assert_eq!(one, vec!["a.png", "b.png", "c.png"]);
    assert!(list_assets(Vec::new()).is_empty());
}

#[test]
fn listing_orders_by_bytes_as_strings_do() {
    let names: Vec<String> =
        ["é.png", "z.png", "Z.png", "\u{1F600}.png", "\u{FFFD}.png", "zz.png"]
            .iter()
            .map(|n| n.to_string())
            .collect();
    let mut sorted = names.clone();
    sorted.sort();
    assert_eq!(list_assets(names), sorted);
}

#[test]
fn names_that_lead_elsewhere_are_refused() {
    for name in ["", "a/b.png", "/a.png", "..", "../a.png", "a\\b.png", "a..png"] {
        assert_eq!(asset_type(name), Err(400), "{}", name);
    }
}

#[test]
fn files_that_are_no_images_are_not_found() {
    assert_eq!(asset_type("notes.txt"), Err(404));
    assert_eq!(asset_type("png"), Err(404));
}

#[test]
fn images_are_served() {
    assert_eq!(asset_type("a.b.png"), Ok("image/png"));
    let reply = asset_response("image/png", Some(vec![7]));
    assert_eq!(reply.status, 200);
    assert_eq!(reply.body, vec![7]);
    assert_eq!(header(&reply, "content-type"), Some("image/png"));
    assert_eq!(asset_response("image/png", None).status, 404);
}

#[test]
fn listed_names_are_served() {
    for name in list_assets(vec!["x.gif".to_string(), "y.JPEG".to_string()]) {
        assert!(asset_type(&name).is_ok());
    }
}

#[test]
fn start_page_of_the_operator() {
    assert_eq!(choose_index(Some(" <p>mine</p>\n".to_string()), "built in"), " <p>mine</p>\n");
    assert_eq!(choose_index(Some(" \n\u{3000}".to_string()), "built in"), "built in");
    assert_eq!(choose_index(Some(String::new()), "built in"), "built in");
    assert_eq!(choose_index(None, "built in"), "built in");
}

#[test]
fn icon_of_the_operator() {
    assert_eq!(choose_favicon(Some(vec![b' ']), b"built in"), vec![b' ']);
    assert_eq!(choose_favicon(Some(Vec::new()), b"built in"), b"built in".to_vec());
    assert_eq!(choose_favicon(None, b"built in"), b"built in".to_vec());
}
