use homepage::links::{choose_link, pick_best_link, resolve_url, score_link};

fn attribute(name: &str, value: &str) -> Vec<Option<String>> {
    vec![
        Some(format!("{}=\"{}\"", name, value)),
        Some(name.to_string()),
        Some(format!("\"{}\"", value)),
        Some(value.to_string()),
        None,
    ]
}

#[test]
fn scores() {
    assert_eq!(score_link("icon", None, "image/svg+xml"), Some(100_000));
    assert_eq!(score_link("icon", Some("512x512"), "image/svg+xml"), Some(100_000));
    assert_eq!(score_link("apple-touch-icon", Some("180x180"), ""), Some(90_180));
    assert_eq!(score_link("apple-touch-icon-precomposed", None, ""), Some(90_000));
    assert_eq!(score_link("icon", Some("32x32"), "image/png"), Some(10_032));
    assert_eq!(score_link("shortcut icon", None, ""), Some(10_000));
    assert_eq!(score_link("shortcut", None, ""), Some(10_000));
}

#[test]
fn relations_that_name_no_icon() {
    assert_eq!(score_link("stylesheet", None, ""), None);
    assert_eq!(score_link("mask-icon", None, "image/svg+xml"), None);
    assert_eq!(score_link("iconic", None, ""), None);
    assert_eq!(score_link("", None, "image/svg+xml"), None);
}

#[test]
fn vector_by_a_word_of_the_relation() {
    assert_eq!(score_link("icon svg-icon", Some("16x16"), ""), Some(100_000));
}

#[test]
fn sizes_that_are_no_numbers() {
    assert_eq!(score_link("icon", Some("any"), ""), Some(10_000));
    assert_eq!(score_link("icon", Some("32X32"), ""), Some(10_000));
    assert_eq!(score_link("icon", Some(" 32x32"), ""), Some(10_000));
    assert_eq!(score_link("icon", Some("x32"), ""), Some(10_000));
    assert_eq!(score_link("icon", Some("64"), ""), Some(10_064));
    assert_eq!(score_link("icon", Some("4294967296x1"), ""), Some(10_000));
}

#[test]
fn words_are_parted_by_white_space() {
    assert_eq!(score_link(" shortcut\ticon\n", None, ""), Some(10_000));
    assert_eq!(score_link("alternate\u{3000}icon", None, ""), Some(10_000));
}

#[test]
fn order_of_the_sorts() {
    let vector = score_link("icon", None, "image/svg+xml").unwrap();
    let touch = score_link("apple-touch-icon", Some("9999x9999"), "").unwrap();
    let plain = score_link("icon", Some("79999x1"), "").unwrap();
    assert!(vector > touch);
    assert!(touch > plain);
    assert!(vector > plain);
    assert!(
        score_link("icon", Some("192x192"), "") > score_link("icon", Some("48x48"), "")
    );
}

#[test]
fn references_are_resolved() {
    assert_eq!(
        resolve_url(" /icon.png ", "https://a.example"),
        Some("https://a.example/icon.png".to_string())
    );
    assert_eq!(
        resolve_url("icon.png?v=1", "https://a.example/app/index.html"),
        Some("https://a.example/app/icon.png?v=1".to_string())
    );
    assert_eq!(
        resolve_url("//cdn.example/i.svg", "https://a.example"),
        Some("https://cdn.example/i.svg".to_string())
    );
    assert_eq!(
        resolve_url("http://b.example/i.ico", "https://a.example"),
        Some("http://b.example/i.ico".to_string())
    );
    assert_eq!(resolve_url("/i.ico", "not a url"), None);
    assert_eq!(resolve_url("http://[", "https://a.example"), None);
}

#[test]
fn best_link_of_a_page() {
    let html = r#"<html><head>
        <link rel="stylesheet" href="/s.css">
        <LINK REL='shortcut icon' HREF='/favicon.ico'>
        <link rel="icon" sizes="192x192" href="/192.png" type="image/png"/>
        <link rel="apple-touch-icon"
              sizes="180x180" href="/touch.png">
        </head></html>"#;
    assert_eq!(
        pick_best_link(html, "https://a.example"),
        Some("https://a.example/touch.png".to_string())
    );
}

#[test]
fn vector_link_of_a_page() {
    let html = r#"<link rel="apple-touch-icon" sizes="180x180" href="/touch.png">
        <link rel="icon" type="IMAGE/SVG+XML" href="i.svg">"#;
    assert_eq!(
        pick_best_link(html, "https://a.example/app/"),
        Some("https://a.example/app/i.svg".to_string())
    );
}

#[test]
fn first_of_equal_links() {
    let html = r#"<link rel="icon" href="/1.png"><link rel="icon" href="/2.png">"#;
    assert_eq!(
        pick_best_link(html, "https://a.example"),
        Some("https://a.example/1.png".to_string())
    );
}

#[test]
fn last_of_repeated_attributes() {
    let html = r#"<link rel="icon" href="/1.png" href='/2.png'>"#;
    assert_eq!(
        pick_best_link(html, "https://a.example"),
        Some("https://a.example/2.png".to_string())
    );
}

#[test]
fn pages_without_an_icon() {
    assert_eq!(pick_best_link("", "https://a.example"), None);
    assert_eq!(pick_best_link("<link rel=icon href=/i.png>", "https://a.example"), None);
    assert_eq!(pick_best_link("<link rel=\"icon\">", "https://a.example"), None);
    assert_eq!(pick_best_link("<linkx rel=\"icon\" href=\"/i.png\">", "https://a.example"), None);
}

#[test]
fn link_that_cannot_be_resolved() {
    assert_eq!(pick_best_link("<link rel=\"icon\" href=\"http://[\">", "https://a.example"), None);
}

#[test]
fn choice_among_attributes() {
    let plain = vec![attribute("rel", "icon"), attribute("HREF", "a"), attribute("sizes", "64x64")];
    let touch = vec![attribute("Rel", "Apple-Touch-Icon"), attribute("href", "b")];
    let vector = vec![
        attribute("type", "Image/SVG+xml"),
        attribute("rel", "icon"),
        attribute("href", " c "),
    ];
    let bare = vec![attribute("rel", "icon"), attribute("type", "image/svg+xml")];
    assert_eq!(choose_link(&vec![plain.clone()]), Some("a".to_string()));
    assert_eq!(choose_link(&vec![plain.clone(), touch.clone()]), Some("b".to_string()));
    assert_eq!(choose_link(&vec![plain.clone(), vector, touch.clone()]), Some(" c ".to_string()));
    assert_eq!(choose_link(&vec![bare.clone(), plain]), Some("a".to_string()));
    assert_eq!(choose_link(&vec![bare]), None);
    assert_eq!(choose_link(&Vec::new()), None);
}

#[test]
fn values_in_single_quotes() {
    let href = vec![Some("href='x'".to_string()), Some("href".to_string()), Some("'x'".to_string()), None, Some("x".to_string())];
    let rel = attribute("rel", "icon");
    assert_eq!(choose_link(&vec![vec![href, rel]]), Some("x".to_string()));
}
