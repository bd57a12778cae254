use homepage::icon::{
    best_icon_from_html, cache_file, follow, hop_of, judge_icon, plan_request, request_from_parts,
    Action, Client, Event, Hop, IconJob, Request, Settings, CACHE_KINDS, MAX_REQUESTS, PAGE_LIMIT,
};
use homepage::ip::parse_lan_cidrs;
use homepage::reply::Reply;

const ORIGIN: &str = "https://app.nas.lan:8443";
const KEY: &str = "98f6eb3f5481dab33a1ca699e35164e3271235ed";

fn settings(cookie_domain: &str, networks: &str) -> Settings {
    Settings { cookie_domain: cookie_domain.to_string(), lan_cidrs: parse_lan_cidrs(networks) }
}

fn svg() -> Vec<u8> {
    b"<svg xmlns=\"http://www.w3.org/2000/svg\"></svg>".to_vec()
}

fn arrived(content_type: &str) -> Event {
    Event::Response { status: 200, location: None, content_type: Some(content_type.to_string()) }
}

fn moved_to(location: &str) -> Event {
    Event::Response { status: 302, location: Some(location.to_string()), content_type: None }
}

fn file(action: Action) -> String {
    match action {
        Action::ReadFile(name) => name,
        _ => panic!("no file is read"),
    }
}

fn sent(action: Action) -> Request {
    match action {
        Action::Send(request) => request,
        _ => panic!("nothing is sent"),
    }
}

fn answer(action: Action) -> (Reply, Option<String>) {
    match action {
        Action::Answer { reply, keep } => (reply, keep),
        _ => panic!("nothing is answered"),
    }
}

fn reads_body(action: Action) -> bool {
    matches!(action, Action::ReadBody { .. })
}

/// A job whose icon is not in the cache, and what it does then.
fn uncached(url: &str, cookies: Option<&str>, settings: &Settings) -> (IconJob, Action) {
    let (mut job, first) = IconJob::start(url, cookies);
    file(first);
    for _ in 1..CACHE_KINDS {
        file(job.step(Event::File(None), settings));
    }
    let next = job.step(Event::File(None), settings);
    (job, next)
}

#[test]
fn address_without_an_origin_is_refused() {
    for url in ["app.nas.lan", "ftp://app.nas.lan", "https://", ""] {
        let (_, action) = IconJob::start(url, None);
        let (reply, keep) = answer(action);
        assert_eq!(reply.status, 400);
        assert_eq!(keep, None);
    }
}

#[test]
fn cache_is_read_first() {
    let s = settings("", "");
    let (mut job, first) = IconJob::start("https://app.nas.lan:8443/login?x", None);
    let mut names = vec![file(first)];
    for _ in 1..CACHE_KINDS {
        names.push(file(job.step(Event::File(None), &s)));
    }
    let expected: Vec<String> = ["svg", "png", "ico", "webp", "jpg", "gif"]
        .iter()
        .map(|e| format!("{}.{}", KEY, e))
        .collect();
    assert_eq!(names, expected);
    assert_eq!(sent(job.step(Event::File(None), &s)).url, ORIGIN);
}

#[test]
fn cached_icon_needs_no_request() {
    let s = settings("", "");
    let types = [
        "image/svg+xml",
        "image/png",
        "image/x-icon",
        "image/webp",
        "image/jpeg",
        "image/gif",
    ];
    for missing in 0..CACHE_KINDS {
        let (mut job, _) = IconJob::start(ORIGIN, None);
        for _ in 0..missing {
            file(job.step(Event::File(None), &s));
        }
        let (reply, keep) = answer(job.step(Event::File(Some(vec![1, 2])), &s));
        assert_eq!(reply.status, 200);
        assert_eq!(reply.headers[0], ("content-type", types[missing]));
        assert_eq!(reply.body, vec![1, 2]);
        assert_eq!(keep, None);
    }
}

#[test]
fn refused_origin_is_not_found() {
    let s = settings("", "192.168.0.0/16");
    for url in ["http://10.0.0.1", "http://127.0.0.1:80", "http://authelia", "http://[::1]"] {
        let (_, action) = uncached(url, None, &s);
        let (reply, keep) = answer(action);
        assert_eq!(reply.status, 404);
        assert_eq!(keep, None);
    }
}

#[test]
fn icon_that_the_page_links_to() {
    let s = settings(".nas.lan", "");
    let (mut job, action) = uncached(ORIGIN, Some("a=b; authelia_session=XYZ"), &s);
    let request = sent(action);
    assert_eq!(request.url, ORIGIN);
    assert_eq!(request.cookie, Some("authelia_session=XYZ".to_string()));
    assert!(request.client == Client::Strict);
    assert!(reads_body(job.step(arrived("text/html"), &s)));
    let html = b"<link rel=\"icon\" type=\"image/svg+xml\" href=\"/i.svg\">".to_vec();
    let request = sent(job.step(Event::Body(Some(html)), &s));
    assert_eq!(request.url, "https://app.nas.lan:8443/i.svg");
    assert_eq!(request.cookie, Some("authelia_session=XYZ".to_string()));
    assert!(reads_body(job.step(arrived("image/svg+xml"), &s)));
    let (reply, keep) = answer(job.step(Event::Body(Some(svg())), &s));
    assert_eq!(reply.status, 200);
    assert_eq!(reply.headers[0], ("content-type", "image/svg+xml"));
    assert_eq!(reply.body, svg());
    assert_eq!(keep, Some(format!("{}.svg", KEY)));
}

#[test]
fn kept_icon_is_found_again() {
    let s = settings("", "");
    let (mut job, _) = uncached(ORIGIN, None, &s);
    let next = sent(job.step(Event::NoResponse, &s));
    assert_eq!(next.url, "https://app.nas.lan:8443/favicon.ico");
    assert!(reads_body(job.step(arrived(""), &s)));
    let png = {
        let mut b = vec![0x89, b'P', b'N', b'G'];
        b.resize(40, 0);
        b
    };
    let (reply, keep) = answer(job.step(Event::Body(Some(png.clone())), &s));
    let name = keep.unwrap();
    assert_eq!(name, format!("{}.png", KEY));
    let (mut again, first) = IconJob::start(ORIGIN, None);
    let mut wanted = file(first);
    while wanted != name {
        wanted = file(again.step(Event::File(None), &s));
    }
    let (second, keep) = answer(again.step(Event::File(Some(png)), &s));
    assert_eq!(second.status, reply.status);
    assert_eq!(second.headers, reply.headers);
    assert_eq!(second.body, reply.body);
    assert_eq!(keep, None);
}

#[test]
fn cookie_does_not_follow_a_link_out_of_the_domain() {
    let s = settings(".nas.lan", "");
    let (mut job, _) = uncached(ORIGIN, Some("authelia_session=XYZ"), &s);
    assert!(reads_body(job.step(arrived("text/html"), &s)));
    let html = b"<link rel=\"icon\" href=\"https://other.example/i.png\">".to_vec();
    let request = sent(job.step(Event::Body(Some(html)), &s));
    assert_eq!(request.url, "https://other.example/i.png");
    assert_eq!(request.cookie, None);
}

#[test]
fn cookie_does_not_follow_a_redirect_out_of_the_domain() {
    let s = settings(".nas.lan", "");
    let (mut job, _) = uncached(ORIGIN, Some("authelia_session=XYZ"), &s);
    let request = sent(job.step(moved_to("https://other.example/"), &s));
    assert_eq!(request.url, "https://other.example/");
    assert_eq!(request.cookie, None);
    let request = sent(job.step(moved_to("https://app.nas.lan/"), &s));
    assert_eq!(request.cookie, Some("authelia_session=XYZ".to_string()));
}

#[test]
fn redirect_to_the_inside_ends_the_way() {
    let s = settings("", "");
    let (mut job, _) = uncached(ORIGIN, None, &s);
    let request = sent(job.step(moved_to("http://169.254.169.254/latest"), &s));
    assert_eq!(request.url, "https://app.nas.lan:8443/favicon.ico");
    let (reply, _) = answer(job.step(moved_to("http://caddy/"), &s));
    assert_eq!(reply.status, 404);
}

#[test]
fn link_to_the_inside_falls_back() {
    let s = settings("", "");
    let (mut job, _) = uncached(ORIGIN, None, &s);
    assert!(reads_body(job.step(arrived("text/html"), &s)));
    let html = b"<link rel=\"icon\" href=\"http://10.0.0.1/i.png\">".to_vec();
    let request = sent(job.step(Event::Body(Some(html)), &s));
    assert_eq!(request.url, "https://app.nas.lan:8443/favicon.ico");
}

#[test]
fn redirects_are_limited() {
    let s = settings("", "");
    let (mut job, action) = uncached(ORIGIN, None, &s);
    let mut requests: u8 = 1;
    let mut last = sent(action).url;
    loop {
        let next = sent(job.step(moved_to(&format!("/{}", requests)), &s)).url;
        if next.ends_with("/favicon.ico") {
            break;
        }
        requests += 1;
        last = next;
    }
    assert_eq!(requests, MAX_REQUESTS);
    assert_eq!(last, "https://app.nas.lan:8443/4");
}

#[test]
fn job_makes_at_most_fifteen_requests() {
    let s = settings("", "");
    let (mut job, mut action) = uncached(ORIGIN, None, &s);
    let html = b"<link rel=\"icon\" href=\"/i.png\">".to_vec();
    let mut requests = 0;
    let mut on_page = true;
    let mut way = 0;
    loop {
        match action {
            Action::Send(_) => {
                requests += 1;
                way += 1;
                if way < 5 {
                    action = job.step(moved_to("/again"), &s);
                } else if on_page {
                    action = job.step(arrived("text/html"), &s);
                } else {
                    way = 0;
                    action = job.step(moved_to("/again"), &s);
                }
            }
            Action::ReadBody { .. } => {
                on_page = false;
                way = 0;
                action = job.step(Event::Body(Some(html.clone())), &s);
            }
            Action::Answer { reply, keep } => {
                assert_eq!(reply.status, 404);
                assert_eq!(keep, None);
                break;
            }
            Action::ReadFile(_) => panic!("the cache was read"),
        }
    }
    assert_eq!(requests, 15);
}

#[test]
fn customary_place_is_tried_last() {
    let s = settings("", "");
    for event in [
        Event::NoResponse,
        Event::Response { status: 404, location: None, content_type: None },
        Event::Response { status: 500, location: Some("/x".to_string()), content_type: None },
        Event::Response { status: 302, location: None, content_type: None },
        moved_to("http://["),
    ] {
        let (mut job, _) = uncached(ORIGIN, None, &s);
        let request = sent(job.step(event, &s));
        assert_eq!(request.url, "https://app.nas.lan:8443/favicon.ico");
        let (reply, keep) = answer(job.step(Event::NoResponse, &s));
        assert_eq!(reply.status, 404);
        assert_eq!(keep, None);
    }
}

#[test]
fn login_page_is_no_icon() {
    let s = settings("", "");
    let (mut job, _) = uncached(ORIGIN, None, &s);
    sent(job.step(Event::NoResponse, &s));
    assert!(reads_body(job.step(arrived("image/png"), &s)));
    let page = b"<!DOCTYPE html><html><head><title>Login</title></head></html>".to_vec();
    let (reply, keep) = answer(job.step(Event::Body(Some(page)), &s));
    assert_eq!(reply.status, 404);
    assert_eq!(keep, None);
}

#[test]
fn body_that_cannot_be_read_falls_back() {
    let s = settings("", "");
    let (mut job, _) = uncached(ORIGIN, None, &s);
    assert!(reads_body(job.step(arrived("text/html"), &s)));
    let request = sent(job.step(Event::Body(None), &s));
    assert_eq!(request.url, "https://app.nas.lan:8443/favicon.ico");
}

#[test]
fn unexpected_event_ends_the_job() {
    let s = settings("", "");
    let (mut job, _) = IconJob::start(ORIGIN, None);
    assert_eq!(answer(job.step(Event::NoResponse, &s)).0.status, 404);
    assert_eq!(answer(job.step(Event::File(None), &s)).0.status, 404);
}

#[test]
fn certificates_are_relaxed_for_the_networks_alone() {
    let s = settings("", "192.168.0.0/16");
    let request = plan_request("https://192.168.1.2:5001/", None, &s).unwrap();
    assert!(request.client == Client::Lan);
    let request = plan_request("https://nas.lan/", None, &s).unwrap();
    assert!(request.client == Client::Strict);
    let request = plan_request("https://8.8.8.8/", None, &s).unwrap();
    assert!(request.client == Client::Strict);
    assert!(plan_request("https://10.0.0.1/", None, &s).is_none());
    assert!(plan_request("nonsense", None, &s).is_none());
}

#[test]
fn request_for_given_parts() {
    let s = settings("nas.lan", "192.168.0.0/16");
    let host = Some("app.nas.lan".to_string());
    let request = request_from_parts("https://app.nas.lan/x", "https", &host, Some("S"), &s).unwrap();
    assert_eq!(request.url, "https://app.nas.lan/x");
    assert_eq!(request.cookie, Some("authelia_session=S".to_string()));
    assert!(request.client == Client::Strict);
    let host = Some("192.168.7.7".to_string());
    let request = request_from_parts("http://192.168.7.7", "http", &host, Some("S"), &s).unwrap();
    assert_eq!(request.cookie, None);
    assert!(request.client == Client::Lan);
    assert!(request_from_parts("ftp://192.168.7.7", "ftp", &host, None, &s).is_none());
    assert!(request_from_parts("http:", "http", &None, None, &s).is_none());
}

#[test]
fn where_responses_lead() {
    assert!(matches!(hop_of(200, None), Hop::Arrived));
    assert!(matches!(hop_of(299, Some("x".to_string())), Hop::Arrived));
    assert!(matches!(hop_of(301, Some("x".to_string())), Hop::Redirect(u) if u == "x"));
    assert!(matches!(hop_of(399, None), Hop::Lost));
    assert!(matches!(hop_of(400, Some("x".to_string())), Hop::Lost));
    assert!(matches!(hop_of(199, Some("x".to_string())), Hop::Lost));
}

#[test]
fn locations_are_seen_from_the_request() {
    let hop = follow("https://a.example/x/y", 302, Some(" z?q "));
    assert!(matches!(hop, Hop::Redirect(u) if u == "https://a.example/x/z?q"));
    let hop = follow("https://a.example/x/y", 307, Some("//b.example"));
    assert!(matches!(hop, Hop::Redirect(u) if u == "https://b.example/"));
    assert!(matches!(follow("https://a.example", 302, None), Hop::Lost));
    assert!(matches!(follow("https://a.example", 200, Some("/z")), Hop::Arrived));
}

#[test]
fn first_bytes_of_a_long_page() {
    let link = b"<link rel=\"icon\" href=\"/i.png\">";
    let mut page = link.to_vec();
    page.resize(PAGE_LIMIT, b' ');
    let found = Some("https://a.example/i.png".to_string());
    assert_eq!(best_icon_from_html(&page, "https://a.example"), found);
    page.extend_from_slice(b"<link rel=\"icon\" type=\"image/svg+xml\" href=\"/late.svg\">");
    assert_eq!(best_icon_from_html(&page, "https://a.example"), found);
    let mut late = vec![b' '; PAGE_LIMIT];
    late.extend_from_slice(link);
    assert_eq!(best_icon_from_html(&late, "https://a.example"), None);
    let mut cut = vec![b' '; PAGE_LIMIT - link.len() + 1];
    cut.extend_from_slice(link);
    assert_eq!(best_icon_from_html(&cut, "https://a.example"), None);
}

#[test]
fn page_is_read_to_its_limit_and_an_icon_whole() {
    let s = settings("", "");
    let (mut job, _) = uncached(ORIGIN, None, &s);
    match job.step(arrived("text/html"), &s) {
        Action::ReadBody { at_most } => assert_eq!(at_most, Some(PAGE_LIMIT)),
        _ => panic!("no body is read"),
    }
    sent(job.step(Event::Body(None), &s));
    match job.step(arrived("image/png"), &s) {
        Action::ReadBody { at_most } => assert_eq!(at_most, None),
        _ => panic!("no body is read"),
    }
}

#[test]
fn undeclared_xml_page_is_no_icon() {
    let page = b"<?xml version='1.0'?><html><head><title>Login</title></head></html>";
    assert_eq!(judge_icon("text/html", page), None);
    assert_eq!(judge_icon("", page), None);
    let image = b"<?xml version='1.0'?><svg xmlns='http://www.w3.org/2000/svg'></svg>";
    assert_eq!(judge_icon("text/xml", image), Some(("svg", "image/svg+xml")));
}

#[test]
fn user_in_an_address_is_dropped() {
    let s = settings("", "");
    let (_, action) = uncached("https://user:pw@app.nas.lan:8443/x", None, &s);
    assert_eq!(sent(action).url, ORIGIN);
}

#[test]
fn page_that_is_not_quite_utf8() {
    let mut page = vec![0xff, 0xfe];
    page.extend_from_slice("<link rel=\"icon\" href=\"/图\u{20}".as_bytes());
    page.push(0x80);
    page.extend_from_slice(b".png\">");
    assert_eq!(
        best_icon_from_html(&page, "https://a.example"),
        Some("https://a.example/%E5%9B%BE%20%EF%BF%BD.png".to_string())
    );
}

#[test]
fn bodies_are_judged() {
    assert_eq!(judge_icon("image/svg+xml", &svg()), Some(("svg", "image/svg+xml")));
    assert_eq!(judge_icon("text/plain", &svg()), Some(("svg", "image/svg+xml")));
    assert_eq!(judge_icon("image/png", &svg()), None);
    assert_eq!(judge_icon("image/png", &[0x89; 31]), None);
    assert_eq!(judge_icon("", &[1; 32]), Some(("ico", "image/x-icon")));
}

#[test]
fn names_of_cached_files() {
    assert_eq!(cache_file(KEY, "png"), "98f6eb3f5481dab33a1ca699e35164e3271235ed.png");
}
