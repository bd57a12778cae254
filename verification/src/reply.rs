//! What the server answers.

use vstd::prelude::*;

verus! {

/// An answer: its status, its headers and its body.
pub struct Reply {
    pub status: u16,
    pub headers: Vec<(&'static str, &'static str)>,
    pub body: Vec<u8>,
}

/// What a reply says.
#[verifier::ext_equal]
pub struct ReplyText {
    pub status: u16,
    pub headers: Seq<(Seq<char>, Seq<char>)>,
    pub body: Seq<u8>,
}

impl View for Reply {
    type V = ReplyText;

    open spec fn view(&self) -> ReplyText {
        ReplyText {
            status: self.status,
            headers: Seq::new(
                self.headers@.len(),
                |i: int| (self.headers@[i].0@, self.headers@[i].1@),
            ),
            body: self.body@,
        }
    }
}

/// An image: it may be kept for a week, its type is not to be guessed, and where it is a
/// document with scripts of its own, they do not run.
pub open spec fn image_reply(body: Seq<u8>, content_type: Seq<char>) -> ReplyText {
    ReplyText {
        status: 200,
        headers: seq![
            ("content-type"@, content_type),
            ("cache-control"@, "public, max-age=604800, immutable"@),
            (
                "content-security-policy"@,
                "default-src 'none'; img-src 'none'; style-src 'none'"@,
            ),
            ("x-content-type-options"@, "nosniff"@),
        ],
        body,
    }
}

/// The start page.
pub open spec fn page_reply(html: Seq<u8>) -> ReplyText {
    ReplyText {
        status: 200,
        headers: seq![("content-type"@, "text/html; charset=utf-8"@)],
        body: html,
    }
}

/// A status alone.
pub open spec fn bare_reply(status: u16) -> ReplyText {
    ReplyText { status, headers: seq![], body: seq![] }
}

/// The answer with an image.
pub fn icon_response(bytes: Vec<u8>, ctype: &'static str) -> (r: Reply)
    ensures
        r@ == image_reply(bytes@, ctype@),
{
    let mut headers: Vec<(&'static str, &'static str)> = Vec::new();
    headers.push(("content-type", ctype));
    headers.push(("cache-control", "public, max-age=604800, immutable"));
    headers.push(
        ("content-security-policy", "default-src 'none'; img-src 'none'; style-src 'none'"),
    );
    headers.push(("x-content-type-options", "nosniff"));
    let r = Reply { status: 200, headers, body: bytes };
    assert(r@ =~= image_reply(bytes@, ctype@));
    r
}

/// The answer with the start page.
pub fn index_response(html: &str) -> (r: Reply)
    ensures
        r@ == page_reply(vstd::utf8::encode_utf8(html@)),
{
    let mut headers: Vec<(&'static str, &'static str)> = Vec::new();
    headers.push(("content-type", "text/html; charset=utf-8"));
    let r = Reply { status: 200, headers, body: html.as_bytes_vec() };
    assert(r@ =~= page_reply(vstd::utf8::encode_utf8(html@)));
    r
}

/// The answer with a status alone.
pub fn status_response(status: u16) -> (r: Reply)
    ensures
        r@ == bare_reply(status),
{
    let r = Reply { status, headers: Vec::new(), body: Vec::new() };
    assert(r@ =~= bare_reply(status));
    r
}

/// A reply says its whole status, headers and body.
pub proof fn law_view_of_a_reply(reply: Reply, i: int)
    requires
        0 <= i < reply.headers@.len(),
    ensures
        reply@.status == reply.status,
        reply@.body == reply.body@,
        reply@.headers.len() == reply.headers@.len(),
        reply@.headers[i] == (reply.headers@[i].0@, reply.headers@[i].1@),
{
}

/// What an answer with an image is: the status 200, the image itself, its type, and leave to keep it
/// for a week.
pub proof fn law_images_are_answered_whole(body: Seq<u8>, content_type: Seq<char>)
    ensures
        image_reply(body, content_type).status == 200,
        image_reply(body, content_type).body == body,
        image_reply(body, content_type).headers.len() == 4,
        image_reply(body, content_type).headers.contains(("content-type"@, content_type)),
        image_reply(body, content_type).headers.contains(
            ("cache-control"@, "public, max-age=604800, immutable"@),
        ),
{
    let h = image_reply(body, content_type).headers;
    assert(h[0] == ("content-type"@, content_type));
    assert(h[1] == ("cache-control"@, "public, max-age=604800, immutable"@));
}

/// The start page is answered whole and as HTML in UTF-8, and a status alone with nothing else.
pub proof fn law_other_answers(html: Seq<u8>, status: u16)
    ensures
        page_reply(html).status == 200,
        page_reply(html).body == html,
        page_reply(html).headers.len() == 1,
        page_reply(html).headers.contains(("content-type"@, "text/html; charset=utf-8"@)),
        bare_reply(status).status == status,
        bare_reply(status).body.len() == 0,
        bare_reply(status).headers.len() == 0,
{
    assert(page_reply(html).headers[0] == ("content-type"@, "text/html; charset=utf-8"@));
}

/// Every image is answered with the headers that keep a document in it from running scripts.
pub proof fn law_images_run_nothing(body: Seq<u8>, content_type: Seq<char>)
    ensures
        image_reply(body, content_type).headers.contains(
            (
                "content-security-policy"@,
                "default-src 'none'; img-src 'none'; style-src 'none'"@,
            ),
        ),
        image_reply(body, content_type).headers.contains(("x-content-type-options"@, "nosniff"@)),
{
    let h = image_reply(body, content_type).headers;
    assert(h[2] == (
        "content-security-policy"@,
        "default-src 'none'; img-src 'none'; style-src 'none'"@,
    ));
    assert(h[3] == ("x-content-type-options"@, "nosniff"@));
}

} // verus!
