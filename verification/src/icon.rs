//! Fetching the icon of a site: what is read, what is requested, and what is answered in the end.
//!
//! A job hands out one action at a time and is told what came of it. It looks into the cache,
//! then reads the site's page for the best icon that it links to, and falls back on
//! `/favicon.ico`. Every URL that it requests, each redirect on the way among them, has passed
//! the egress check and gets a session cookie and relaxed certificate checks by its own host.

use vstd::prelude::*;
use vstd::slice::slice_subrange;

use crate::assets::is_plain_name;
use crate::cookie::{cookie_for, cookie_text, extract_authelia_session, session_cookie};
use crate::egress::{
    egress_allowed, host_is_lan_literal, parts_allowed, parts_lan_literal, parts_may_be_fetched,
    read_url, url_allowed, url_parts,
};
use crate::ip::{all_wf, Cidr};
use crate::links::{best_icon_url, join_url, pick_best_link, url_join};
use crate::media::{
    content, ctype_kind, holds_svg, image_like, kind_of, kind_of_bytes, kind_of_type,
    law_html_is_no_image, law_types_by_ending, looks_like_image, opens_as_page, response_kind,
    type_of_name,
};
use crate::origin::{law_origin_drops_the_rest, origin_text, parse_origin};
use crate::reply::{bare_reply, icon_response, image_reply, status_response, Reply, ReplyText};
use crate::sha1::{hex_text, law_hex_injective, lemma_hex_is_plain, sha1_digest, sha1_hex};
use crate::text::{
    chars_of, copy_of, find_any, is_white, lower_all, occurs_at, owned_text, string_of, text_of, trim,
    trimmed,
};

verus! {

// ---- Configuration and data ----

/// What the operator configured.
pub struct Settings {
    /// The domain whose hosts get the session cookie; empty for none.
    pub cookie_domain: String,
    /// The networks of addresses that are not public and may be fetched from.
    pub lan_cidrs: Vec<Cidr>,
}

/// How the certificate of a host is checked.
#[derive(Clone, Copy, PartialEq, Eq, Structural)]
pub enum Client {
    /// As everywhere on the web.
    Strict,
    /// Also one that no public authority signed.
    Lan,
}

/// A request to send.
pub struct Request {
    pub url: String,
    pub client: Client,
    pub cookie: Option<String>,
}

/// What a request says.
#[verifier::ext_equal]
pub struct RequestText {
    pub url: Seq<char>,
    pub client: Client,
    pub cookie: Option<Seq<char>>,
}

impl View for Request {
    type V = RequestText;

    open spec fn view(&self) -> RequestText {
        RequestText { url: self.url@, client: self.client, cookie: owned_text(self.cookie) }
    }
}

/// What a job is after.
#[derive(Clone, Copy, PartialEq, Eq, Structural)]
pub enum Goal {
    /// The page of the site.
    Page,
    /// The icon that the page links to.
    Linked,
    /// The icon at its customary place.
    Customary,
}

/// What came of an action.
pub enum Event {
    /// What a file holds, or nothing where it cannot be read.
    File(Option<Vec<u8>>),
    /// The request got no response.
    NoResponse,
    /// The head of a response.
    Response { status: u16, location: Option<String>, content_type: Option<String> },
    /// The body of the last response as far as it was asked for, or nothing where it cannot be read.
    Body(Option<Vec<u8>>),
}

/// What an event says.
pub enum EventText {
    File(Option<Seq<u8>>),
    NoResponse,
    Response { status: u16, location: Option<Seq<char>>, content_type: Option<Seq<char>> },
    Body(Option<Seq<u8>>),
}

/// The bytes that an optional vector holds.
pub open spec fn owned_bytes(o: Option<Vec<u8>>) -> Option<Seq<u8>> {
    match o {
        Some(b) => Some(b@),
        None => None,
    }
}

impl View for Event {
    type V = EventText;

    open spec fn view(&self) -> EventText {
        match *self {
            Event::File(b) => EventText::File(owned_bytes(b)),
            Event::NoResponse => EventText::NoResponse,
            Event::Response { status, location, content_type } => EventText::Response {
                status,
                location: owned_text(location),
                content_type: owned_text(content_type),
            },
            Event::Body(b) => EventText::Body(owned_bytes(b)),
        }
    }
}

/// What is to be done next.
pub enum Action {
    /// Read a file of the cache.
    ReadFile(String),
    /// Send a request without following redirects.
    Send(Request),
    /// Read the body of the response, or its first bytes where no more of them are of use.
    ReadBody { at_most: Option<usize> },
    /// Answer, and keep the body of the answer in a file of the cache if one is named.
    Answer { reply: Reply, keep: Option<String> },
}

/// What an action says.
pub enum ActionText {
    ReadFile(Seq<char>),
    Send(RequestText),
    ReadBody { at_most: Option<usize> },
    Answer { reply: ReplyText, keep: Option<Seq<char>> },
}

impl View for Action {
    type V = ActionText;

    open spec fn view(&self) -> ActionText {
        match *self {
            Action::ReadFile(name) => ActionText::ReadFile(name@),
            Action::Send(request) => ActionText::Send(request@),
            Action::ReadBody { at_most } => ActionText::ReadBody { at_most },
            Action::Answer { reply, keep } => ActionText::Answer {
                reply: reply@,
                keep: owned_text(keep),
            },
        }
    }
}

/// Where a job stands.
enum Phase {
    Cache { tried: usize },
    Sending { goal: Goal, url: String, sent: u8 },
    Reading { goal: Goal, content_type: String },
    Done,
}

/// Where a job stands.
pub enum PhaseText {
    /// The file of the cache with this number is being read.
    Cache { tried: int },
    /// The request with this number on the way to the goal is out.
    Sending { goal: Goal, url: Seq<char>, sent: int },
    /// The body of the response is being read.
    Reading { goal: Goal, content_type: Seq<char> },
    /// The answer was given.
    Done,
}

/// The job of fetching one icon.
pub struct IconJob {
    origin: String,
    key: String,
    session: Option<String>,
    phase: Phase,
}

/// What a job knows.
pub struct JobText {
    pub origin: Seq<char>,
    pub key: Seq<char>,
    pub session: Option<Seq<char>>,
    pub phase: PhaseText,
}

impl Phase {
    spec fn text(self) -> PhaseText {
        match self {
            Phase::Cache { tried } => PhaseText::Cache { tried: tried as int },
            Phase::Sending { goal, url, sent } => PhaseText::Sending {
                goal,
                url: url@,
                sent: sent as int,
            },
            Phase::Reading { goal, content_type } => PhaseText::Reading {
                goal,
                content_type: content_type@,
            },
            Phase::Done => PhaseText::Done,
        }
    }
}

impl View for IconJob {
    type V = JobText;

    closed spec fn view(&self) -> JobText {
        JobText {
            origin: self.origin@,
            key: self.key@,
            session: owned_text(self.session),
            phase: self.phase.text(),
        }
    }
}

// ---- The cache ----

/// How many files the cache may have for one key.
pub const CACHE_KINDS: usize = 6;

/// The extension and the content type of file `i` that the cache may have for a key.
pub open spec fn cache_kind_text(i: int) -> (Seq<char>, Seq<char>) {
    if i == 0 {
        ("svg"@, "image/svg+xml"@)
    } else if i == 1 {
        ("png"@, "image/png"@)
    } else if i == 2 {
        ("ico"@, "image/x-icon"@)
    } else if i == 3 {
        ("webp"@, "image/webp"@)
    } else if i == 4 {
        ("jpg"@, "image/jpeg"@)
    } else {
        ("gif"@, "image/gif"@)
    }
}

/// The name of a file of the cache.
pub open spec fn file_text(key: Seq<char>, extension: Seq<char>) -> Seq<char> {
    key + "."@ + extension
}

/// The key of an origin in the cache.
pub open spec fn key_text(origin: Seq<char>) -> Seq<char> {
    hex_text(sha1_digest(vstd::utf8::encode_utf8(origin)))
}

// ---- One request ----

/// The request for a URL that was read as `parts`, where it may be fetched at all.
pub open spec fn request_from(
    url: Seq<char>,
    parts: Option<(Seq<char>, Option<Seq<char>>)>,
    session: Option<Seq<char>>,
    domain: Seq<char>,
    nets: Seq<Cidr>,
) -> Option<RequestText> {
    if parts_allowed(parts, nets) {
        Some(
            RequestText {
                url,
                client: if parts_lan_literal(parts, nets) {
                    Client::Lan
                } else {
                    Client::Strict
                },
                cookie: cookie_text(url, session, domain),
            },
        )
    } else {
        None
    }
}

/// The request for a URL, where it may be fetched at all.
pub open spec fn request_text(
    url: Seq<char>,
    session: Option<Seq<char>>,
    domain: Seq<char>,
    nets: Seq<Cidr>,
) -> Option<RequestText> {
    request_from(url, url_parts(url), session, domain, nets)
}

/// Where a response leads.
pub enum HopText {
    /// It is the response that was asked for.
    Arrived,
    /// To another URL.
    Redirect(Seq<char>),
    /// Nowhere.
    Lost,
}

/// Where a response leads whose location, if it has one, is the URL `next`: a status of 200 to
/// 299 is an arrival, one of 300 to 399 with a location a redirect.
pub open spec fn hop_from(status: u16, next: Option<Seq<char>>) -> HopText {
    if 200 <= status <= 299 {
        HopText::Arrived
    } else {
        match next {
            Some(url) => if 300 <= status <= 399 {
                HopText::Redirect(url)
            } else {
                HopText::Lost
            },
            None => HopText::Lost,
        }
    }
}

/// The URL of a location, seen from the URL of the request.
pub open spec fn location_url(url: Seq<char>, location: Option<Seq<char>>) -> Option<Seq<char>> {
    match location {
        Some(l) => url_join(url, trimmed(l)),
        None => None,
    }
}

/// Where a response to a request for `url` leads.
pub open spec fn hop_text(url: Seq<char>, status: u16, location: Option<Seq<char>>) -> HopText {
    hop_from(status, location_url(url, location))
}

/// Where a response leads.
pub enum Hop {
    Arrived,
    Redirect(String),
    Lost,
}

impl View for Hop {
    type V = HopText;

    open spec fn view(&self) -> HopText {
        match *self {
            Hop::Arrived => HopText::Arrived,
            Hop::Redirect(next) => HopText::Redirect(next@),
            Hop::Lost => HopText::Lost,
        }
    }
}

// ---- What is found ----

/// How many bytes of a page are looked through.
pub const PAGE_LIMIT: usize = 262_144;

/// What `String::from_utf8_lossy` makes of bytes.
pub uninterp spec fn lossy_text(bytes: Seq<u8>) -> Seq<char>;

/// The part of a page that is looked through: all of it, or its first bytes.
pub open spec fn page_head(body: Seq<u8>) -> Seq<u8> {
    if body.len() > PAGE_LIMIT {
        body.take(PAGE_LIMIT as int)
    } else {
        body
    }
}

/// The URL of the best icon that a page with this body links to in its first bytes.
pub open spec fn linked_icon(body: Seq<u8>, origin: Seq<char>) -> Option<Seq<char>> {
    best_icon_url(lossy_text(page_head(body)), origin)
}

/// The file extension and the content type of a body that can be an icon. Where the content type
/// of the response is no image type, the bytes alone have to show that they can be one.
pub open spec fn icon_kind(content_type: Seq<char>, body: Seq<u8>) -> Option<
    (Seq<char>, Seq<char>),
> {
    let kind = kind_of(content_type, body);
    if image_like(body, Some(kind.1)) && (kind_of_type(content_type) is None ==> image_like(
        body,
        None,
    )) {
        Some(kind)
    } else {
        None
    }
}

// ---- The job ----

/// How many requests a job makes on the way to one goal: the first one and four redirects.
pub const MAX_REQUESTS: u8 = 5;

/// The job is over without an icon.
pub open spec fn nothing_found() -> (PhaseText, ActionText) {
    (PhaseText::Done, ActionText::Answer { reply: bare_reply(404), keep: None })
}

/// The request with number `sent` on the way to a goal, where the URL may be fetched.
pub open spec fn sending(
    job: JobText,
    domain: Seq<char>,
    nets: Seq<Cidr>,
    goal: Goal,
    url: Seq<char>,
    sent: int,
) -> Option<(PhaseText, ActionText)> {
    match request_text(url, job.session, domain, nets) {
        Some(request) => Some(
            (PhaseText::Sending { goal, url, sent }, ActionText::Send(request)),
        ),
        None => None,
    }
}

/// The way to a goal ended without one: the customary place is next, and after it nothing is.
pub open spec fn lost(job: JobText, domain: Seq<char>, nets: Seq<Cidr>, goal: Goal) -> (
    PhaseText,
    ActionText,
) {
    if goal == Goal::Customary {
        nothing_found()
    } else {
        match sending(job, domain, nets, Goal::Customary, job.origin + "/favicon.ico"@, 1) {
            Some(next) => next,
            None => nothing_found(),
        }
    }
}

/// The next request on the way to a goal, or the end of that way.
pub open spec fn heading(
    job: JobText,
    domain: Seq<char>,
    nets: Seq<Cidr>,
    goal: Goal,
    url: Seq<char>,
    sent: int,
) -> (PhaseText, ActionText) {
    match sending(job, domain, nets, goal, url, sent) {
        Some(next) => next,
        None => lost(job, domain, nets, goal),
    }
}

/// What follows on the cache: the file was read, the next one is tried, or the page is requested.
pub open spec fn after_file(
    job: JobText,
    domain: Seq<char>,
    nets: Seq<Cidr>,
    tried: int,
    file: Option<Seq<u8>>,
) -> (PhaseText, ActionText) {
    match file {
        Some(bytes) => (
            PhaseText::Done,
            ActionText::Answer { reply: image_reply(bytes, cache_kind_text(tried).1), keep: None },
        ),
        None => if tried + 1 < CACHE_KINDS {
            (
                PhaseText::Cache { tried: tried + 1 },
                ActionText::ReadFile(file_text(job.key, cache_kind_text(tried + 1).0)),
            )
        } else {
            match sending(job, domain, nets, Goal::Page, job.origin, 1) {
                Some(next) => next,
                None => nothing_found(),
            }
        },
    }
}

/// How many bytes of a body are of use: of a page those that are looked through, of an icon all.
pub open spec fn body_limit(goal: Goal) -> Option<usize> {
    if goal == Goal::Page {
        Some(PAGE_LIMIT)
    } else {
        None
    }
}

/// What follows on the head of a response.
pub open spec fn after_head(
    job: JobText,
    domain: Seq<char>,
    nets: Seq<Cidr>,
    goal: Goal,
    sent: int,
    hop: HopText,
    content_type: Option<Seq<char>>,
) -> (PhaseText, ActionText) {
    match hop {
        HopText::Arrived => (
            PhaseText::Reading {
                goal,
                content_type: match content_type {
                    Some(t) => t,
                    None => seq![],
                },
            },
            ActionText::ReadBody { at_most: body_limit(goal) },
        ),
        HopText::Redirect(next) => if sent < MAX_REQUESTS {
            heading(job, domain, nets, goal, next, sent + 1)
        } else {
            lost(job, domain, nets, goal)
        },
        HopText::Lost => lost(job, domain, nets, goal),
    }
}

/// What follows on a page, given the icon that it links to.
pub open spec fn after_page(
    job: JobText,
    domain: Seq<char>,
    nets: Seq<Cidr>,
    linked: Option<Seq<char>>,
) -> (PhaseText, ActionText) {
    match linked {
        Some(url) => heading(job, domain, nets, Goal::Linked, url, 1),
        None => lost(job, domain, nets, Goal::Page),
    }
}

/// What follows on a body that may be an icon.
pub open spec fn after_icon(
    job: JobText,
    domain: Seq<char>,
    nets: Seq<Cidr>,
    goal: Goal,
    content_type: Seq<char>,
    body: Seq<u8>,
) -> (PhaseText, ActionText) {
    match icon_kind(content_type, body) {
        Some(kind) => (
            PhaseText::Done,
            ActionText::Answer {
                reply: image_reply(body, kind.1),
                keep: Some(file_text(job.key, kind.0)),
            },
        ),
        None => lost(job, domain, nets, goal),
    }
}

/// What follows on an event. An event that the job does not wait for ends it.
pub open spec fn next(
    job: JobText,
    domain: Seq<char>,
    nets: Seq<Cidr>,
    event: EventText,
) -> (PhaseText, ActionText) {
    match (job.phase, event) {
        (PhaseText::Cache { tried }, EventText::File(file)) => after_file(
            job,
            domain,
            nets,
            tried,
            file,
        ),
        (PhaseText::Sending { goal, url, sent }, EventText::NoResponse) => lost(
            job,
            domain,
            nets,
            goal,
        ),
        (
            PhaseText::Sending { goal, url, sent },
            EventText::Response { status, location, content_type },
        ) => after_head(
            job,
            domain,
            nets,
            goal,
            sent,
            hop_text(url, status, location),
            content_type,
        ),
        (PhaseText::Reading { goal, content_type }, EventText::Body(None)) => lost(
            job,
            domain,
            nets,
            goal,
        ),
        (PhaseText::Reading { goal, content_type }, EventText::Body(Some(body))) => if goal
            == Goal::Page {
            after_page(job, domain, nets, linked_icon(body, job.origin))
        } else {
            after_icon(job, domain, nets, goal, content_type, body)
        },
        _ => nothing_found(),
    }
}

/// The job after an event.
pub open spec fn moved(
    job: JobText,
    domain: Seq<char>,
    nets: Seq<Cidr>,
    event: EventText,
) -> JobText {
    JobText { phase: next(job, domain, nets, event).0, ..job }
}

/// The job for an address, and its first action: a file of the cache is read, or the request is
/// refused where the address has no origin.
pub open spec fn first(url: Seq<char>, cookie_header: Option<Seq<char>>) -> (JobText, ActionText) {
    let session = match cookie_header {
        Some(h) => session_cookie(h),
        None => None,
    };
    match origin_text(url) {
        Some(origin) => (
            JobText {
                origin,
                key: key_text(origin),
                session,
                phase: PhaseText::Cache { tried: 0 },
            },
            ActionText::ReadFile(file_text(key_text(origin), cache_kind_text(0).0)),
        ),
        None => (
            JobText { origin: seq![], key: seq![], session, phase: PhaseText::Done },
            ActionText::Answer { reply: bare_reply(400), keep: None },
        ),
    }
}

// ---- Laws ----

/// How many requests are left on one way after `sent` of them.
pub open spec fn left_on_way(sent: int) -> nat {
    if sent < MAX_REQUESTS {
        (MAX_REQUESTS - sent) as nat
    } else {
        0
    }
}

/// How many requests a job may still make.
pub open spec fn requests_left(phase: PhaseText) -> nat {
    match phase {
        PhaseText::Cache { tried } => 15,
        PhaseText::Sending { goal, url, sent } => left_on_way(sent) + ways_left(goal),
        PhaseText::Reading { goal, content_type } => ways_left(goal),
        PhaseText::Done => 0,
    }
}

/// How many requests the ways after this one may take.
pub open spec fn ways_left(goal: Goal) -> nat {
    if goal == Goal::Page {
        10
    } else if goal == Goal::Linked {
        5
    } else {
        0
    }
}

/// A bound on the actions that a job still hands out.
pub open spec fn steps_left(phase: PhaseText) -> nat {
    match phase {
        PhaseText::Cache { tried } => if tried < CACHE_KINDS {
            (31 + CACHE_KINDS - tried) as nat
        } else {
            31
        },
        PhaseText::Sending { goal, url, sent } => 2 * requests_left(phase) + 2,
        PhaseText::Reading { goal, content_type } => 2 * requests_left(phase) + 1,
        PhaseText::Done => 0,
    }
}

/// Every request is one that the rules allow: its URL has passed the egress check, only an
/// address of the operator's networks has its certificate checked less strictly, and the cookie
/// goes only where the domain says.
pub open spec fn request_follows_rules(
    request: RequestText,
    session: Option<Seq<char>>,
    domain: Seq<char>,
    nets: Seq<Cidr>,
) -> bool {
    &&& url_allowed(request.url, nets)
    &&& request.client == Client::Lan <==> parts_lan_literal(url_parts(request.url), nets)
    &&& request.cookie == cookie_text(request.url, session, domain)
}

/// Whatever happens, a job sends only requests that follow the rules.
pub proof fn law_requests_follow_rules(
    job: JobText,
    domain: Seq<char>,
    nets: Seq<Cidr>,
    event: EventText,
)
    ensures
        next(job, domain, nets, event).1 matches ActionText::Send(request)
            ==> request_follows_rules(request, job.session, domain, nets),
{
}

/// A job comes to its end: each event brings it nearer, and the end is an answer.
pub proof fn law_job_ends(job: JobText, domain: Seq<char>, nets: Seq<Cidr>, event: EventText)
    ensures
        job.phase !is Done ==> steps_left(next(job, domain, nets, event).0) < steps_left(job.phase),
        next(job, domain, nets, event).0 is Done <==> next(job, domain, nets, event).1 is Answer,
{
}

/// Each request uses up one of those that a job may make.
pub proof fn law_requests_are_counted(
    job: JobText,
    domain: Seq<char>,
    nets: Seq<Cidr>,
    event: EventText,
)
    ensures
        ({
            let after = next(job, domain, nets, event);
            requests_left(after.0) + (if after.1 is Send {
                1nat
            } else {
                0nat
            }) <= requests_left(job.phase)
        }),
{
}

/// The actions of a job on a course of events.
pub open spec fn course(
    job: JobText,
    domain: Seq<char>,
    nets: Seq<Cidr>,
    events: Seq<EventText>,
) -> Seq<ActionText>
    decreases events.len(),
{
    if events.len() == 0 {
        seq![]
    } else {
        seq![next(job, domain, nets, events[0]).1] + course(
            moved(job, domain, nets, events[0]),
            domain,
            nets,
            events.drop_first(),
        )
    }
}

/// How many of the actions are requests.
pub open spec fn count_requests(actions: Seq<ActionText>) -> nat
    decreases actions.len(),
{
    if actions.len() == 0 {
        0
    } else {
        count_requests(actions.drop_first()) + (if actions[0] is Send {
            1nat
        } else {
            0nat
        })
    }
}

/// On any course of events a job makes at most fifteen requests, all of which follow the rules.
pub proof fn law_course_of_a_job(
    url: Seq<char>,
    cookie_header: Option<Seq<char>>,
    domain: Seq<char>,
    nets: Seq<Cidr>,
    events: Seq<EventText>,
)
    ensures
        count_requests(course(first(url, cookie_header).0, domain, nets, events)) <= 15,
        forall|i: int|
            0 <= i < events.len() ==> ((#[trigger] course(
                first(url, cookie_header).0,
                domain,
                nets,
                events,
            )[i]) matches ActionText::Send(request) ==> request_follows_rules(
                request,
                first(url, cookie_header).0.session,
                domain,
                nets,
            )),
{
    lemma_course(first(url, cookie_header).0, domain, nets, events);
}

proof fn lemma_course(
    job: JobText,
    domain: Seq<char>,
    nets: Seq<Cidr>,
    events: Seq<EventText>,
)
    ensures
        count_requests(course(job, domain, nets, events)) <= requests_left(job.phase),
        course(job, domain, nets, events).len() == events.len(),
        forall|i: int|
            0 <= i < events.len() ==> ((#[trigger] course(job, domain, nets, events)[i]) matches
                ActionText::Send(request) ==> request_follows_rules(
                request,
                job.session,
                domain,
                nets,
            )),
    decreases events.len(),
{
    if events.len() > 0 {
        let after = moved(job, domain, nets, events[0]);
        let rest = course(after, domain, nets, events.drop_first());
        let all = course(job, domain, nets, events);
        lemma_course(after, domain, nets, events.drop_first());
        law_requests_are_counted(job, domain, nets, events[0]);
        law_requests_follow_rules(job, domain, nets, events[0]);
        assert(all.drop_first() == rest);
        assert forall|i: int| 0 <= i < events.len() implies ((#[trigger] all[i]) matches
            ActionText::Send(request) ==> request_follows_rules(
            request,
            job.session,
            domain,
            nets,
        )) by {
            if i > 0 {
                assert(all[i] == rest[i - 1]);
            }
        }
    }
}

/// A response that redirects a job when it has made all its requests on one way ends that way.
pub proof fn law_redirects_are_limited(
    job: JobText,
    domain: Seq<char>,
    nets: Seq<Cidr>,
    goal: Goal,
    url: Seq<char>,
    status: u16,
    location: Option<Seq<char>>,
    content_type: Option<Seq<char>>,
)
    requires
        job.phase == (PhaseText::Sending { goal, url, sent: MAX_REQUESTS as int }),
        !(200 <= status <= 299),
    ensures
        next(
            job,
            domain,
            nets,
            EventText::Response { status, location, content_type },
        ) == lost(job, domain, nets, goal),
{
}

/// What a job keeps is found again: under the name that it is kept by, the cache gives the same
/// answer.
pub proof fn law_kept_icon_is_found(
    job: JobText,
    domain: Seq<char>,
    nets: Seq<Cidr>,
    event: EventText,
)
    ensures
        next(job, domain, nets, event).1 matches ActionText::Answer { reply, keep: Some(name) }
            ==> exists|i: int|
            {
                &&& 0 <= i < CACHE_KINDS
                &&& name == file_text(job.key, (#[trigger] cache_kind_text(i)).0)
                &&& after_file(job, domain, nets, i, Some(reply.body)).1 == (ActionText::Answer {
                    reply,
                    keep: None,
                })
            },
{
    if let ActionText::Answer { reply, keep: Some(name) } = next(job, domain, nets, event).1 {
        if let (PhaseText::Reading { goal, content_type }, EventText::Body(Some(body))) = (
            job.phase,
            event,
        ) {
            let kind = kind_of(content_type, body);
            assert(cache_kind_text(0) == ("svg"@, "image/svg+xml"@));
            assert(cache_kind_text(1) == ("png"@, "image/png"@));
            assert(cache_kind_text(2) == ("ico"@, "image/x-icon"@));
            assert(cache_kind_text(3) == ("webp"@, "image/webp"@));
            assert(cache_kind_text(4) == ("jpg"@, "image/jpeg"@));
            assert(cache_kind_text(5) == ("gif"@, "image/gif"@));
            assert(exists|i: int|
                0 <= i < CACHE_KINDS && kind == #[trigger] cache_kind_text(i));
        }
    }
}

/// What is fetched and answered has passed the check on images under the content type that it is
/// answered with, and does not open as a page of HTML does.
pub proof fn law_only_images_are_answered(
    job: JobText,
    domain: Seq<char>,
    nets: Seq<Cidr>,
    event: EventText,
)
    requires
        job.phase !is Cache,
    ensures
        next(job, domain, nets, event).1 matches ActionText::Answer { reply, keep } ==> {
            ||| reply == bare_reply(404) && keep is None
            ||| exists|content_type: Seq<char>|
                image_like(reply.body, Some(content_type)) && !opens_as_page(reply.body) && reply
                    == #[trigger] image_reply(reply.body, content_type)
        },
{
    if let (PhaseText::Reading { goal, content_type }, EventText::Body(Some(body))) = (
        job.phase,
        event,
    ) {
        let kind = kind_of(content_type, body);
        assert(image_reply(body, kind.1) == image_reply(image_reply(body, kind.1).body, kind.1));
        if opens_as_page(body) {
            law_html_is_no_image(body, Some(kind.1));
        }
    }
}

/// Markup that no image type was declared for is answered only where its bytes open an SVG element
/// before any HTML element: a login page in place of an icon is not.
pub proof fn law_undeclared_markup_is_vector(
    job: JobText,
    domain: Seq<char>,
    nets: Seq<Cidr>,
    goal: Goal,
    content_type: Seq<char>,
    body: Seq<u8>,
)
    requires
        goal != Goal::Page,
        job.phase == reading_phase(goal, content_type),
        kind_of_type(content_type) is None,
        content(body)[0] == 0x3c,
        !holds_svg(content(body)),
    ensures
        next(job, domain, nets, EventText::Body(Some(body))) == lost(job, domain, nets, goal),
{
}

/// What is left out of a page makes no difference: its first bytes give the same icon.
pub proof fn law_first_bytes_are_enough(body: Seq<u8>, origin: Seq<char>)
    ensures
        linked_icon(page_head(body), origin) == linked_icon(body, origin),
{
}

/// The way to the page and to the icon that it links to may end as it will: before it gives up, a
/// job asks for the icon at its customary place, unless the egress check refuses that.
pub proof fn law_fallback_is_tried(
    job: JobText,
    domain: Seq<char>,
    nets: Seq<Cidr>,
    goal: Goal,
    event: EventText,
)
    requires
        goal != Goal::Customary,
        (exists|url: Seq<char>, sent: int|
            job.phase == #[trigger] sending_phase(goal, url, sent) && (event is Response
                || event is NoResponse)) || (exists|content_type: Seq<char>|
            job.phase == #[trigger] reading_phase(goal, content_type) && event is Body),
        next(job, domain, nets, event).1 == (ActionText::Answer {
            reply: bare_reply(404),
            keep: None,
        }),
    ensures
        !url_allowed(job.origin + "/favicon.ico"@, nets),
{
}

/// A request on the way to a goal is out.
pub open spec fn sending_phase(goal: Goal, url: Seq<char>, sent: int) -> PhaseText {
    PhaseText::Sending { goal, url, sent }
}

/// The body of a response on the way to a goal is being read.
pub open spec fn reading_phase(goal: Goal, content_type: Seq<char>) -> PhaseText {
    PhaseText::Reading { goal, content_type }
}

/// The course of a job that finds the first `missing` files of the cache missing and reads the
/// next one.
pub open spec fn cache_course(missing: nat, bytes: Seq<u8>) -> Seq<EventText>
    decreases missing,
{
    if missing == 0 {
        seq![EventText::File(Some(bytes))]
    } else {
        seq![EventText::File(None)] + cache_course((missing - 1) as nat, bytes)
    }
}

/// An icon that the cache has is answered from there, and nothing is requested.
pub proof fn law_cached_icon_needs_no_request(
    url: Seq<char>,
    cookie_header: Option<Seq<char>>,
    domain: Seq<char>,
    nets: Seq<Cidr>,
    missing: nat,
    bytes: Seq<u8>,
)
    requires
        origin_text(url) is Some,
        missing < 6,
    ensures
        ({
            let job = first(url, cookie_header).0;
            let actions = course(job, domain, nets, cache_course(missing, bytes));
            &&& actions.len() == missing + 1
            &&& actions.last() == (ActionText::Answer {
                reply: image_reply(bytes, cache_kind_text(missing as int).1),
                keep: None,
            })
            &&& forall|i: int|
                0 <= i < missing ==> #[trigger] actions[i] == ActionText::ReadFile(
                    file_text(job.key, cache_kind_text(i + 1).0),
                )
        }),
{
    lemma_cache_course(first(url, cookie_header).0, domain, nets, 0, missing, bytes);
}

proof fn lemma_cache_course(
    job: JobText,
    domain: Seq<char>,
    nets: Seq<Cidr>,
    tried: int,
    missing: nat,
    bytes: Seq<u8>,
)
    requires
        job.phase == (PhaseText::Cache { tried }),
        0 <= tried,
        tried + missing < CACHE_KINDS,
    ensures
        ({
            let actions = course(job, domain, nets, cache_course(missing, bytes));
            &&& actions.len() == missing + 1
            &&& actions.last() == (ActionText::Answer {
                reply: image_reply(bytes, cache_kind_text(tried + missing).1),
                keep: None,
            })
            &&& forall|i: int|
                0 <= i < missing ==> #[trigger] actions[i] == ActionText::ReadFile(
                    file_text(job.key, cache_kind_text(tried + i + 1).0),
                )
        }),
    decreases missing,
{
    let events = cache_course(missing, bytes);
    let actions = course(job, domain, nets, events);
    let after = moved(job, domain, nets, events[0]);
    let rest = course(after, domain, nets, events.drop_first());
    assert(actions == seq![next(job, domain, nets, events[0]).1] + rest);
    if missing == 0 {
        assert(events.drop_first() == Seq::<EventText>::empty());
        assert(rest.len() == 0);
    } else {
        assert(events.drop_first() == cache_course((missing - 1) as nat, bytes));
        lemma_cache_course(after, domain, nets, tried + 1, (missing - 1) as nat, bytes);
        assert forall|i: int| 0 <= i < missing implies #[trigger] actions[i]
            == ActionText::ReadFile(file_text(job.key, cache_kind_text(tried + i + 1).0)) by {
            if i > 0 {
                assert(actions[i] == rest[i - 1]);
            }
        }
    }
}

/// The name of a file of the cache is that of a file in the directory itself, whatever the
/// origin is.
#[verifier::rlimit(50)]
pub proof fn law_cache_names_are_plain(origin: Seq<char>, i: int)
    ensures
        is_plain_name(file_text(key_text(origin), cache_kind_text(i).0)),
{
    reveal_strlit(".");
    reveal_strlit("svg");
    reveal_strlit("png");
    reveal_strlit("ico");
    reveal_strlit("webp");
    reveal_strlit("jpg");
    reveal_strlit("gif");
    reveal_strlit("..");
    let key = key_text(origin);
    let extension = cache_kind_text(i).0;
    let name = file_text(key, extension);
    let n = key.len() as int;
    assert forall|j: int| 0 <= j < name.len() implies ((#[trigger] name[j]) == '.' <==> j == n)
        && name[j] != '/' && name[j] != '\\' by {
        if j < n {
            lemma_hex_is_plain(sha1_digest(vstd::utf8::encode_utf8(origin)), j);
            assert(name[j] == key[j]);
        } else if j > n {
            assert(name[j] == extension[j - n - 1]);
        }
    }
    assert forall|j: int| !occurs_at(".."@, name, j) by {
        if occurs_at(".."@, name, j) {
            assert(name.subrange(j, j + 2)[0] == '.');
            assert(name.subrange(j, j + 2)[1] == '.');
            assert(name[j] == '.' && name[j + 1] == '.');
        }
    }
}

/// The first file that a job reads is named by the SHA-1 digest of the whole origin, its scheme, host
/// and port, in hexadecimal; the user, path, query and fragment of the address do not count.
pub proof fn law_cache_file_of_an_address(
    scheme: Seq<char>,
    user: Seq<char>,
    host: Seq<char>,
    tail: Seq<char>,
    cookie_header: Option<Seq<char>>,
)
    requires
        scheme == "http://"@ || scheme == "https://"@,
        user.len() == 0 || user.last() == '@',
        forall|i: int| 0 <= i < user.len() ==> !seq!['/', '?', '#'].contains(#[trigger] user[i]),
        !user.contains('\\'),
        host.len() > 0,
        user.len() > 0 ==> host.first() != '\\',
        !host.take(find_any(host, seq!['\\'])).contains('@'),
        forall|i: int| 0 <= i < host.len() ==> !seq!['/', '?', '#'].contains(#[trigger] host[i]),
        tail.len() > 0 ==> seq!['/', '?', '#'].contains(tail.first()),
        tail.len() == 0 ==> !is_white(host.last()),
    ensures
        first(scheme + user + host + tail, cookie_header).1 == ActionText::ReadFile(
            hex_text(sha1_digest(vstd::utf8::encode_utf8(scheme + host))) + ".svg"@,
        ),
        first(scheme + user + host + tail, cookie_header).0.origin == scheme + host,
        first(scheme + user + host + tail, cookie_header).0.key == hex_text(
            sha1_digest(vstd::utf8::encode_utf8(scheme + host)),
        ),
{
    law_origin_drops_the_rest(scheme, user, host, tail);
    law_files_of_a_key(hex_text(sha1_digest(vstd::utf8::encode_utf8(scheme + host))));
}

/// Two jobs that read the same file first are for origins with the same digest: another scheme, host
/// or port means another file, as far as digests differ.
pub proof fn law_other_origin_other_file(
    url: Seq<char>,
    cookie_header: Option<Seq<char>>,
    other_url: Seq<char>,
    other_header: Option<Seq<char>>,
)
    requires
        first(url, cookie_header).1 is ReadFile,
        first(url, cookie_header).1 == first(other_url, other_header).1,
    ensures
        origin_text(url) is Some,
        origin_text(other_url) is Some,
        sha1_digest(vstd::utf8::encode_utf8(origin_text(url)->0)) == sha1_digest(
            vstd::utf8::encode_utf8(origin_text(other_url)->0),
        ),
{
    let a = key_text(origin_text(url)->0);
    let b = key_text(origin_text(other_url)->0);
    law_files_of_a_key(a);
    law_files_of_a_key(b);
    reveal_strlit(".svg");
    let x = a + ".svg"@;
    let y = b + ".svg"@;
    assert(x == y);
    assert(a == x.take(x.len() - 4));
    assert(b == y.take(y.len() - 4));
    law_hex_injective(
        sha1_digest(vstd::utf8::encode_utf8(origin_text(url)->0)),
        sha1_digest(vstd::utf8::encode_utf8(origin_text(other_url)->0)),
    );
}

/// The six files of a key, in the order in which they are tried, and their types.
#[verifier::rlimit(50)]
pub proof fn law_files_of_a_key(key: Seq<char>)
    ensures
        file_text(key, cache_kind_text(0).0) == key + ".svg"@,
        file_text(key, cache_kind_text(1).0) == key + ".png"@,
        file_text(key, cache_kind_text(2).0) == key + ".ico"@,
        file_text(key, cache_kind_text(3).0) == key + ".webp"@,
        file_text(key, cache_kind_text(4).0) == key + ".jpg"@,
        file_text(key, cache_kind_text(5).0) == key + ".gif"@,
        forall|i: int|
            0 <= i < 6 ==> type_of_name(file_text(key, (#[trigger] cache_kind_text(i)).0)) == Some(
                cache_kind_text(i).1,
            ),
{
    reveal_strlit(".");
    reveal_strlit("svg");
    reveal_strlit("png");
    reveal_strlit("ico");
    reveal_strlit("webp");
    reveal_strlit("jpg");
    reveal_strlit("gif");
    reveal_strlit(".svg");
    reveal_strlit(".png");
    reveal_strlit(".ico");
    reveal_strlit(".webp");
    reveal_strlit(".jpg");
    reveal_strlit(".gif");
    assert(file_text(key, "svg"@) == key + ".svg"@);
    assert(file_text(key, "png"@) == key + ".png"@);
    assert(file_text(key, "ico"@) == key + ".ico"@);
    assert(file_text(key, "webp"@) == key + ".webp"@);
    assert(file_text(key, "jpg"@) == key + ".jpg"@);
    assert(file_text(key, "gif"@) == key + ".gif"@);
    assert(lower_all(".svg"@) == ".svg"@ && lower_all(".png"@) == ".png"@ && lower_all(".ico"@)
        == ".ico"@);
    assert(lower_all(".webp"@) == ".webp"@ && lower_all(".jpg"@) == ".jpg"@ && lower_all(".gif"@)
        == ".gif"@);
    law_types_by_ending(key, ".svg"@);
    law_types_by_ending(key, ".png"@);
    law_types_by_ending(key, ".ico"@);
    law_types_by_ending(key, ".webp"@);
    law_types_by_ending(key, ".jpg"@);
    law_types_by_ending(key, ".gif"@);
}

/// An address without an origin is answered with status 400, and the session of a job is the session
/// cookie of the request.
pub proof fn law_start(url: Seq<char>, header: Seq<char>)
    ensures
        origin_text(url) is None ==> first(url, Some(header)).1 == (ActionText::Answer {
            reply: bare_reply(400),
            keep: None,
        }) && first(url, None).1 == first(url, Some(header)).1,
        origin_text(url) is Some ==> first(url, Some(header)).0.phase == (PhaseText::Cache { tried: 0 }),
        first(url, Some(header)).0.session == session_cookie(header),
        first(url, None).0.session is None,
{
}

/// What a job is for does not change.
pub proof fn law_job_stays_the_same(
    job: JobText,
    domain: Seq<char>,
    nets: Seq<Cidr>,
    event: EventText,
)
    ensures
        moved(job, domain, nets, event).origin == job.origin,
        moved(job, domain, nets, event).key == job.key,
        moved(job, domain, nets, event).session == job.session,
{
}

/// A request for this URL, the one with this number on the way to the goal, is what comes next.
pub open spec fn asks_for(
    step: (PhaseText, ActionText),
    goal: Goal,
    url: Seq<char>,
    sent: int,
) -> bool {
    &&& step.0 == sending_phase(goal, url, sent)
    &&& step.1 matches ActionText::Send(request) && request.url == url
}

/// The way to a goal is over: the icon at its customary place is asked for, unless that is what was
/// asked for or the egress check refuses it, and then the answer is status 404.
pub open spec fn falls_back(
    step: (PhaseText, ActionText),
    job: JobText,
    nets: Seq<Cidr>,
    goal: Goal,
) -> bool {
    let place = job.origin + "/favicon.ico"@;
    if goal != Goal::Customary && url_allowed(place, nets) {
        asks_for(step, Goal::Customary, place, 1)
    } else {
        step.0 is Done && step.1 == (ActionText::Answer { reply: bare_reply(404), keep: None })
    }
}

/// When the six files of the cache are missing, the page of the site is asked for, where the egress
/// check allows it, and the answer is status 404 where it does not.
pub proof fn law_after_the_cache(job: JobText, domain: Seq<char>, nets: Seq<Cidr>)
    requires
        job.phase == (PhaseText::Cache { tried: 5 }),
    ensures
        ({
            let step = next(job, domain, nets, EventText::File(None));
            if url_allowed(job.origin, nets) {
                asks_for(step, Goal::Page, job.origin, 1)
            } else {
                step.0 is Done && step.1 == (ActionText::Answer {
                    reply: bare_reply(404),
                    keep: None,
                })
            }
        }),
{
}

/// What a job does with the head of a response, by its status: from 200 to 299 it reads the body;
/// from 300 to 399 it goes on to the location, trimmed and seen from the URL of the request, on its
/// first four redirects and where the egress check allows it; on any other it falls back.
#[verifier::rlimit(50)]
pub proof fn law_responses(
    job: JobText,
    domain: Seq<char>,
    nets: Seq<Cidr>,
    goal: Goal,
    url: Seq<char>,
    sent: int,
    status: u16,
    location: Option<Seq<char>>,
    content_type: Option<Seq<char>>,
)
    requires
        job.phase == sending_phase(goal, url, sent),
    ensures
        ({
            let step = next(
                job,
                domain,
                nets,
                EventText::Response { status, location, content_type },
            );
            let target = match location {
                Some(l) => url_join(url, trimmed(l)),
                None => None,
            };
            if 200 <= status <= 299 {
                &&& step.0 == reading_phase(
                    goal,
                    match content_type {
                        Some(t) => t,
                        None => seq![],
                    },
                )
                &&& step.1 == (ActionText::ReadBody {
                    at_most: if goal == Goal::Page {
                        Some(262_144usize)
                    } else {
                        None
                    },
                })
            } else if 300 <= status <= 399 && sent < 5 && target is Some && url_allowed(
                target->0,
                nets,
            ) {
                asks_for(step, goal, target->0, sent + 1)
            } else {
                falls_back(step, job, nets, goal)
            }
        }),
        falls_back(next(job, domain, nets, EventText::NoResponse), job, nets, goal),
{
}

/// What a job does with a page: it asks for the icon that the first 262144 bytes link to, where the
/// egress check allows it, and falls back otherwise.
pub proof fn law_pages(
    job: JobText,
    domain: Seq<char>,
    nets: Seq<Cidr>,
    content_type: Seq<char>,
    body: Seq<u8>,
)
    requires
        job.phase == reading_phase(Goal::Page, content_type),
    ensures
        ({
            let step = next(job, domain, nets, EventText::Body(Some(body)));
            let head = if body.len() > 262_144 {
                body.take(262_144)
            } else {
                body
            };
            let icon = best_icon_url(lossy_text(head), job.origin);
            if icon is Some && url_allowed(icon->0, nets) {
                asks_for(step, Goal::Linked, icon->0, 1)
            } else {
                falls_back(step, job, nets, Goal::Page)
            }
        }),
        falls_back(next(job, domain, nets, EventText::Body(None)), job, nets, Goal::Page),
{
}

/// What a job does with the body of an icon: one that can be an image is answered whole, with the
/// type that was declared or that its bytes tell, and kept under the key and the extension of that
/// type; on any other it falls back.
pub proof fn law_icons(
    job: JobText,
    domain: Seq<char>,
    nets: Seq<Cidr>,
    goal: Goal,
    content_type: Seq<char>,
    body: Seq<u8>,
)
    requires
        goal != Goal::Page,
        job.phase == reading_phase(goal, content_type),
    ensures
        ({
            let step = next(job, domain, nets, EventText::Body(Some(body)));
            let declared = kind_of_type(content_type);
            let kind = match declared {
                Some(kind) => kind,
                None => kind_of_bytes(body),
            };
            if image_like(body, Some(kind.1)) && (declared is Some || image_like(body, None)) {
                &&& step.0 is Done
                &&& step.1 matches ActionText::Answer { reply, keep }
                &&& reply.status == 200
                &&& reply.body == body
                &&& reply.headers.contains(("content-type"@, kind.1))
                &&& keep == Some(job.key + "."@ + kind.0)
            } else {
                falls_back(step, job, nets, goal)
            }
        }),
        falls_back(next(job, domain, nets, EventText::Body(None)), job, nets, goal),
{
    let kind = kind_of(content_type, body);
    assert(image_reply(body, kind.1).headers[0] == ("content-type"@, kind.1));
}

/// What an event tells a job is all that came: the bytes of a file or a body, the status, and the two
/// headers.
pub proof fn law_views_of_events(
    bytes: Vec<u8>,
    status: u16,
    location: Option<String>,
    content_type: Option<String>,
)
    ensures
        Event::File(Some(bytes))@ == EventText::File(Some(bytes@)),
        Event::File(None)@ == EventText::File(None),
        Event::Body(Some(bytes))@ == EventText::Body(Some(bytes@)),
        Event::Body(None)@ == EventText::Body(None),
        Event::NoResponse@ == EventText::NoResponse,
        (Event::Response { status, location, content_type })@ == (EventText::Response {
            status,
            location: owned_text(location),
            content_type: owned_text(content_type),
        }),
{
}

/// What an action says is all that is to be done: the name of the file, the request with its URL,
/// client and cookie, how much is to be read, or the answer and the name it is kept by.
pub proof fn law_views_of_actions(
    name: String,
    request: Request,
    cookie: String,
    at_most: Option<usize>,
    reply: Reply,
)
    ensures
        Action::ReadFile(name)@ == ActionText::ReadFile(name@),
        Action::Send(request)@ == ActionText::Send(request@),
        request@.url == request.url@,
        request@.client == request.client,
        request.cookie == Some(cookie) ==> request@.cookie == Some(cookie@),
        request.cookie is None ==> request@.cookie is None,
        planned(Some(request)) == Some(request@),
        planned(None) is None,
        (Action::ReadBody { at_most })@ == (ActionText::ReadBody { at_most }),
        (Action::Answer { reply, keep: Some(name) })@ == (ActionText::Answer {
            reply: reply@,
            keep: Some(name@),
        }),
        (Action::Answer { reply, keep: None })@ == (ActionText::Answer { reply: reply@, keep: None }),
        Hop::Redirect(name)@ == HopText::Redirect(name@),
        Hop::Arrived@ == HopText::Arrived,
        Hop::Lost@ == HopText::Lost,
{
}

/// Where a response leads: with a status from 200 to 299 it has arrived, from 300 to 399 it leads to
/// the URL of its location where it has one, and otherwise nowhere.
pub proof fn law_hops(status: u16, url: Seq<char>)
    ensures
        200 <= status <= 299 ==> hop_from(status, Some(url)) == HopText::Arrived && hop_from(
            status,
            None,
        ) == HopText::Arrived,
        300 <= status <= 399 ==> hop_from(status, Some(url)) == HopText::Redirect(url) && hop_from(
            status,
            None,
        ) == HopText::Lost,
        status < 200 || status > 399 ==> hop_from(status, Some(url)) == HopText::Lost && hop_from(
            status,
            None,
        ) == HopText::Lost,
{
}

/// The request for a URL that was read as these parts is made exactly where they are allowed.
pub proof fn law_request_for_parts(
    url: Seq<char>,
    parts: Option<(Seq<char>, Option<Seq<char>>)>,
    session: Option<Seq<char>>,
    domain: Seq<char>,
    nets: Seq<Cidr>,
)
    ensures
        request_from(url, parts, session, domain, nets) is Some <==> parts_allowed(parts, nets),
        request_from(url, parts, session, domain, nets) matches Some(request) ==> {
            &&& request.url == url
            &&& request.client == Client::Lan <==> parts_lan_literal(parts, nets)
            &&& request.cookie == cookie_text(url, session, domain)
        },
{
}

/// The request for a URL is for that URL, is made exactly where the egress check allows it, and is
/// spared the strict certificate checks exactly where the host is an address of the networks.
pub proof fn law_request_for_a_url(
    url: Seq<char>,
    session: Option<Seq<char>>,
    domain: Seq<char>,
    nets: Seq<Cidr>,
)
    ensures
        request_text(url, session, domain, nets) is Some <==> parts_allowed(url_parts(url), nets),
        request_text(url, session, domain, nets) matches Some(request) ==> {
            &&& request.url == url
            &&& request.client == Client::Lan <==> parts_lan_literal(url_parts(url), nets)
            &&& request.cookie == cookie_text(url, session, domain)
        },
{
}

// ---- Functions ----

fn cache_kind(i: usize) -> (r: (&'static str, &'static str))
    ensures
        (r.0@, r.1@) == cache_kind_text(i as int),
{
    if i == 0 {
        ("svg", "image/svg+xml")
    } else if i == 1 {
        ("png", "image/png")
    } else if i == 2 {
        ("ico", "image/x-icon")
    } else if i == 3 {
        ("webp", "image/webp")
    } else if i == 4 {
        ("jpg", "image/jpeg")
    } else {
        ("gif", "image/gif")
    }
}

/// The name of a file of the cache.
pub fn cache_file(key: &str, extension: &str) -> (r: String)
    ensures
        r@ == file_text(key@, extension@),
{
    let mut name = copy_of(key);
    name.append(".");
    name.append(extension);
    name
}

/// The request for a URL with this scheme and host: which certificates are accepted and whether
/// the session goes with it. `None` where the URL may not be fetched.
pub fn request_from_parts(
    url: &str,
    scheme: &str,
    host: &Option<String>,
    session: Option<&str>,
    settings: &Settings,
) -> (r: Option<Request>)
    requires
        all_wf(settings.lan_cidrs@),
    ensures
        planned(r) == request_from(
            url@,
            Some((scheme@, owned_text(*host))),
            text_of(session),
            settings.cookie_domain@,
            settings.lan_cidrs@,
        ),
{
    if !parts_may_be_fetched(scheme, host, &settings.lan_cidrs) {
        return None;
    }
    let client = match host {
        Some(h) => if host_is_lan_literal(h.as_str(), &settings.lan_cidrs) {
            Client::Lan
        } else {
            Client::Strict
        },
        None => Client::Strict,
    };
    let cookie = cookie_for(url, session, settings.cookie_domain.as_str());
    Some(Request { url: copy_of(url), client, cookie })
}

/// What an optional request says.
pub open spec fn planned(r: Option<Request>) -> Option<RequestText> {
    match r {
        Some(request) => Some(request@),
        None => None,
    }
}

/// The request for a URL; `None` where it may not be fetched.
pub fn plan_request(url: &str, session: Option<&str>, settings: &Settings) -> (r: Option<Request>)
    requires
        all_wf(settings.lan_cidrs@),
    ensures
        planned(r) == request_text(
            url@,
            text_of(session),
            settings.cookie_domain@,
            settings.lan_cidrs@,
        ),
{
    match read_url(url) {
        Some((scheme, host)) => request_from_parts(url, scheme.as_str(), &host, session, settings),
        None => None,
    }
}

/// Where a response leads whose location is the URL `next`.
pub fn hop_of(status: u16, next: Option<String>) -> (r: Hop)
    ensures
        r@ == hop_from(status, owned_text(next)),
{
    if 200 <= status && status <= 299 {
        return Hop::Arrived;
    }
    match next {
        Some(url) => if 300 <= status && status <= 399 {
            Hop::Redirect(url)
        } else {
            Hop::Lost
        },
        None => Hop::Lost,
    }
}

/// Where a response leads: a redirect is followed to its location, seen from `url`.
pub fn follow(url: &str, status: u16, location: Option<&str>) -> (r: Hop)
    ensures
        r@ == hop_text(url@, status, text_of(location)),
{
    let next = match location {
        Some(l) => {
            let a = chars_of(l);
            let bare = string_of(trim(a.as_slice()));
            join_url(url, bare.as_str())
        },
        None => None,
    };
    hop_of(status, next)
}

/// `String::from_utf8_lossy`: bytes that are valid UTF-8 are the text that they encode.
#[verifier::external_body]
fn read_lossy(bytes: &[u8]) -> (r: String)
    ensures
        r@ == lossy_text(bytes@),
        vstd::utf8::valid_utf8(bytes@) ==> r@ == vstd::utf8::decode_utf8(bytes@),
{
    String::from_utf8_lossy(bytes).into_owned()
}

/// The URL of the best icon that a page with this body links to in its first bytes.
pub fn best_icon_from_html(body: &[u8], origin: &str) -> (r: Option<String>)
    ensures
        owned_text(r) == linked_icon(body@, origin@),
        vstd::utf8::valid_utf8(page_head(body@)) ==> owned_text(r) == best_icon_url(
            vstd::utf8::decode_utf8(page_head(body@)),
            origin@,
        ),
{
    let head = if body.len() > PAGE_LIMIT {
        slice_subrange(body, 0, PAGE_LIMIT)
    } else {
        body
    };
    assert(head@ == page_head(body@));
    let html = read_lossy(head);
    pick_best_link(html.as_str(), origin)
}

/// The file extension and the content type of a body that can be an icon; `None` where it cannot.
pub fn judge_icon(content_type: &str, body: &[u8]) -> (r: Option<(&'static str, &'static str)>)
    ensures
        crate::media::kind_text(r) == icon_kind(content_type@, body@),
{
    let kind = response_kind(content_type, body);
    if looks_like_image(body, Some(kind.1)) && (ctype_kind(content_type).is_some()
        || looks_like_image(body, None)) {
        Some(kind)
    } else {
        None
    }
}

fn give_up() -> (r: (Phase, Action))
    ensures
        (r.0.text(), r.1@) == nothing_found(),
{
    (Phase::Done, Action::Answer { reply: status_response(404), keep: None })
}

impl IconJob {
    /// The job for the icon of the site at `url`, and its first action.
    pub fn start(url: &str, cookie_header: Option<&str>) -> (r: (IconJob, Action))
        ensures
            (r.0@, r.1@) == first(url@, text_of(cookie_header)),
    {
        let session = match cookie_header {
            Some(h) => extract_authelia_session(h),
            None => None,
        };
        match parse_origin(url) {
            Some(origin) => {
                let key = sha1_hex(origin.as_str().as_bytes());
                let name = cache_file(key.as_str(), cache_kind(0).0);
                (
                    IconJob { origin, key, session, phase: Phase::Cache { tried: 0 } },
                    Action::ReadFile(name),
                )
            },
            None => (
                IconJob {
                    origin: String::new(),
                    key: String::new(),
                    session,
                    phase: Phase::Done,
                },
                Action::Answer { reply: status_response(400), keep: None },
            ),
        }
    }

    fn session_text(&self) -> (r: Option<&str>)
        ensures
            text_of(r) == self@.session,
    {
        match &self.session {
            Some(s) => Some(s.as_str()),
            None => None,
        }
    }

    fn send(&self, settings: &Settings, goal: Goal, url: &str, sent: u8) -> (r: Option<
        (Phase, Action),
    >)
        requires
            all_wf(settings.lan_cidrs@),
        ensures
            (match r {
                Some(next) => Some((next.0.text(), next.1@)),
                None => None,
            }) == sending(
                self@,
                settings.cookie_domain@,
                settings.lan_cidrs@,
                goal,
                url@,
                sent as int,
            ),
    {
        match plan_request(url, self.session_text(), settings) {
            Some(request) => Some(
                (Phase::Sending { goal, url: copy_of(url), sent }, Action::Send(request)),
            ),
            None => None,
        }
    }

    fn lose(&self, settings: &Settings, goal: Goal) -> (r: (Phase, Action))
        requires
            all_wf(settings.lan_cidrs@),
        ensures
            (r.0.text(), r.1@) == lost(
                self@,
                settings.cookie_domain@,
                settings.lan_cidrs@,
                goal,
            ),
    {
        if goal == Goal::Customary {
            return give_up();
        }
        let mut place = copy_of(self.origin.as_str());
        place.append("/favicon.ico");
        match self.send(settings, Goal::Customary, place.as_str(), 1) {
            Some(next) => next,
            None => give_up(),
        }
    }

    fn head_for(&self, settings: &Settings, goal: Goal, url: &str, sent: u8) -> (r: (Phase, Action))
        requires
            all_wf(settings.lan_cidrs@),
        ensures
            (r.0.text(), r.1@) == heading(
                self@,
                settings.cookie_domain@,
                settings.lan_cidrs@,
                goal,
                url@,
                sent as int,
            ),
    {
        match self.send(settings, goal, url, sent) {
            Some(next) => next,
            None => self.lose(settings, goal),
        }
    }

    fn on_file(&self, settings: &Settings, tried: usize, file: Option<Vec<u8>>) -> (r: (
        Phase,
        Action,
    ))
        requires
            all_wf(settings.lan_cidrs@),
        ensures
            (r.0.text(), r.1@) == after_file(
                self@,
                settings.cookie_domain@,
                settings.lan_cidrs@,
                tried as int,
                owned_bytes(file),
            ),
    {
        match file {
            Some(bytes) => (
                Phase::Done,
                Action::Answer { reply: icon_response(bytes, cache_kind(tried).1), keep: None },
            ),
            None => {
                if tried < CACHE_KINDS - 1 {
                    let name = cache_file(self.key.as_str(), cache_kind(tried + 1).0);
                    (Phase::Cache { tried: tried + 1 }, Action::ReadFile(name))
                } else if egress_allowed(self.origin.as_str(), &settings.lan_cidrs).is_none() {
                    give_up()
                } else {
                    self.head_for(settings, Goal::Page, self.origin.as_str(), 1)
                }
            },
        }
    }

    fn on_head(
        &self,
        settings: &Settings,
        goal: Goal,
        sent: u8,
        hop: Hop,
        content_type: Option<String>,
    ) -> (r: (Phase, Action))
        requires
            all_wf(settings.lan_cidrs@),
        ensures
            (r.0.text(), r.1@) == after_head(
                self@,
                settings.cookie_domain@,
                settings.lan_cidrs@,
                goal,
                sent as int,
                hop@,
                owned_text(content_type),
            ),
    {
        match hop {
            Hop::Arrived => {
                let content_type = match content_type {
                    Some(t) => t,
                    None => String::new(),
                };
                let at_most = if goal == Goal::Page {
                    Some(PAGE_LIMIT)
                } else {
                    None
                };
                (Phase::Reading { goal, content_type }, Action::ReadBody { at_most })
            },
            Hop::Redirect(next) => if sent < MAX_REQUESTS {
                self.head_for(settings, goal, next.as_str(), sent + 1)
            } else {
                self.lose(settings, goal)
            },
            Hop::Lost => self.lose(settings, goal),
        }
    }

    fn on_body(
        &self,
        settings: &Settings,
        goal: Goal,
        content_type: &str,
        body: Option<Vec<u8>>,
    ) -> (r: (Phase, Action))
        requires
            all_wf(settings.lan_cidrs@),
        ensures
            (r.0.text(), r.1@) == (match owned_bytes(body) {
                None => lost(self@, settings.cookie_domain@, settings.lan_cidrs@, goal),
                Some(b) => if goal == Goal::Page {
                    after_page(
                        self@,
                        settings.cookie_domain@,
                        settings.lan_cidrs@,
                        linked_icon(b, self@.origin),
                    )
                } else {
                    after_icon(
                        self@,
                        settings.cookie_domain@,
                        settings.lan_cidrs@,
                        goal,
                        content_type@,
                        b,
                    )
                },
            }),
    {
        let bytes = match body {
            Some(b) => b,
            None => {
                return self.lose(settings, goal);
            },
        };
        if goal == Goal::Page {
            return match best_icon_from_html(bytes.as_slice(), self.origin.as_str()) {
                Some(url) => self.head_for(settings, Goal::Linked, url.as_str(), 1),
                None => self.lose(settings, Goal::Page),
            };
        }
        match judge_icon(content_type, bytes.as_slice()) {
            Some(kind) => {
                let name = cache_file(self.key.as_str(), kind.0);
                (
                    Phase::Done,
                    Action::Answer { reply: icon_response(bytes, kind.1), keep: Some(name) },
                )
            },
            None => self.lose(settings, goal),
        }
    }

    /// Tells the job what came of its last action; what it returns is the next one.
    pub fn step(&mut self, event: Event, settings: &Settings) -> (r: Action)
        requires
            all_wf(settings.lan_cidrs@),
        ensures
            final(self)@ == moved(
                old(self)@,
                settings.cookie_domain@,
                settings.lan_cidrs@,
                event@,
            ),
            r@ == next(old(self)@, settings.cookie_domain@, settings.lan_cidrs@, event@).1,
    {
        let (phase, action) = match (&self.phase, event) {
            (Phase::Cache { tried }, Event::File(file)) => self.on_file(settings, *tried, file),
            (Phase::Sending { goal, url, sent }, Event::NoResponse) => self.lose(settings, *goal),
            (
                Phase::Sending { goal, url, sent },
                Event::Response { status, location, content_type },
            ) => {
                let place = match &location {
                    Some(l) => Some(l.as_str()),
                    None => None,
                };
                let hop = follow(url.as_str(), status, place);
                self.on_head(settings, *goal, *sent, hop, content_type)
            },
            (Phase::Reading { goal, content_type }, Event::Body(body)) => self.on_body(
                settings,
                *goal,
                content_type.as_str(),
                body,
            ),
            _ => give_up(),
        };
        self.phase = phase;
        action
    }
}

} // verus!
