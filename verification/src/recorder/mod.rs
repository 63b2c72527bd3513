//! Byte-exact capture of live HTTP exchanges.
//!
//! A [`Recorder`] plans an HTTP/1.1 exchange over a connection of its own and assembles the exact
//! request and response bytes in [`CapturedExchange`]. It serializes the request itself and stores
//! the response verbatim, parsing only enough to find the message boundary. This preserves chunked
//! coding, header spelling, and the reason phrase, so block digests cover bytes that crossed the
//! wire. To archive an exchange performed by another client, use
//! [`record::http`](crate::record::http) to reconstruct blocks from parsed parts.
//!
//! Each fetch is one connection for one request and response. It does not follow redirects, decode
//! content, or reuse the connection. It adds `host` when absent and defaults a missing `connection`
//! header to `close`. Interim (`1xx`) responses are discarded. An unframed response, or one whose
//! final transfer coding is not `chunked`, ends when the connection closes.
//!
//! [`max_response_length`](Recorder::max_response_length) bounds stored response bytes. A limit,
//! disconnect, or I/O timeout truncates the response instead of failing the fetch; the reason is
//! available in [`CapturedExchange::truncated`]. Without a bound, response size is unlimited.

use crate::record::capture::{CaptureEvent, Event};
use crate::record::extension::NoExtension;
use crate::record::header::truncated_type::TruncatedType;
use crate::record::http::{
    header_lines, line_octets, lines_in, lines_of_map, path_of, request_message, request_octets,
    response_fields, section_octets, slice_in, HeaderLine, Method, Parts, ResponseMetadata, Target,
    Version,
};
use crate::record::payload;
use crate::record::payload::{body_of, entity_body, octets_in};
use crate::recorder::framing::{status_of, ResponseError, ResponseFault};
use crate::recorder::response::{header_end, Progress, ResponseReader};
use crate::octets::{copied, octets};
use crate::text::{chars_of, same_text, string_of};
use crate::value::uri::uri_fault;
use crate::value::{uri, IpAddress, Uri, WarcDate};
use std::borrow::Cow;
use vstd::prelude::*;
use vstd::slice::slice_subrange;
use vstd::string::*;

pub mod chunks;
pub mod declared;
pub mod ending;
pub mod framing;
pub mod response;

verus! {

/// Errors returned while planning or completing a recorded exchange.
#[derive(Clone, Debug, Eq, PartialEq)]
pub enum Error {
    /// The target is not an absolute HTTP or HTTPS URI.
    UnsupportedScheme,
    /// The target names no host.
    MissingHost,
    /// The target cannot be represented as a `WARC-Target-URI`.
    TargetUri(uri::Error),
    /// Response framing is malformed.
    Response(ResponseError),
}

/// What an [`Error`] says.
pub ghost enum Fault {
    /// The scheme is not supported.
    UnsupportedScheme,
    /// There is no host.
    MissingHost,
    /// The target is not a URI.
    TargetUri(Seq<char>),
    /// The response is malformed.
    Response(ResponseFault),
}

impl View for Error {
    type V = Fault;

    open spec fn view(&self) -> Fault {
        match self {
            Error::UnsupportedScheme => Fault::UnsupportedScheme,
            Error::MissingHost => Fault::MissingHost,
            Error::TargetUri(error) => Fault::TargetUri(error.0@),
            Error::Response(error) => Fault::Response(error@),
        }
    }
}

/// Whether a target is reached over TLS, where its scheme is supported.
pub open spec fn secured(parts: Parts) -> Option<bool> {
    if parts.scheme == Some("http"@) {
        Some(false)
    } else if parts.scheme == Some("https"@) {
        Some(true)
    } else {
        None
    }
}

/// A host without the brackets that a URI puts around an IPv6 address.
pub open spec fn without_brackets(host: Seq<char>) -> Seq<char> {
    if host.len() >= 2 && host[0] == '[' && host.last() == ']' {
        host.subrange(1, host.len() - 1)
    } else {
        host
    }
}

/// The host and the port in an authority: what stands behind the last `@`.
pub open spec fn host_and_port(authority: Seq<u8>) -> Seq<u8>
    decreases authority.len(),
{
    let at = crate::octets::position(authority, 0x40, 0);
    if 0 <= at < authority.len() {
        host_and_port(authority.skip(at + 1))
    } else {
        authority
    }
}

/// Whether a field of a name is among the fields.
pub open spec fn names(lines: Seq<HeaderLine>, name: Seq<char>) -> bool {
    exists|i: int| 0 <= i < lines.len() && #[trigger] lines[i].0 == name
}

/// The fields of a request: those that were given, with `host` before them and `connection` behind
/// them where they are missing.
pub open spec fn prepared(lines: Seq<HeaderLine>, host: Seq<u8>) -> Seq<HeaderLine> {
    let before = if names(lines, "host"@) {
        Seq::empty()
    } else {
        seq![("host"@, host)]
    };
    let after = if names(lines, "connection"@) {
        Seq::empty()
    } else {
        seq![("connection"@, octets("close"@))]
    };
    before + lines + after
}

/// What keeps a target from being fetched.
pub open spec fn target_fault(parts: Parts) -> Option<Fault> {
    if secured(parts) is None {
        Some(Fault::UnsupportedScheme)
    } else if parts.authority is None || parts.host is None || parts.host->0.len() == 0 {
        Some(Fault::MissingHost)
    } else {
        match uri_fault(parts.text) {
            Some(fault) => Some(Fault::TargetUri(fault)),
            None => None,
        }
    }
}

/// What is to be done for a fetch: connect, send the request, and read the response.
#[derive(Debug)]
pub struct FetchPlan {
    /// Whether the connection is secured by TLS.
    pub tls: bool,
    /// The host to connect to.
    pub host: String,
    /// The port to connect to.
    pub port: u16,
    /// The requested URI.
    pub target_uri: Uri,
    /// Request bytes exactly as they are to be written.
    pub request: Vec<u8>,
    /// Whether the request is a `HEAD` request.
    pub head_request: bool,
}

/// Whether a plan is that of a fetch.
pub open spec fn is_plan(
    plan: FetchPlan,
    method: Seq<char>,
    parts: Parts,
    lines: Seq<HeaderLine>,
    body: Option<Seq<u8>>,
) -> bool {
    &&& Some(plan.tls) == secured(parts)
    &&& plan.host@ == without_brackets(parts.host->0)
    &&& plan.port == match parts.port {
        Some(port) => port,
        None => if plan.tls {
            443u16
        } else {
            80u16
        },
    }
    &&& plan.target_uri@ == parts.text
    &&& plan.request@ == request_octets(
        method,
        path_of(parts),
        Version::Http11,
        prepared(lines, host_and_port(octets(parts.authority->0))),
        body,
    )
    &&& plan.head_request == (method == "HEAD"@)
}

/// The part of a plan that records the exact bytes of one exchange per fetch: the bound on what is
/// stored.
#[derive(Clone, Copy, Debug)]
pub struct Recorder {
    max_response_length: Option<u64>,
}

impl Default for Recorder {
    fn default() -> (r: Self)
        ensures
            r.bound() is None,
    {
        Recorder::new()
    }
}

/// Whether a field of a name is among the fields.
fn contains_name(lines: &Vec<(String, Vec<u8>)>, name: &str) -> (r: bool)
    ensures
        r == names(lines_in(lines@), name@),
{
    let ghost all = lines_in(lines@);
    let mut i: usize = 0;
    while i < lines.len()
        invariant
            i <= lines.len(),
            all == lines_in(lines@),
            forall|j: int| 0 <= j < i ==> #[trigger] all[j].0 != name@,
        decreases lines.len() - i,
    {
        assert(all[i as int].0 == lines@[i as int].0@);
        if same_text(lines[i].0.as_str(), name) {
            return true;
        }
        i = i + 1;
    }
    false
}

/// The host and the port in an authority.
fn authority_host(authority: &[u8]) -> (r: Vec<u8>)
    ensures
        r@ == host_and_port(authority@),
{
    let mut from: usize = 0;
    assert(authority@.skip(0) =~= authority@);
    loop
        invariant
            from <= authority.len(),
            host_and_port(authority@) == host_and_port(authority@.skip(from as int)),
        decreases authority.len() - from,
    {
        let rest = slice_subrange(authority, from, authority.len());
        assert(rest@ =~= authority@.skip(from as int));
        proof {
            crate::octets::lemma_position(rest@, 0x40, 0);
        }
        let at: usize = crate::octets::find(rest, 0x40, 0);
        if at == rest.len() {
            return copied(rest);
        }
        assert(rest@.skip(at + 1) =~= authority@.skip(from + at + 1));
        from = from + at + 1;
    }
}

impl Recorder {
    /// The bound on the octets stored.
    pub closed spec fn bound(&self) -> Option<u64> {
        self.max_response_length
    }

    /// Create a recorder without a response-size bound.
    #[must_use]
    pub fn new() -> (r: Self)
        ensures
            r.bound() is None,
    {
        Recorder { max_response_length: None }
    }

    /// Set the maximum stored response length, including the header section.
    ///
    /// Reaching the limit records a `length` truncation. A header section larger than the limit
    /// fails because it cannot be partially recorded.
    #[must_use]
    pub fn max_response_length(self, length: u64) -> (r: Self)
        ensures
            r.bound() == Some(length),
    {
        let mut r = self;
        r.max_response_length = Some(length);
        r
    }

    /// Plan one HTTP/1.1 exchange.
    ///
    /// The request is serialized from its parts. Missing `host` and `connection` headers are added,
    /// and framing is normalized for a provided body.
    ///
    /// # Errors
    ///
    /// Returns an error for a target that cannot be fetched.
    pub fn plan(
        &self,
        method: &Method,
        target: &Target,
        headers: &::http::HeaderMap,
        body: Option<&[u8]>,
    ) -> (r: Result<FetchPlan, Error>)
        ensures
            match r {
                Ok(plan) => target_fault(target@) is None && is_plan(
                    plan,
                    method@,
                    target@,
                    header_lines(*headers),
                    slice_in(body),
                ),
                Err(error) => target_fault(target@) == Some(error@),
            },
            r matches Ok(plan) ==> (target@.port is None && target@.scheme == Some("https"@)
                ==> plan.tls && plan.port == 443),
            r matches Ok(plan) ==> (target@.port is None && target@.scheme == Some("http"@)
                ==> !plan.tls && plan.port == 80),
            r matches Ok(plan) ==> (target@.port matches Some(port) ==> plan.port == port),
            target@.scheme != Some("http"@) && target@.scheme != Some("https"@) ==> r == Err::<
                FetchPlan,
                Error,
            >(Error::UnsupportedScheme),
    {
        plan_request(method, target, lines_of_map(headers), body)
    }

    /// The reader of the response to a planned request.
    pub fn reader(&self, plan: &FetchPlan) -> (r: ResponseReader)
        ensures
            r.progress() == Progress::Reading(Seq::empty(), None),
            r.is_head() == plan.head_request,
            r.bound() == self.bound(),
    {
        ResponseReader::new(plan.head_request, self.max_response_length)
    }
}

/// Plan one HTTP/1.1 exchange, with the fields of the request as pairs.
///
/// # Errors
///
/// Returns an error for a target that cannot be fetched.
pub fn plan_request(
    method: &Method,
    target: &Target,
    lines: Vec<(String, Vec<u8>)>,
    body: Option<&[u8]>,
) -> (r: Result<FetchPlan, Error>)
    ensures
        match r {
            Ok(plan) => target_fault(target@) is None && is_plan(
                plan,
                method@,
                target@,
                lines_in(lines@),
                slice_in(body),
            ),
            Err(error) => target_fault(target@) == Some(error@),
        },
        r matches Ok(plan) ==> (target@.port is None && target@.scheme == Some("https"@)
            ==> plan.tls && plan.port == 443),
        r matches Ok(plan) ==> (target@.port is None && target@.scheme == Some("http"@)
            ==> !plan.tls && plan.port == 80),
        r matches Ok(plan) ==> (target@.port matches Some(port) ==> plan.port == port),
        target@.scheme != Some("http"@) && target@.scheme != Some("https"@) ==> r == Err::<
            FetchPlan,
            Error,
        >(Error::UnsupportedScheme),
{
    proof {
        lemma_schemes_differ();
    }
    let tls = match target.scheme() {
        Some(scheme) => if same_text(scheme, "http") {
            false
        } else if same_text(scheme, "https") {
            true
        } else {
            return Err(Error::UnsupportedScheme);
        },
        None => {
            return Err(Error::UnsupportedScheme);
        },
    };
    let (authority, raw_host) = match (target.authority(), target.host()) {
        (Some(authority), Some(host)) => (authority, host),
        _ => {
            return Err(Error::MissingHost);
        },
    };
    if raw_host.as_bytes().len() == 0 {
        proof {
            lemma_empty_text(raw_host@);
        }
        return Err(Error::MissingHost);
    }
    assert(raw_host@.len() > 0) by {
        if raw_host@.len() == 0 {
            assert(octets(raw_host@).len() == 0);
        }
    }
    let host = unbracketed(raw_host);
    let port: u16 = match target.port() {
        Some(port) => port,
        None => if tls {
            443
        } else {
            80
        },
    };
    let target_uri = match Uri::parse(target.text()) {
        Ok(uri) => uri,
        Err(error) => {
            return Err(Error::TargetUri(error));
        },
    };
    let prepared = prepare(lines, authority_host(authority.as_bytes()));
    let request = request_message(method, target, Version::Http11, &prepared, body);
    let head_request = same_text(method.as_str(), "HEAD");
    Ok(FetchPlan { tls, host, port, target_uri, request, head_request })
}

/// The fields of a request, with those that are missing.
fn prepare(lines: Vec<(String, Vec<u8>)>, host: Vec<u8>) -> (r: Vec<(String, Vec<u8>)>)
    ensures
        lines_in(r@) == prepared(lines_in(lines@), host@),
{
    let has_host = contains_name(&lines, "host");
    let has_connection = contains_name(&lines, "connection");
    let ghost given = lines@;
    let mut r: Vec<(String, Vec<u8>)> = Vec::new();
    if !has_host {
        r.push(("host".to_string(), host));
    }
    let ghost before = r@;
    let mut lines = lines;
    r.append(&mut lines);
    if !has_connection {
        r.push(("connection".to_string(), copied("close".as_bytes())));
    }
    proof {
        assert(lines_in(r@) =~= prepared(lines_in(given), host@));
    }
    r
}

/// A text of no octets holds no character.
proof fn lemma_empty_text(text: Seq<char>)
    requires
        octets(text).len() == 0,
    ensures
        text.len() == 0,
{
    let none = Seq::<char>::empty();
    assert(octets(none) =~= octets(text));
    crate::octets::lemma_octets_injective(text, none);
}

/// A host without the brackets that a URI puts around an IPv6 address, which neither name
/// resolution nor TLS takes.
fn unbracketed(host: &str) -> (r: String)
    ensures
        r@ == without_brackets(host@),
{
    let all = chars_of(host);
    let len = all.len();
    if len >= 2 && all[0] == '[' && all[len - 1] == ']' {
        let mut inner: Vec<char> = Vec::new();
        let mut i: usize = 1;
        while i < len - 1
            invariant
                2 <= len == all.len(),
                1 <= i <= len - 1,
                inner@ == all@.subrange(1, i as int),
            decreases len - i,
        {
            inner.push(all[i]);
            assert(inner@ =~= all@.subrange(1, i + 1));
            i = i + 1;
        }
        string_of(&inner)
    } else {
        host.to_string()
    }
}

/// The fields of a request name a host and a connection, and hold the given fields in order.
pub proof fn lemma_prepared(lines: Seq<HeaderLine>, host: Seq<u8>)
    ensures
        names(prepared(lines, host), "host"@),
        names(prepared(lines, host), "connection"@),
        names(lines, "host"@) && names(lines, "connection"@) ==> prepared(lines, host) == lines,
        exists|from: int|
            0 <= from && from + lines.len() <= prepared(lines, host).len() && #[trigger] prepared(
                lines,
                host,
            ).subrange(from, from + lines.len()) == lines,
{
    let all = prepared(lines, host);
    let from: int = if names(lines, "host"@) {
        0
    } else {
        1
    };
    assert(all.subrange(from, from + lines.len()) =~= lines);
    if names(lines, "host"@) {
        let i = choose|i: int| 0 <= i < lines.len() && #[trigger] lines[i].0 == "host"@;
        assert(all[i + from].0 == "host"@);
    } else {
        assert(all[0].0 == "host"@);
    }
    if names(lines, "connection"@) {
        let i = choose|i: int| 0 <= i < lines.len() && #[trigger] lines[i].0 == "connection"@;
        assert(all[i + from].0 == "connection"@);
    } else {
        assert(all[all.len() - 1].0 == "connection"@);
    }
    if names(lines, "host"@) && names(lines, "connection"@) {
        assert(all =~= lines);
    }
}

proof fn lemma_schemes_differ()
    ensures
        "http"@ != "https"@,
{
    reveal_strlit("http");
    reveal_strlit("https");
    assert("http"@.len() == 4 && "https"@.len() == 5);
}

/// A target is fetched where its scheme is `http` or `https`, it names a host, and it can be a
/// target URI, and is refused for what it lacks first otherwise.
pub proof fn lemma_target_is_fetched(parts: Parts)
    ensures
        target_fault(parts) is None <==> (parts.scheme == Some("http"@) || parts.scheme == Some(
            "https"@,
        )) && parts.authority is Some && parts.host is Some && parts.host->0.len() > 0
            && uri_fault(parts.text) is None,
        parts.scheme != Some("http"@) && parts.scheme != Some("https"@) ==> target_fault(parts)
            == Some(Fault::UnsupportedScheme),
        (parts.scheme == Some("http"@) || parts.scheme == Some("https"@)) && (
        parts.authority is None || parts.host is None || parts.host->0.len() == 0)
            ==> target_fault(parts) == Some(Fault::MissingHost),
{
}

/// A plan connects to the port that its target names, and to that of its scheme where it names
/// none: 443 under TLS, which `https` asks for, and 80 otherwise. It connects to the host that the
/// target names, without the brackets around an address. It is one of a `HEAD` request exactly where
/// the method is `HEAD`.
pub proof fn lemma_plan_connects(
    plan: FetchPlan,
    method: Seq<char>,
    parts: Parts,
    lines: Seq<HeaderLine>,
    body: Option<Seq<u8>>,
    host: Seq<char>,
)
    requires
        target_fault(parts) is None,
        is_plan(plan, method, parts, lines, body),
    ensures
        plan.tls <==> parts.scheme == Some("https"@),
        parts.port is None && plan.tls ==> plan.port == 443,
        parts.port is None && !plan.tls ==> plan.port == 80,
        parts.port matches Some(port) ==> plan.port == port,
        parts.host == Some(seq!['['] + host + seq![']']) ==> plan.host@ == host,
        parts.host == Some(host) && (host[0] != '[' || host.last() != ']') ==> plan.host@ == host,
        plan.target_uri@ == parts.text,
        plan.head_request <==> method == "HEAD"@,
{
    lemma_schemes_differ();
    let bracketed = seq!['['] + host + seq![']'];
    assert(bracketed.subrange(1, bracketed.len() - 1) =~= host);
}

/// The host and the port of an authority are what stands behind the last `@`, or all of it where
/// there is none.
pub proof fn lemma_user_is_left_out(user: Seq<u8>, rest: Seq<u8>)
    requires
        forall|i: int| 0 <= i < rest.len() ==> #[trigger] rest[i] != 0x40,
    ensures
        host_and_port(rest) == rest,
        host_and_port(user + seq![0x40u8] + rest) == rest,
    decreases user.len(),
{
    crate::octets::lemma_position(rest, 0x40, 0);
    let all = user + seq![0x40u8] + rest;
    crate::octets::lemma_position(all, 0x40, 0);
    let at = crate::octets::position(all, 0x40, 0);
    assert(all[user.len() as int] == 0x40);
    assert(at <= user.len());
    assert(host_and_port(rest) == rest);
    assert(host_and_port(all) == host_and_port(all.skip(at + 1)));
    if at == user.len() {
        assert(all.skip(at + 1) =~= rest);
    } else {
        assert(all.skip(at + 1) =~= user.skip(at + 1) + seq![0x40u8] + rest);
        lemma_user_is_left_out(user.skip(at + 1), rest);
    }
}

/// What is sent for a request without a body: the request line, a `host` field where none was given,
/// the given fields in their order, a `connection` field where none was given, and an empty line.
pub proof fn lemma_plan_is_sent(
    plan: FetchPlan,
    method: Seq<char>,
    parts: Parts,
    lines: Seq<HeaderLine>,
)
    requires
        is_plan(plan, method, parts, lines, None),
    ensures
        ({
            let path = match parts.path_and_query {
                Some(path) => octets(path),
                None => seq![0x2fu8],
            };
            let line = octets(method) + seq![0x20u8] + path + seq![
                0x20u8,
                0x48,
                0x54,
                0x54,
                0x50,
                0x2f,
                0x31,
                0x2e,
                0x31,
                0x0d,
                0x0a,
            ];
            let host = if names(lines, "host"@) {
                Seq::empty()
            } else {
                octets("host: "@) + host_and_port(octets(parts.authority->0)) + seq![0x0du8, 0x0a]
            };
            let connection = if names(lines, "connection"@) {
                Seq::empty()
            } else {
                octets("connection: close"@) + seq![0x0du8, 0x0a]
            };
            plan.request@ == line + host + section_octets(lines) + connection + seq![0x0du8, 0x0a]
        }),
{
    let host = host_and_port(octets(parts.authority->0));
    let before = if names(lines, "host"@) {
        Seq::<HeaderLine>::empty()
    } else {
        seq![("host"@, host)]
    };
    let after = if names(lines, "connection"@) {
        Seq::<HeaderLine>::empty()
    } else {
        seq![("connection"@, octets("close"@))]
    };
    lemma_sections_join(before + lines, after);
    lemma_sections_join(before, lines);
    lemma_one_section(("host"@, host));
    lemma_one_section(("connection"@, octets("close"@)));
    assert(section_octets(Seq::<HeaderLine>::empty()) =~= Seq::empty());
    reveal_strlit("host");
    reveal_strlit("host: ");
    reveal_strlit("connection");
    reveal_strlit("close");
    reveal_strlit("connection: close");
    reveal_strlit("/");
    reveal_strlit("HTTP/1.1");
    crate::octets::lemma_ascii_octets_of("host"@);
    crate::octets::lemma_ascii_octets_of("host: "@);
    crate::octets::lemma_ascii_octets_of("connection"@);
    crate::octets::lemma_ascii_octets_of("close"@);
    crate::octets::lemma_ascii_octets_of("connection: close"@);
    crate::octets::lemma_ascii_octets_of("/"@);
    crate::octets::lemma_ascii_octets_of("HTTP/1.1"@);
    assert(octets("host: "@) =~= octets("host"@) + seq![0x3au8, 0x20]);
    assert(octets("connection: close"@) =~= octets("connection"@) + seq![0x3au8, 0x20] + octets(
        "close"@,
    ));
    assert(octets("/"@) =~= seq![0x2fu8]);
    let path = match parts.path_and_query {
        Some(path) => octets(path),
        None => seq![0x2fu8],
    };
    let version = octets("HTTP/1.1"@);
    assert(version =~= seq![0x48u8, 0x54, 0x54, 0x50, 0x2f, 0x31, 0x2e, 0x31]);
    let line = octets(method) + seq![0x20u8] + path + seq![
        0x20u8,
        0x48,
        0x54,
        0x54,
        0x50,
        0x2f,
        0x31,
        0x2e,
        0x31,
        0x0d,
        0x0a,
    ];
    assert(line =~= octets(method) + seq![0x20u8] + path + seq![0x20u8] + version + seq![
        0x0du8,
        0x0a,
    ]);
    assert(plan.request@ =~= line + (section_octets(before) + section_octets(lines)
        + section_octets(after) + seq![0x0du8, 0x0a]));
}

/// The octets of fields are those of some and those of the others.
proof fn lemma_sections_join(a: Seq<HeaderLine>, b: Seq<HeaderLine>)
    ensures
        section_octets(a + b) == section_octets(a) + section_octets(b),
    decreases b.len(),
{
    if b.len() == 0 {
        assert(a + b =~= a);
        assert(section_octets(a) + section_octets(b) =~= section_octets(a));
    } else {
        lemma_sections_join(a, b.drop_last());
        assert((a + b).drop_last() =~= a + b.drop_last());
        assert(section_octets(a + b) =~= section_octets(a) + section_octets(b));
    }
}

proof fn lemma_one_section(line: HeaderLine)
    ensures
        section_octets(seq![line]) == octets(line.0) + seq![0x3au8, 0x20] + line.1 + seq![
            0x0du8,
            0x0a,
        ],
{
    let none = Seq::<HeaderLine>::empty();
    assert(section_octets(none) =~= Seq::empty());
    assert(seq![line].drop_last() =~= none);
    assert(seq![line].last() == line);
    assert(section_octets(seq![line]) =~= line_octets(line));
}

/// A recorded exchange and the fields needed to build its capture records.
///
/// [`capture_event`](Self::capture_event) copies the shared fields into a [`CaptureEvent`].
#[derive(Clone, Debug, Eq, PartialEq)]
pub struct CapturedExchange {
    /// Request bytes exactly as written.
    pub request: Vec<u8>,
    /// Response bytes exactly as read, from the final status line through the recorded end.
    pub response: Vec<u8>,
    /// Parsed fields and boundaries of the recorded response.
    pub response_metadata: ResponseMetadata,
    /// The requested URI.
    pub target_uri: Uri,
    /// The peer IP address.
    pub ip_address: IpAddress,
    /// When network activity began.
    pub date: WarcDate,
    /// Time from starting network activity to finishing the response, in whole milliseconds.
    pub fetch_time: u128,
    /// Why the response was truncated, if applicable.
    pub truncated: Option<TruncatedType>,
}

/// Whether two optional reasons are the same.
pub open spec fn same_reason(a: Option<TruncatedType>, b: Option<TruncatedType>) -> bool {
    match (a, b) {
        (Some(TruncatedType::Unknown(a)), Some(TruncatedType::Unknown(b))) => a@ == b@,
        _ => a == b,
    }
}

/// The same reason again.
fn copied_reason(reason: &TruncatedType) -> (r: TruncatedType)
    ensures
        same_reason(Some(r), Some(*reason)),
{
    match reason {
        TruncatedType::Length => TruncatedType::Length,
        TruncatedType::Time => TruncatedType::Time,
        TruncatedType::Disconnect => TruncatedType::Disconnect,
        TruncatedType::Unspecified => TruncatedType::Unspecified,
        TruncatedType::Extension(reason) => TruncatedType::Extension(*reason),
        TruncatedType::Unknown(token) => TruncatedType::Unknown(token.clone()),
    }
}

impl CapturedExchange {
    /// Assemble what a planned exchange has come to: the response that was read, why it was
    /// truncated, the peer, when network activity began, and how many milliseconds it took.
    ///
    /// # Errors
    ///
    /// Returns an error if the response does not open with a complete header section.
    pub fn assemble(
        plan: FetchPlan,
        response: Vec<u8>,
        truncated: Option<TruncatedType>,
        ip_address: IpAddress,
        date: WarcDate,
        fetch_time: u128,
    ) -> (r: Result<Self, Error>)
        ensures
            match r {
                Ok(exchange) => {
                    &&& exchange.request == plan.request
                    &&& exchange.response == response
                    &&& status_of(response@) == Some(exchange.response_metadata@.status)
                    &&& header_end(response@, 0) == Some(
                        exchange.response_metadata@.body_offset,
                    )
                    &&& response_fields(response@) == Some(exchange.response_metadata@.fields)
                    &&& exchange.is_whole()
                    &&& exchange.target_uri == plan.target_uri
                    &&& exchange.ip_address == ip_address
                    &&& exchange.date == date
                    &&& exchange.fetch_time == fetch_time
                    &&& exchange.truncated == truncated
                },
                Err(error) => {
                    &&& status_of(response@) is None || response_fields(response@) is None
                    &&& error@ == Fault::Response(ResponseFault::MalformedStatusLine)
                },
            },
    {
        let response_metadata = match ResponseMetadata::parse(response.as_slice()) {
            Some(metadata) => metadata,
            None => {
                return Err(Error::Response(ResponseError::MalformedStatusLine));
            },
        };
        Ok(
            CapturedExchange {
                request: plan.request,
                response,
                response_metadata,
                target_uri: plan.target_uri,
                ip_address,
                date,
                fetch_time,
                truncated,
            },
        )
    }

    /// Whether the body starts within the response.
    pub open spec fn is_whole(&self) -> bool {
        self.response_metadata@.body_offset <= self.response@.len()
    }

    /// Create a capture event with this exchange's shared fields.
    #[must_use]
    pub fn capture_event(&self) -> (r: CaptureEvent)
        ensures
            same_reason(r@.truncated, self.truncated),
            r@ == (Event::<NoExtension> {
                target_uri: self.target_uri@,
                date: self.date,
                warcinfo_id: None,
                ip_address: Some(self.ip_address),
                payload_digest: None,
                truncated: r@.truncated,
                fetch_time: Some(self.fetch_time),
                identify_payload_type: false,
            }),
    {
        let event = CaptureEvent::<NoExtension>::new(self.target_uri.clone(), self.date).ip_address(
            self.ip_address,
        ).fetch_time(self.fetch_time);
        match &self.truncated {
            Some(reason) => event.truncated(copied_reason(reason)),
            None => event,
        }
    }

    /// Return the decoded response entity body.
    ///
    /// # Errors
    ///
    /// Returns an error if the body cannot be decoded.
    pub fn entity_body(&self) -> (r: Result<Cow<'_, [u8]>, payload::Error>)
        ensures
            match r {
                Ok(body) => body_of(self.response@) == Ok::<Seq<u8>, payload::Fault>(
                    octets_in(body),
                ),
                Err(error) => body_of(self.response@) == Err::<Seq<u8>, payload::Fault>(error@),
            },
    {
        entity_body(self.response.as_slice())
    }

    /// Return the recorded bytes after the response header section without transfer decoding.
    #[must_use]
    pub fn stored_body(&self) -> (r: &[u8])
        requires
            self.is_whole(),
        ensures
            r@ == self.response@.skip(self.response_metadata@.body_offset),
    {
        let r = slice_subrange(
            self.response.as_slice(),
            self.response_metadata.body_start(),
            self.response.len(),
        );
        assert(r@ =~= self.response@.skip(self.response_metadata@.body_offset));
        r
    }
}

} // verus!
