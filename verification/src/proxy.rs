//! The HTTP endpoints of an API server, which hands requests on to the matcher
//! and the matcher's answers back.

use vstd::prelude::*;

use crate::text;

verus! {

/// The address to which a request for `endpoint` is handed on.
pub fn upstream_url(base: &str, endpoint: &str) -> (url: String)
    ensures
        url@ == text::without_trailing_slashes(base@) + endpoint@,
{
    let trimmed = text::trim_trailing_slashes(base);
    text::concat_text(trimmed.as_str(), endpoint)
}

/// The content type of all that is handed on, in either direction.
pub open spec fn json_type() -> Seq<char> {
    "application/json"@
}

/// An HTTP method.
#[derive(Debug, Clone, Copy, PartialEq, Eq, Structural)]
pub enum Method {
    Get,
    Post,
}

/// The body of a request and its content type.
#[derive(Debug)]
pub struct Content {
    pub content_type: String,
    pub body: Vec<u8>,
}

/// A request to the matcher.
#[derive(Debug)]
pub struct UpstreamRequest {
    pub method: Method,
    pub url: String,
    pub content: Option<Content>,
}

/// Hands `POST /orders` on to the matcher at `base`: the client's body as it came
/// in, as JSON.
pub fn post_orders(base: &str, body: Vec<u8>) -> (request: UpstreamRequest)
    ensures
        request.method == Method::Post,
        request.url@ == text::without_trailing_slashes(base@) + "/orders"@,
        request.content matches Some(content) && content.content_type@ == json_type()
            && content.body == body,
{
    UpstreamRequest {
        method: Method::Post,
        url: upstream_url(base, "/orders"),
        content: Some(Content { content_type: "application/json".to_owned(), body }),
    }
}

/// Hands `GET /orderbook` on to the matcher at `base`.
pub fn get_orderbook(base: &str) -> (request: UpstreamRequest)
    ensures
        request.method == Method::Get,
        request.url@ == text::without_trailing_slashes(base@) + "/orderbook"@,
        request.content is None,
{
    UpstreamRequest {
        method: Method::Get,
        url: upstream_url(base, "/orderbook"),
        content: None,
    }
}

/// What became of a request that was handed on.
#[derive(Debug)]
pub enum Upstream {
    /// It did not get through.
    SendFailed(String),
    /// It was answered, but the answer could not be read.
    BodyFailed(String),
    /// It was answered.
    Answered { status: u16, body: Vec<u8> },
}

/// The body of a reply.
#[derive(Debug)]
pub enum ProxyBody {
    /// The matcher's answer.
    Forwarded(Vec<u8>),
    /// Why there is none.
    Error(String),
}

/// A reply to a client: an HTTP status code, and a body with its content type.
#[derive(Debug)]
pub struct ProxyReply {
    pub status: u16,
    pub content_type: String,
    pub body: ProxyBody,
}

impl ProxyReply {
    /// Whether the client gets an error with this status and text.
    pub open spec fn is_error(self, status: u16, text: Seq<char>) -> bool {
        &&& self.status == status
        &&& self.body matches ProxyBody::Error(error)
        &&& error@ == text
    }
}

/// Whether `status` has the three digits of an HTTP status code.
pub open spec fn is_status(status: u16) -> bool {
    100 <= status <= 999
}

/// Answers the client: with the matcher's own status and body, or, if there is
/// no answer, as a gateway that got none. A status that is none is not passed on.
/// Every reply is JSON.
pub fn forward(upstream: Upstream) -> (reply: ProxyReply)
    ensures
        reply.content_type@ == json_type(),
        match upstream {
            Upstream::SendFailed(error) => reply.is_error(
                502,
                "matcher request failed: "@ + error@,
            ),
            Upstream::BodyFailed(error) => reply.is_error(502, "read body: "@ + error@),
            Upstream::Answered { status, body } => {
                &&& reply.status == if is_status(status) {
                    status
                } else {
                    502
                }
                &&& reply.body == ProxyBody::Forwarded(body)
            },
        },
{
    let content_type = "application/json".to_owned();
    match upstream {
        Upstream::SendFailed(error) => ProxyReply {
            status: 502,
            content_type,
            body: ProxyBody::Error(text::concat_text("matcher request failed: ", error.as_str())),
        },
        Upstream::BodyFailed(error) => ProxyReply {
            status: 502,
            content_type,
            body: ProxyBody::Error(text::concat_text("read body: ", error.as_str())),
        },
        Upstream::Answered { status, body } => ProxyReply {
            status: if 100 <= status && status <= 999 {
                status
            } else {
                502
            },
            content_type,
            body: ProxyBody::Forwarded(body),
        },
    }
}

/// What the matcher answered comes through: the client gets every three-digit
/// status as it is, and 502 in place of any other, with the body as it is, as JSON.
pub proof fn answers_come_through(status: u16, body: Vec<u8>, reply: ProxyReply)
    requires
        call_ensures(forward, (Upstream::Answered { status, body },), reply),
    ensures
        100 <= status <= 999 ==> reply.status == status,
        status < 100 || status > 999 ==> reply.status == 502,
        reply.body == ProxyBody::Forwarded(body),
        reply.content_type@ == "application/json"@,
{
}

/// Where the matcher gave no answer, the client gets 502 and, as JSON, an error
/// that ends in what went wrong and says before that where.
pub proof fn failures_are_gateway_errors(
    sent: bool,
    error: String,
    upstream: Upstream,
    reply: ProxyReply,
)
    requires
        upstream == if sent {
            Upstream::BodyFailed(error)
        } else {
            Upstream::SendFailed(error)
        },
        call_ensures(forward, (upstream,), reply),
    ensures
        reply.status == 502,
        reply.content_type@ == "application/json"@,
        reply.body matches ProxyBody::Error(text) && text@ == if sent {
            "read body: "@ + error@
        } else {
            "matcher request failed: "@ + error@
        },
{
}

/// Requests reach the matcher as they came in: an order as a `POST` of the client's
/// body, as JSON, to the base address and `/orders`, a look at the book as a bare
/// `GET` from it and `/orderbook`. The base address loses the slashes at its end and
/// nothing else.
pub proof fn requests_reach_the_matcher(
    base: &str,
    body: Vec<u8>,
    order: UpstreamRequest,
    look: UpstreamRequest,
)
    requires
        call_ensures(post_orders, (base, body), order),
        call_ensures(get_orderbook, (base,), look),
    ensures
        order.method == Method::Post,
        order.content matches Some(content) && content.body == body && content.content_type@
            == "application/json"@,
        look.method == Method::Get,
        look.content is None,
        exists|n: int|
            {
                &&& 0 <= n <= base@.len()
                &&& order.url@ == #[trigger] base@.take(n) + "/orders"@
                &&& look.url@ == base@.take(n) + "/orderbook"@
                &&& n > 0 ==> base@[n - 1] != '/'
                &&& forall|i: int| n <= i < base@.len() ==> #[trigger] base@[i] == '/'
            },
{
    text::trimming_takes_the_slashes_at_the_end(base@);
    let n = text::without_trailing_slashes(base@).len() as int;
    assert(order.url@ == base@.take(n) + "/orders"@);
}

} // verus!
