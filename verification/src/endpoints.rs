//! The HTTP endpoints of the matcher: what a handler does next on each thing
//! that happens to a request.

use vstd::prelude::*;

use crate::engine::{OrderRequest, SubmitError};
use crate::snapshot::OrderBookSnapshot;

verus! {

/// The body of a reply.
#[derive(Debug)]
pub enum ReplyBody {
    /// The number of the order that was placed.
    Id(u64),
    /// Why the request failed.
    Error(String),
    /// The book.
    Book(OrderBookSnapshot),
}

/// A reply to a client: an HTTP status code and a body.
#[derive(Debug)]
pub struct Reply {
    pub status: u16,
    pub body: ReplyBody,
}

/// What a handler does next, where `C` is what it asks of the engine.
#[derive(Debug)]
pub enum Step<C> {
    /// Hand the command to the engine and wait for its answer.
    Enqueue(C),
    /// Answer the client.
    Respond(Reply),
}

/// Asks the engine for a snapshot of the book.
#[derive(Debug, Clone, Copy, PartialEq, Eq, Structural)]
pub struct SnapshotRequest;

impl<C> Step<C> {
    /// Whether the client gets an error with this status and text.
    pub open spec fn is_error(self, status: u16, text: Seq<char>) -> bool {
        &&& self matches Step::Respond(reply)
        &&& reply.status == status
        &&& reply.body matches ReplyBody::Error(error)
        &&& error@ == text
    }
}

/// Answers with an error.
fn respond_error<C>(status: u16, text: &str) -> (step: Step<C>)
    ensures
        step.is_error(status, text@),
{
    Step::Respond(Reply { status, body: ReplyBody::Error(text.to_owned()) })
}

/// What happens to a request that places an order.
#[derive(Debug)]
pub enum PostOrderEvent {
    /// It came in.
    Received(OrderRequest),
    /// The engine takes no more commands.
    QueueClosed,
    /// The engine answered: the number of the order, or why there is none.
    Answered(Result<u64, SubmitError>),
    /// The engine went away before it answered.
    AnswerLost,
}

/// Handles `POST /orders`. An order for nothing is turned down before it reaches
/// the engine, any other is handed to it as it came in; an order that is placed is
/// answered with its number.
pub fn post_order(event: PostOrderEvent) -> (step: Step<OrderRequest>)
    ensures
        match event {
            PostOrderEvent::Received(request) => if request.qty == 0 {
                step.is_error(400, "qty must be positive"@)
            } else {
                step == Step::Enqueue(request)
            },
            PostOrderEvent::QueueClosed => step.is_error(503, "matcher unavailable"@),
            PostOrderEvent::Answered(Ok(id)) => step == Step::<OrderRequest>::Respond(
                (Reply { status: 201, body: ReplyBody::Id(id) }),
            ),
            PostOrderEvent::Answered(Err(error)) => step.is_error(400, error.text()),
            PostOrderEvent::AnswerLost => step.is_error(500, "internal"@),
        },
{
    match event {
        PostOrderEvent::Received(request) => if request.qty == 0 {
            respond_error(400, "qty must be positive")
        } else {
            Step::Enqueue(request)
        },
        PostOrderEvent::QueueClosed => respond_error(503, "matcher unavailable"),
        PostOrderEvent::Answered(Ok(id)) => Step::Respond(
            Reply { status: 201, body: ReplyBody::Id(id) },
        ),
        PostOrderEvent::Answered(Err(error)) => respond_error(400, error.message().as_str()),
        PostOrderEvent::AnswerLost => respond_error(500, "internal"),
    }
}

/// What happens to a request for the book.
#[derive(Debug)]
pub enum GetOrderbookEvent {
    /// It came in.
    Received,
    /// The engine takes no more commands.
    QueueClosed,
    /// The engine answered.
    Answered(OrderBookSnapshot),
    /// The engine went away before it answered.
    AnswerLost,
}

/// Handles `GET /orderbook`.
pub fn get_orderbook(event: GetOrderbookEvent) -> (step: Step<SnapshotRequest>)
    ensures
        match event {
            GetOrderbookEvent::Received => step == Step::Enqueue(SnapshotRequest),
            GetOrderbookEvent::QueueClosed => step.is_error(503, "matcher unavailable"@),
            GetOrderbookEvent::Answered(book) => step == Step::<SnapshotRequest>::Respond(
                (Reply { status: 200, body: ReplyBody::Book(book) }),
            ),
            GetOrderbookEvent::AnswerLost => step.is_error(500, "internal"@),
        },
{
    match event {
        GetOrderbookEvent::Received => Step::Enqueue(SnapshotRequest),
        GetOrderbookEvent::QueueClosed => respond_error(503, "matcher unavailable"),
        GetOrderbookEvent::Answered(book) => Step::Respond(
            Reply { status: 200, body: ReplyBody::Book(book) },
        ),
        GetOrderbookEvent::AnswerLost => respond_error(500, "internal"),
    }
}

/// What a client of `POST /orders` gets: 400 where it asked for nothing, and then the
/// engine is not troubled; else the engine gets the request as it came in, and the
/// client the number of its order with 201, or the engine's refusal with 400, or 503
/// where the engine takes no command and 500 where it gives no answer.
pub proof fn order_requests_are_answered(event: PostOrderEvent, step: Step<OrderRequest>)
    requires
        call_ensures(post_order, (event,), step),
    ensures
        match event {
            PostOrderEvent::Received(request) if request.qty > 0 => step matches Step::Enqueue(
                command,
            ) && command == request,
            PostOrderEvent::Answered(Ok(id)) => step matches Step::Respond(reply) && reply.status
                == 201 && reply.body == ReplyBody::Id(id),
            _ => {
                &&& step matches Step::Respond(reply)
                &&& reply.body matches ReplyBody::Error(text)
                &&& match event {
                    PostOrderEvent::QueueClosed => reply.status == 503 && text@
                        == "matcher unavailable"@,
                    PostOrderEvent::AnswerLost => reply.status == 500 && text@ == "internal"@,
                    _ => reply.status == 400 && text@ == "qty must be positive"@,
                }
            },
        },
{
}

/// What a client of `GET /orderbook` gets: the book that the engine answered, with
/// 200, or 503 where the engine takes no command and 500 where it gives no answer.
pub proof fn book_requests_are_answered(event: GetOrderbookEvent, step: Step<SnapshotRequest>)
    requires
        call_ensures(get_orderbook, (event,), step),
    ensures
        match event {
            GetOrderbookEvent::Received => step is Enqueue,
            GetOrderbookEvent::Answered(book) => step matches Step::Respond(reply) && reply.status
                == 200 && reply.body == ReplyBody::Book(book),
            GetOrderbookEvent::QueueClosed => {
                &&& step matches Step::Respond(reply)
                &&& reply.status == 503
                &&& reply.body matches ReplyBody::Error(text)
                &&& text@ == "matcher unavailable"@
            },
            GetOrderbookEvent::AnswerLost => {
                &&& step matches Step::Respond(reply)
                &&& reply.status == 500
                &&& reply.body matches ReplyBody::Error(text)
                &&& text@ == "internal"@
            },
        },
{
}

} // verus!
