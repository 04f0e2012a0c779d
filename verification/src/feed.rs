//! The fill feed: how fills get to web socket clients, and how an API server
//! relays the matcher's feed.

use vstd::prelude::*;

verus! {

/// What happens on a client's web socket.
#[derive(Debug)]
pub enum ClientEvent {
    /// The client closed the socket, or it ended.
    Closed,
    /// The client sent a ping.
    Ping(Vec<u8>),
    /// The client sent anything else.
    OtherFrame,
    /// The socket could not be read.
    ReadFailed,
    /// A fill, as text.
    Fill(String),
    /// The client fell behind, and missed this many fills.
    Lagged(u64),
    /// There will be no more fills.
    FeedClosed,
    /// A fill could not be sent.
    SendFailed,
}

/// What is done next for a client.
#[derive(Debug)]
pub enum ClientAction {
    /// Wait for the next event.
    Wait,
    /// Answer a ping.
    Pong(Vec<u8>),
    /// Send a fill.
    Send(String),
    /// Be done with the client.
    Stop,
}

/// Serves one client: fills are sent as they come, pings are answered, a client
/// that fell behind goes on with the fills still to come.
pub fn serve_client(event: ClientEvent) -> (action: ClientAction)
    ensures
        match event {
            ClientEvent::Ping(payload) => action == ClientAction::Pong(payload),
            ClientEvent::Fill(text) => action == ClientAction::Send(text),
            ClientEvent::OtherFrame | ClientEvent::Lagged(_) => action is Wait,
            ClientEvent::Closed
            | ClientEvent::ReadFailed
            | ClientEvent::FeedClosed
            | ClientEvent::SendFailed => action is Stop,
        },
{
    match event {
        ClientEvent::Ping(payload) => ClientAction::Pong(payload),
        ClientEvent::Fill(text) => ClientAction::Send(text),
        ClientEvent::OtherFrame => ClientAction::Wait,
        ClientEvent::Lagged(_) => ClientAction::Wait,
        ClientEvent::Closed => ClientAction::Stop,
        ClientEvent::ReadFailed => ClientAction::Stop,
        ClientEvent::FeedClosed => ClientAction::Stop,
        ClientEvent::SendFailed => ClientAction::Stop,
    }
}

/// What happens on the connection to the matcher's feed.
#[derive(Debug)]
pub enum RelayEvent {
    /// It is to be opened.
    Idle,
    /// It was opened.
    Connected,
    /// It could not be opened.
    ConnectFailed,
    /// A text came, that is, a fill.
    Text(String),
    /// Anything else came but a close.
    OtherFrame,
    /// The matcher closed it, or it ended.
    Closed,
    /// It could not be read.
    ReadFailed,
}

/// What the relay does next.
#[derive(Debug)]
pub enum RelayAction {
    /// Open the connection.
    Connect,
    /// Read the next message.
    Read,
    /// Hand a text to all clients, then read on.
    Broadcast(String),
    /// Give the connection up, and be idle again after so many seconds.
    Pause(u64),
}

/// The seconds between two attempts to connect to the matcher.
pub const RECONNECT_SECONDS: u64 = 1;

/// Relays the matcher's feed: every text is handed on as it is, and a connection
/// that is lost is opened again.
pub fn relay(event: RelayEvent) -> (action: RelayAction)
    ensures
        match event {
            RelayEvent::Idle => action is Connect,
            RelayEvent::Connected | RelayEvent::OtherFrame => action is Read,
            RelayEvent::Text(text) => action == RelayAction::Broadcast(text),
            RelayEvent::ConnectFailed
            | RelayEvent::Closed
            | RelayEvent::ReadFailed => action == RelayAction::Pause(RECONNECT_SECONDS),
        },
{
    match event {
        RelayEvent::Idle => RelayAction::Connect,
        RelayEvent::Connected => RelayAction::Read,
        RelayEvent::OtherFrame => RelayAction::Read,
        RelayEvent::Text(text) => RelayAction::Broadcast(text),
        RelayEvent::ConnectFailed => RelayAction::Pause(RECONNECT_SECONDS),
        RelayEvent::Closed => RelayAction::Pause(RECONNECT_SECONDS),
        RelayEvent::ReadFailed => RelayAction::Pause(RECONNECT_SECONDS),
    }
}

/// Fills get to clients unchanged: the relay hands on each text as it is, and a client
/// is sent each fill as it is; nothing else is handed on or sent.
pub proof fn fills_get_through_unchanged(
    received: RelayEvent,
    relayed: RelayAction,
    event: ClientEvent,
    action: ClientAction,
)
    requires
        call_ensures(relay, (received,), relayed),
        call_ensures(serve_client, (event,), action),
    ensures
        forall|text: String|
            received == RelayEvent::Text(text) <==> relayed == RelayAction::Broadcast(text),
        forall|text: String|
            event == ClientEvent::Fill(text) <==> action == ClientAction::Send(text),
        forall|payload: Vec<u8>|
            event == ClientEvent::Ping(payload) <==> action == ClientAction::Pong(payload),
{
}

/// A lost connection to the matcher is opened again after a second, whatever lost it.
pub proof fn lost_feeds_are_opened_again(lost: RelayEvent, pause: RelayAction, next: RelayAction)
    requires
        lost is ConnectFailed || lost is Closed || lost is ReadFailed,
        call_ensures(relay, (lost,), pause),
        call_ensures(relay, (RelayEvent::Idle,), next),
    ensures
        pause == RelayAction::Pause(1),
        next is Connect,
{
}

} // verus!
