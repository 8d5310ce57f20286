//! Messages exchanged with clients, and the errors the broker reports.
use vstd::prelude::*;

verus! {

/// What a message carries.
#[derive(Clone, Debug, PartialEq, Eq)]
pub enum Msg {
    /// New clipboard content from a client.
    Update(String),
    /// A description of something that went wrong.
    Error(String),
}

/// One message; `msg` is `None` when nothing decodable was received.
#[derive(Clone, Debug, PartialEq, Eq)]
pub struct Message {
    pub msg: Option<Msg>,
}

/// The mathematical value of a `Msg`.
pub enum MsgView {
    Update(Seq<char>),
    Error(Seq<char>),
}

impl View for Msg {
    type V = MsgView;

    open spec fn view(&self) -> MsgView {
        match self {
            Msg::Update(s) => MsgView::Update(s@),
            Msg::Error(s) => MsgView::Error(s@),
        }
    }
}

impl View for Message {
    type V = Option<MsgView>;

    open spec fn view(&self) -> Option<MsgView> {
        match self.msg {
            Some(m) => Some(m@),
            None => None,
        }
    }
}

/// What can go wrong in the broker.
#[derive(Clone, Debug, PartialEq, Eq)]
pub enum Error {
    /// No live session has the given code.
    InvalidId,
    /// The client id is already taken in the session.
    InvalidCid,
    /// A client sent something that is not a message.
    UnexpectedMessage(String),
    /// Any other failure, with its description.
    Unknown(String),
}

/// The description sent to a client for error `e`.
pub open spec fn error_text(e: Error) -> Seq<char> {
    match e {
        Error::InvalidId => "Invalid ID"@,
        Error::UnexpectedMessage(_) => "Unexpected message"@,
        _ => "Internal Server Error"@,
    }
}

/// The message that reports error `e` to a client.
pub open spec fn error_message(e: Error) -> Option<MsgView> {
    Some(MsgView::Error(error_text(e)))
}

impl Error {
    /// The message that reports this error to a client.
    pub fn serialize(&self) -> (r: Message)
        ensures
            r@ == error_message(*self),
    {
        let desc = match self {
            Error::InvalidId => String::from_str("Invalid ID"),
            Error::UnexpectedMessage(_) => String::from_str("Unexpected message"),
            _ => String::from_str("Internal Server Error"),
        };
        Message { msg: Some(Msg::Error(desc)) }
    }
}

} // verus!
