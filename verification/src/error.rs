//! Why a request is refused.
use vstd::prelude::*;

verus! {

#[derive(Clone, Copy, PartialEq, Eq, Structural, Debug)]
pub enum RequestError {
    InvalidRoom,
    NotWebsocket,
}

impl RequestError {
    /// The error in words.
    pub fn to_text(&self) -> (text: String)
        ensures
            text@ == (match self {
                RequestError::InvalidRoom => "Invalid room requested"@,
                RequestError::NotWebsocket => "Connection is not websocket"@,
            }),
    {
        match self {
            RequestError::InvalidRoom => "Invalid room requested".to_owned(),
            RequestError::NotWebsocket => "Connection is not websocket".to_owned(),
        }
    }
}

} // verus!
