//! The payloads that clients and server exchange.
use crate::constants;
use crate::text::{json_string, object_text, quote, ObjectText};
use vstd::prelude::*;

verus! {

/// What a payload is for.
#[derive(Clone, Copy, PartialEq, Eq, Structural, Debug)]
pub enum PayloadKind {
    Error,
    Join,
    Leave,
    Message,
    Quit,
    Success,
}

/// The word for a kind under the `type` key.
pub open spec fn kind_name(kind: PayloadKind) -> Seq<char> {
    match kind {
        PayloadKind::Error => "error"@,
        PayloadKind::Join => "join"@,
        PayloadKind::Leave => "leave"@,
        PayloadKind::Message => "message"@,
        PayloadKind::Quit => "quit"@,
        PayloadKind::Success => "success"@,
    }
}

/// The kind of that name. A name that no kind has stands for one that clients may not
/// send.
pub open spec fn kind_named(name: Seq<char>) -> PayloadKind {
    if name == "join"@ {
        PayloadKind::Join
    } else if name == "leave"@ {
        PayloadKind::Leave
    } else if name == "message"@ {
        PayloadKind::Message
    } else if name == "quit"@ {
        PayloadKind::Quit
    } else if name == "success"@ {
        PayloadKind::Success
    } else {
        PayloadKind::Error
    }
}

impl PayloadKind {
    /// The word for this kind under the `type` key.
    pub fn name(&self) -> (name: &'static str)
        ensures
            name@ == kind_name(*self),
    {
        match self {
            PayloadKind::Error => "error",
            PayloadKind::Join => "join",
            PayloadKind::Leave => "leave",
            PayloadKind::Message => "message",
            PayloadKind::Quit => "quit",
            PayloadKind::Success => "success",
        }
    }

    /// The kind of that name. A name that no kind has stands for one that clients may
    /// not send.
    pub fn named(name: &str) -> (kind: Self)
        ensures
            kind == kind_named(name@),
    {
        let name = name.to_owned();
        if name == "join".to_owned() {
            PayloadKind::Join
        } else if name == "leave".to_owned() {
            PayloadKind::Leave
        } else if name == "message".to_owned() {
            PayloadKind::Message
        } else if name == "quit".to_owned() {
            PayloadKind::Quit
        } else if name == "success".to_owned() {
            PayloadKind::Success
        } else {
            PayloadKind::Error
        }
    }
}

/// A payload. `id` and `body` are the texts of JSON values.
#[derive(Clone, Copy, Debug)]
pub struct Payload<'a> {
    pub kind: PayloadKind,
    pub room: &'a str,
    pub user: &'a str,
    pub id: Option<&'a str>,
    pub body: Option<&'a str>,
}

/// What a payload says.
#[verifier::ext_equal]
pub struct PayloadView {
    pub kind: PayloadKind,
    pub room: Seq<char>,
    pub user: Seq<char>,
    pub id: Option<Seq<char>>,
    pub body: Option<Seq<char>>,
}

/// What an optional text says.
pub open spec fn said(text: Option<&str>) -> Option<Seq<char>> {
    match text {
        Some(t) => Some(t@),
        None => None,
    }
}

impl<'a> View for Payload<'a> {
    type V = PayloadView;

    open spec fn view(&self) -> PayloadView {
        PayloadView {
            kind: self.kind,
            room: self.room@,
            user: self.user@,
            id: said(self.id),
            body: said(self.body),
        }
    }
}

impl PayloadView {
    /// A client may not send this: a request names its room, a message has a body,
    /// and only requests are sent to the server.
    pub open spec fn invalid(self) -> bool {
        match self.kind {
            PayloadKind::Join | PayloadKind::Leave => self.room.len() == 0,
            PayloadKind::Message => self.room.len() == 0 || self.body is None,
            PayloadKind::Quit => false,
            PayloadKind::Error | PayloadKind::Success => true,
        }
    }

    /// The answer to this request: it names the same room and carries the same id.
    pub open spec fn answer(self, kind: PayloadKind, body: Seq<char>) -> PayloadView {
        PayloadView { kind, room: self.room, user: seq![], id: self.id, body: Some(body) }
    }

    /// The answer to a request that was met.
    pub open spec fn success(self, body: Seq<char>) -> PayloadView {
        self.answer(PayloadKind::Success, body)
    }

    /// The answer to a request that was refused.
    pub open spec fn error(self, body: Seq<char>) -> PayloadView {
        self.answer(PayloadKind::Error, body)
    }

    /// This payload as the message of the user `id`.
    pub open spec fn signed(self, id: Seq<char>) -> PayloadView {
        PayloadView { user: id, ..self }
    }

    /// The members of the payload's text: room, user, id and body are there only
    /// where there is one.
    pub open spec fn fields(self) -> Seq<(Seq<char>, Seq<char>)> {
        seq![("type"@, json_string(kind_name(self.kind)))] + (if self.room.len() > 0 {
            seq![("room"@, json_string(self.room))]
        } else {
            seq![]
        }) + (if self.user.len() > 0 {
            seq![("user"@, json_string(self.user))]
        } else {
            seq![]
        }) + (match self.id {
            Some(id) => seq![("id"@, id)],
            None => seq![],
        }) + (match self.body {
            Some(body) => seq![("body"@, body)],
            None => seq![],
        })
    }

    /// The payload as it is sent.
    pub open spec fn text(self) -> Seq<char> {
        object_text(false, self.fields())
    }
}

impl<'a> Payload<'a> {
    /// Whether a client may not send this.
    pub fn is_invalid(&self) -> (invalid: bool)
        ensures
            invalid == self@.invalid(),
    {
        match self.kind {
            PayloadKind::Join | PayloadKind::Leave => self.room.is_empty(),
            PayloadKind::Message => self.room.is_empty() || self.body.is_none(),
            PayloadKind::Quit => false,
            PayloadKind::Error | PayloadKind::Success => true,
        }
    }

    /// The payload as it is sent.
    pub fn to_json(&self) -> (text: String)
        ensures
            text@ == self@.text(),
    {
        let mut object = ObjectText::new(false);
        object.field("type", quote(self.kind.name()).as_str());
        if !self.room.is_empty() {
            object.field("room", quote(self.room).as_str());
        }
        if !self.user.is_empty() {
            object.field("user", quote(self.user).as_str());
        }
        if let Some(id) = self.id {
            object.field("id", id);
        }
        if let Some(body) = self.body {
            object.field("body", body);
        }
        assert(object.fields() =~= self@.fields());
        object.finish()
    }

    pub fn reply_room_join(&self) -> (reply: Self)
        ensures
            reply@ == self@.success(constants::ROOM_JOIN_MSG@),
    {
        Self {
            kind: PayloadKind::Success,
            room: self.room,
            user: no_user(),
            id: self.id,
            body: Some(constants::ROOM_JOIN_MSG),
        }
    }

    pub fn reply_room_leave(&self) -> (reply: Self)
        ensures
            reply@ == self@.success(constants::ROOM_LEAVE_MSG@),
    {
        Self {
            kind: PayloadKind::Success,
            room: self.room,
            user: no_user(),
            id: self.id,
            body: Some(constants::ROOM_LEAVE_MSG),
        }
    }

    pub fn reply_invalid_msg(&self) -> (reply: Self)
        ensures
            reply@ == self@.error(constants::INVALID_MSG@),
    {
        Self {
            kind: PayloadKind::Error,
            room: self.room,
            user: no_user(),
            id: self.id,
            body: Some(constants::INVALID_MSG),
        }
    }

    pub fn reply_invalid_room(&self) -> (reply: Self)
        ensures
            reply@ == self@.error(constants::INVALID_ROOM_MSG@),
    {
        Self {
            kind: PayloadKind::Error,
            room: self.room,
            user: no_user(),
            id: self.id,
            body: Some(constants::INVALID_ROOM_MSG),
        }
    }

    pub fn reply_room_name_too_short(&self) -> (reply: Self)
        ensures
            reply@ == self@.error(constants::ROOM_NAME_TOO_SHORT@),
    {
        Self {
            kind: PayloadKind::Error,
            room: self.room,
            user: no_user(),
            id: self.id,
            body: Some(constants::ROOM_NAME_TOO_SHORT),
        }
    }

    pub fn reply_room_read_only(&self) -> (reply: Self)
        ensures
            reply@ == self@.error(constants::ROOM_READ_ONLY@),
    {
        Self {
            kind: PayloadKind::Error,
            room: self.room,
            user: no_user(),
            id: self.id,
            body: Some(constants::ROOM_READ_ONLY),
        }
    }
}

/// The user of a payload that the server itself sends.
fn no_user() -> (user: &'static str)
    ensures
        user@ == Seq::<char>::empty(),
{
    proof {
        reveal_strlit("");
    }
    assert(""@ =~= Seq::<char>::empty());
    ""
}

} // verus!
