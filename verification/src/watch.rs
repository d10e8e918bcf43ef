//! How long the server waits for a client to show a sign of life.
use vstd::prelude::*;

verus! {

/// What came from a client while the server waited.
#[derive(Clone, Copy, PartialEq, Eq, Structural, Debug)]
pub enum Heard {
    /// Text or binary data.
    Data,
    /// Any other frame.
    Control,
    /// Nothing, for as long as the server waited.
    Silence,
    /// The end of the stream, or a fault in it.
    Closed,
}

/// What the server does next.
#[derive(Clone, Copy, PartialEq, Eq, Structural, Debug)]
pub enum Reaction {
    /// Handle the data.
    Handle,
    /// Wait on.
    Wait,
    /// Ask the client for a sign of life, and wait on.
    Ping,
    /// Give the client up.
    Disconnect,
}

/// Whether the client has been asked for a sign of life.
#[derive(Clone, Copy, PartialEq, Eq, Structural, Debug)]
pub struct Watch {
    pub awaiting_pong: bool,
}

impl Watch {
    /// A client that was not asked yet.
    pub fn new() -> (watch: Self)
        ensures
            !watch.awaiting_pong,
    {
        Watch { awaiting_pong: false }
    }

    /// How many seconds a client may be silent.
    pub open spec fn patience(self) -> nat {
        if self.awaiting_pong {
            15
        } else {
            45
        }
    }

    /// How many seconds a client may be silent.
    pub fn max_wait(&self) -> (seconds: u64)
        ensures
            seconds == self.patience(),
    {
        if self.awaiting_pong {
            15
        } else {
            45
        }
    }

    /// What the server does on what it heard.
    pub open spec fn reaction(self, heard: Heard) -> Reaction {
        match heard {
            Heard::Data => Reaction::Handle,
            Heard::Control => Reaction::Wait,
            Heard::Silence => if self.awaiting_pong {
                Reaction::Disconnect
            } else {
                Reaction::Ping
            },
            Heard::Closed => Reaction::Disconnect,
        }
    }

    /// The watch after that.
    pub open spec fn after(self, heard: Heard) -> Watch {
        match heard {
            Heard::Data | Heard::Control => Watch { awaiting_pong: false },
            Heard::Silence => Watch { awaiting_pong: true },
            Heard::Closed => self,
        }
    }

    /// Reacts to what was heard.
    pub fn step(&mut self, heard: Heard) -> (reaction: Reaction)
        ensures
            reaction == old(self).reaction(heard),
            *final(self) == old(self).after(heard),
    {
        match heard {
            Heard::Data => {
                self.awaiting_pong = false;
                Reaction::Handle
            },
            Heard::Control => {
                self.awaiting_pong = false;
                Reaction::Wait
            },
            Heard::Silence => {
                if self.awaiting_pong {
                    Reaction::Disconnect
                } else {
                    self.awaiting_pong = true;
                    Reaction::Ping
                }
            },
            Heard::Closed => Reaction::Disconnect,
        }
    }
}

/// A client of which nothing is heard for 60 seconds is given up: it is asked for a
/// sign of life on the way, and not given up before. Whatever is heard of it starts
/// the 60 seconds anew.
pub proof fn silence_ends_a_connection(watch: Watch, heard: Heard)
    requires
        heard is Data || heard is Control,
    ensures
        ({
            let heard_of = watch.after(heard);
            let asked = heard_of.after(Heard::Silence);
            &&& watch.reaction(heard) != Reaction::Disconnect
            &&& heard_of.reaction(Heard::Silence) == Reaction::Ping
            &&& asked.reaction(Heard::Silence) == Reaction::Disconnect
            &&& heard_of.patience() + asked.patience() == 60
        }),
{
}

/// Text or binary data is always handled, whether or not a sign of life was asked for.
pub proof fn data_is_always_handled(watch: Watch)
    ensures
        watch.reaction(Heard::Data) == Reaction::Handle,
        !watch.after(Heard::Data).awaiting_pong,
{
}

/// Nothing but data is handled. Any other frame is a sign of life too, and no more than
/// that; a stream that ended ends the connection; silence is asked about once, and ends
/// the connection if it goes on.
pub proof fn other_signs_are_not_handled(watch: Watch, heard: Heard)
    ensures
        watch.reaction(heard) == Reaction::Handle ==> heard == Heard::Data,
        watch.reaction(Heard::Control) == Reaction::Wait,
        !watch.after(Heard::Control).awaiting_pong,
        watch.reaction(Heard::Closed) == Reaction::Disconnect,
        watch.reaction(Heard::Silence) == (if watch.awaiting_pong {
            Reaction::Disconnect
        } else {
            Reaction::Ping
        }),
        watch.after(Heard::Silence).awaiting_pong,
        watch.awaiting_pong ==> watch.patience() == 15,
        !watch.awaiting_pong ==> watch.patience() == 45,
{
}

} // verus!
