//! What the server does to the world outside after a step.
use vstd::prelude::*;

verus! {

/// One thing to be done, in the order in which the steps list them. Peers are
/// reached over numbered channels.
#[derive(Debug, PartialEq, Eq)]
pub enum Effect {
    /// Send a text over a channel.
    Send { to: u64, text: String },
    /// A room has this many members now.
    RoomConnections { room: String, count: usize },
    /// A message was received from a member of a room.
    MessageReceived,
    /// A message was passed on to this many members.
    MessagesSent { count: usize },
    /// A connection was opened.
    ConnectionOpened { ip: String },
    /// A connection was closed.
    ConnectionClosed { ip: String },
    /// A connection of this user agent was opened.
    AgentConnected { agent: String },
    /// A connection of this user agent was closed.
    AgentDisconnected { agent: String },
}

/// What an effect says.
#[verifier::ext_equal]
pub enum EffectView {
    Send { to: u64, text: Seq<char> },
    RoomConnections { room: Seq<char>, count: nat },
    MessageReceived,
    MessagesSent { count: nat },
    ConnectionOpened { ip: Seq<char> },
    ConnectionClosed { ip: Seq<char> },
    AgentConnected { agent: Seq<char> },
    AgentDisconnected { agent: Seq<char> },
}

impl View for Effect {
    type V = EffectView;

    open spec fn view(&self) -> EffectView {
        match self {
            Effect::Send { to, text } => EffectView::Send { to: *to, text: text@ },
            Effect::RoomConnections { room, count } => EffectView::RoomConnections {
                room: room@,
                count: *count as nat,
            },
            Effect::MessageReceived => EffectView::MessageReceived,
            Effect::MessagesSent { count } => EffectView::MessagesSent { count: *count as nat },
            Effect::ConnectionOpened { ip } => EffectView::ConnectionOpened { ip: ip@ },
            Effect::ConnectionClosed { ip } => EffectView::ConnectionClosed { ip: ip@ },
            Effect::AgentConnected { agent } => EffectView::AgentConnected { agent: agent@ },
            Effect::AgentDisconnected { agent } => EffectView::AgentDisconnected { agent: agent@ },
        }
    }
}

/// What a list of effects says.
pub open spec fn shown(effects: Seq<Effect>) -> Seq<EffectView> {
    effects.map_values(|e: Effect| e@)
}

/// Lists one more effect.
pub(crate) fn emit(effects: &mut Vec<Effect>, effect: Effect)
    ensures
        shown(final(effects)@) == shown(old(effects)@).push(effect@),
{
    effects.push(effect);
    assert(shown(effects@) =~= shown(old(effects)@).push(effect@));
}

/// Lists more effects.
pub(crate) fn emit_all(effects: &mut Vec<Effect>, more: Vec<Effect>)
    ensures
        shown(final(effects)@) == shown(old(effects)@) + shown(more@),
{
    let mut more = more;
    let ghost added = more@;
    effects.append(&mut more);
    assert(shown(effects@) =~= shown(old(effects)@) + shown(added));
}

/// No effects.
pub(crate) fn nothing() -> (effects: Vec<Effect>)
    ensures
        shown(effects@) == Seq::<EffectView>::empty(),
{
    let effects: Vec<Effect> = Vec::new();
    assert(shown(effects@) =~= Seq::<EffectView>::empty());
    effects
}

} // verus!
