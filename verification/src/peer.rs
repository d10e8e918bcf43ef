//! A connected client and what its payloads do.
use crate::constants::{self, is_valid_room, valid_room_name};
use crate::directory::{enumerates, texts, Directory};
use crate::effect::{emit, emit_all, nothing, shown, Effect, EffectView};
use crate::model::{Payload, PayloadKind, PayloadView};
use crate::ratelimit::{
    buckets_for, charges, limits_for, make_ratelimiters, Charge, Ratelimiters, RatelimitersView,
};
use crate::room::{room_info, room_info_text, string_said, MetaDataView, RoomMetaData, RoomView};
use crate::state::{
    after_disconnect, after_join, after_leave, agent_effects, keeps_buckets, room_before_join, ClientView,
    GlobalState,
};
use std::sync::Arc;
use uuid::Uuid;
use vstd::prelude::*;

verus! {

/// A lower-case hexadecimal digit.
pub open spec fn is_hex(c: char) -> bool {
    '0' <= c <= '9' || 'a' <= c <= 'f'
}

/// The form of a random UUID: groups of 8, 4, 4, 4 and 12 digits, the third of
/// which starts with a 4 and the fourth with 8, 9, a or b.
pub open spec fn is_random_uuid(s: Seq<char>) -> bool {
    &&& s.len() == 36
    &&& forall|i: int|
        0 <= i < 36 ==> (if i == 8 || i == 13 || i == 18 || i == 23 {
            s[i] == '-'
        } else {
            is_hex(#[trigger] s[i])
        })
    &&& s[14] == '4'
    &&& (s[19] == '8' || s[19] == '9' || s[19] == 'a' || s[19] == 'b')
}

/// Calls `Uuid::new_v4` and writes the UUID down. Which one it is goes by chance;
/// that no two calls give the same is likely and left unsaid.
#[verifier::external_body]
pub(crate) fn new_peer_id() -> (id: String)
    ensures
        is_random_uuid(id@),
{
    Uuid::new_v4().to_string()
}

/// A client connected to the server
pub struct Peer {
    /// The peer's ID.
    pub id: String,
    /// Whether this peer is administrator.
    pub is_admin: bool,
    /// The peer's IP address.
    pub ip: String,
    /// The peer's user agent.
    pub agent: Option<String>,
    /// The rooms this client is in, with its ratelimiters there.
    pub rooms: Directory<Ratelimiters>,
    /// Ratelimiters for everything this client sends.
    pub ratelimiters: Arc<Ratelimiters>,
    /// The channel over which the peer is reached.
    pub sender: u64,
}

/// What a peer is.
#[verifier::ext_equal]
pub struct PeerView {
    pub id: Seq<char>,
    pub is_admin: bool,
    pub ip: Seq<char>,
    pub agent: Option<Seq<char>>,
    pub rooms: Map<Seq<char>, RatelimitersView>,
    pub ratelimiters: RatelimitersView,
    pub sender: u64,
}

impl View for Peer {
    type V = PeerView;

    open spec fn view(&self) -> PeerView {
        PeerView {
            id: self.id@,
            is_admin: self.is_admin,
            ip: self.ip@,
            agent: string_said(self.agent),
            rooms: self.rooms@.map_values(|limits: Ratelimiters| limits@),
            ratelimiters: (*self.ratelimiters)@,
            sender: self.sender,
        }
    }
}

/// The peer and the rooms agree on where the peer is a member.
pub open spec fn linked(rooms: Map<Seq<char>, RoomView>, peer: PeerView) -> bool {
    &&& forall|name: Seq<char>| #[trigger]
        peer.rooms.contains_key(name) ==> rooms.contains_key(name)
            && rooms[name].senders.contains_key(peer.id) && rooms[name].senders[peer.id]
            == peer.sender
    &&& forall|name: Seq<char>| #[trigger]
        rooms.contains_key(name) && rooms[name].senders.contains_key(peer.id)
            ==> peer.rooms.contains_key(name)
}

/// The peer keeps its buckets, those of its address as well as those of the rooms that
/// it stays in.
pub open spec fn keeps_own_buckets(before: Peer, after: Peer) -> bool {
    &&& after.ratelimiters == before.ratelimiters
    &&& forall|room: Seq<char>| #[trigger]
        before.rooms@.contains_key(room) && after.rooms@.contains_key(room) ==> after.rooms@[room]
            == before.rooms@[room]
}

/// The ratelimiters that a member gets in a room, when `made` buckets were made before.
pub open spec fn room_limits(metadata: MetaDataView, made: nat) -> RatelimitersView {
    limits_for(metadata.msg_freq_ratelimit, metadata.msg_size_ratelimit, made)
}

/// Every room that the peer is in has given it buckets of its own, made among the first
/// `made`, and no address has any of them.
pub open spec fn member_buckets_apart(
    clients: Map<Seq<char>, ClientView>,
    made: nat,
    peer: PeerView,
) -> bool {
    &&& forall|room: Seq<char>| #[trigger]
        peer.rooms.contains_key(room) ==> peer.rooms[room].made_among(made)
    &&& forall|one: Seq<char>, other: Seq<char>| #[trigger]
        peer.rooms.contains_key(one) && #[trigger] peer.rooms.contains_key(other) && one != other
            ==> peer.rooms[one].apart_from(peer.rooms[other])
    &&& forall|room: Seq<char>, ip: Seq<char>| #[trigger]
        peer.rooms.contains_key(room) && #[trigger] clients.contains_key(ip)
            ==> peer.rooms[room].apart_from(clients[ip].ratelimiters)
}

/// The two peers have no bucket of a room in common.
pub open spec fn peers_apart(one: PeerView, other: PeerView) -> bool {
    forall|room: Seq<char>, elsewhere: Seq<char>| #[trigger]
        one.rooms.contains_key(room) && #[trigger] other.rooms.contains_key(elsewhere)
            ==> one.rooms[room].apart_from(other.rooms[elsewhere])
}

/// A message that waits for the ratelimiters of its author.
#[derive(Debug)]
pub struct PendingMessage {
    pub room: String,
    pub text: String,
    /// What has to be paid before the message may pass.
    pub charges: Vec<Charge>,
}

/// What comes after a payload was handled.
#[derive(Debug)]
pub enum Next {
    /// The next payload.
    Continue,
    /// The end of the connection.
    Quit,
    /// Waiting, and then passing the message on.
    Broadcast(PendingMessage),
}

/// How a payload was handled.
#[derive(Debug)]
pub struct Handled {
    pub effects: Vec<Effect>,
    pub next: Next,
}

/// What comes after a payload was handled.
#[verifier::ext_equal]
pub enum NextView {
    Continue,
    Quit,
    Broadcast { room: Seq<char>, text: Seq<char>, charges: Seq<Charge> },
}

/// How a payload was handled.
#[verifier::ext_equal]
pub struct HandledView {
    pub effects: Seq<EffectView>,
    pub next: NextView,
}

impl View for Handled {
    type V = HandledView;

    open spec fn view(&self) -> HandledView {
        HandledView {
            effects: shown(self.effects@),
            next: match self.next {
                Next::Continue => NextView::Continue,
                Next::Quit => NextView::Quit,
                Next::Broadcast(pending) => NextView::Broadcast {
                    room: pending.room@,
                    text: pending.text@,
                    charges: pending.charges@,
                },
            },
        }
    }
}

/// A peer that has just connected.
pub open spec fn new_peer(
    clients: Map<Seq<char>, ClientView>,
    id: Seq<char>,
    ip: Seq<char>,
    agent: Option<Seq<char>>,
    sender: u64,
    is_admin: bool,
) -> PeerView {
    PeerView {
        id,
        is_admin,
        ip,
        agent,
        rooms: Map::empty(),
        ratelimiters: clients[ip].ratelimiters,
        sender,
    }
}

/// The rooms after a user left those of the given names. Rooms that are abandoned
/// by that are given up.
pub open spec fn after_departure(
    rooms: Map<Seq<char>, RoomView>,
    names: Set<Seq<char>>,
    id: Seq<char>,
) -> Map<Seq<char>, RoomView> {
    Map::new(
        |name: Seq<char>|
            rooms.contains_key(name) && !(names.contains(name) && rooms[name].without_member(
                id,
            ).abandoned()),
        |name: Seq<char>|
            if names.contains(name) {
                rooms[name].without_member(id)
            } else {
                rooms[name]
            },
    )
}

/// The effects of a user leaving the listed rooms in turn.
pub open spec fn departures(
    rooms: Map<Seq<char>, RoomView>,
    order: Seq<Seq<char>>,
    id: Seq<char>,
    effects: Seq<EffectView>,
) -> bool
    decreases order.len(),
{
    if order.len() == 0 {
        effects == Seq::<EffectView>::empty()
    } else {
        exists|before: Seq<EffectView>, last: Seq<EffectView>|
            {
                &&& effects == #[trigger] (before + last)
                &&& departures(rooms, order.drop_last(), id, before)
                &&& rooms[order.last()].dismisses(last, id)
            }
    }
}

impl PeerView {
    /// The peer is sent a payload.
    pub open spec fn sent(self, payload: PayloadView) -> EffectView {
        EffectView::Send { to: self.sender, text: payload.text() }
    }

    /// Why a request to join is refused, if it is.
    pub open spec fn join_refusal(
        self,
        rooms: Map<Seq<char>, RoomView>,
        room: Seq<char>,
    ) -> Option<Seq<char>> {
        if !valid_room_name(room) && !rooms.contains_key(room) {
            Some(constants::ROOM_NAME_TOO_SHORT@)
        } else if self.rooms.contains_key(room) {
            Some(constants::INVALID_ROOM_MSG@)
        } else {
            None
        }
    }

    /// The peer after it joined a room, when `made` buckets were made before.
    pub open spec fn joined(
        self,
        rooms: Map<Seq<char>, RoomView>,
        room: Seq<char>,
        made: nat,
    ) -> PeerView {
        PeerView {
            rooms: self.rooms.insert(
                room,
                room_limits(room_before_join(rooms, room).metadata, made),
            ),
            ..self
        }
    }

    /// How many buckets were made after a request to join.
    pub open spec fn made_after_join(
        self,
        rooms: Map<Seq<char>, RoomView>,
        room: Seq<char>,
        made: nat,
    ) -> nat {
        let metadata = room_before_join(rooms, room).metadata;
        if self.join_refusal(rooms, room) is None {
            made + buckets_for(metadata.msg_freq_ratelimit) + buckets_for(
                metadata.msg_size_ratelimit,
            )
        } else {
            made
        }
    }

    /// How many buckets were made after a payload.
    pub open spec fn made_after(
        self,
        rooms: Map<Seq<char>, RoomView>,
        payload: Option<PayloadView>,
        made: nat,
    ) -> nat {
        match payload {
            Some(request) => if !request.invalid() && request.kind == PayloadKind::Join {
                self.made_after_join(rooms, request.room, made)
            } else {
                made
            },
            None => made,
        }
    }

    /// The peer after it left a room.
    pub open spec fn parted(self, room: Seq<char>) -> PeerView {
        PeerView { rooms: self.rooms.remove(room), ..self }
    }

    /// The effects of joining a room: the members are told, the room is counted,
    /// and the peer gets an answer and is told about the room and the members so
    /// far.
    pub open spec fn join_effects(
        self,
        rooms: Map<Seq<char>, RoomView>,
        request: PayloadView,
        effects: Seq<EffectView>,
    ) -> bool {
        let room = room_before_join(rooms, request.room);
        exists|welcome: Seq<EffectView>, users: Seq<Seq<char>>|
            {
                &&& #[trigger] room.welcomes(welcome, self.id, self.sender)
                &&& #[trigger] enumerates(users, room.senders.dom())
                &&& effects == welcome + seq![
                    self.sent(request.success(constants::ROOM_JOIN_MSG@)),
                    EffectView::Send {
                        to: self.sender,
                        text: room_info_text(request.room, room.metadata, users),
                    },
                ]
            }
    }

    /// The effects of leaving a room: the members left are told, the room is
    /// counted, and the peer gets an answer.
    pub open spec fn leave_effects(
        self,
        rooms: Map<Seq<char>, RoomView>,
        request: PayloadView,
        effects: Seq<EffectView>,
    ) -> bool {
        exists|farewell: Seq<EffectView>|
            {
                &&& #[trigger] rooms[request.room].dismisses(farewell, self.id)
                &&& effects == farewell.push(self.sent(request.success(constants::ROOM_LEAVE_MSG@)))
            }
    }

    /// How a message is handled. One who is not in the room may not send there; in
    /// a read-only room only administrators may; administrators need not wait.
    pub open spec fn message_handled(
        self,
        rooms: Map<Seq<char>, RoomView>,
        message: PayloadView,
        size: int,
        handled: HandledView,
    ) -> bool {
        if !self.rooms.contains_key(message.room) {
            &&& handled.effects == seq![self.sent(message.error(constants::INVALID_ROOM_MSG@))]
            &&& handled.next == NextView::Continue
        } else if rooms[message.room].metadata.read_only && !self.is_admin {
            &&& handled.effects == seq![self.sent(message.error(constants::ROOM_READ_ONLY@))]
            &&& handled.next == NextView::Continue
        } else if self.is_admin {
            &&& rooms[message.room].broadcasts(handled.effects, message.text(), Some(self.id))
            &&& handled.next == NextView::Continue
        } else {
            &&& handled.effects == Seq::<EffectView>::empty()
            &&& handled.next == (NextView::Broadcast {
                room: message.room,
                text: message.text(),
                charges: charges(self.rooms[message.room], size),
            })
        }
    }

    /// What the peer owes before a payload of this size is looked at.
    pub open spec fn admission_charges(self, size: int) -> Seq<Charge> {
        if self.is_admin {
            seq![]
        } else {
            charges(self.ratelimiters, size)
        }
    }

    /// How a payload is handled, when `made` buckets were made before: `peer` and
    /// `rooms_after` are the peer and the rooms after that. `None` stands for data that is
    /// no payload.
    pub open spec fn payload_handled(
        self,
        rooms: Map<Seq<char>, RoomView>,
        made: nat,
        payload: Option<PayloadView>,
        size: int,
        handled: HandledView,
        peer: PeerView,
        rooms_after: Map<Seq<char>, RoomView>,
    ) -> bool {
        match payload {
            None => {
                &&& peer == self
                &&& rooms_after == rooms
                &&& handled.effects == seq![
                    EffectView::Send { to: self.sender, text: constants::INVALID_JSON_MSG@ },
                ]
                &&& handled.next == NextView::Continue
            },
            Some(request) => if request.invalid() {
                &&& peer == self
                &&& rooms_after == rooms
                &&& handled.effects == seq![self.sent(request.error(constants::INVALID_MSG@))]
                &&& handled.next == NextView::Continue
            } else {
                match request.kind {
                    PayloadKind::Message => {
                        &&& peer == self
                        &&& rooms_after == rooms
                        &&& self.message_handled(rooms, request.signed(self.id), size, handled)
                    },
                    PayloadKind::Join => {
                        &&& self.join_handled(
                            rooms,
                            made,
                            request,
                            handled.effects,
                            peer,
                            rooms_after,
                        )
                        &&& handled.next == NextView::Continue
                    },
                    PayloadKind::Leave => {
                        &&& self.leave_handled(rooms, request, handled.effects, peer, rooms_after)
                        &&& handled.next == NextView::Continue
                    },
                    _ => {
                        &&& peer == self
                        &&& rooms_after == rooms
                        &&& handled.effects == Seq::<EffectView>::empty()
                        &&& handled.next == NextView::Quit
                    },
                }
            },
        }
    }

    /// How a request to join is handled.
    pub open spec fn join_handled(
        self,
        rooms: Map<Seq<char>, RoomView>,
        made: nat,
        request: PayloadView,
        effects: Seq<EffectView>,
        peer: PeerView,
        rooms_after: Map<Seq<char>, RoomView>,
    ) -> bool {
        match self.join_refusal(rooms, request.room) {
            Some(reason) => {
                &&& peer == self
                &&& rooms_after == rooms
                &&& effects == seq![self.sent(request.error(reason))]
            },
            None => {
                &&& peer == self.joined(rooms, request.room, made)
                &&& rooms_after == after_join(rooms, request.room, self.id, self.sender)
                &&& self.join_effects(rooms, request, effects)
            },
        }
    }

    /// How a request to leave is handled.
    pub open spec fn leave_handled(
        self,
        rooms: Map<Seq<char>, RoomView>,
        request: PayloadView,
        effects: Seq<EffectView>,
        peer: PeerView,
        rooms_after: Map<Seq<char>, RoomView>,
    ) -> bool {
        if self.rooms.contains_key(request.room) {
            &&& peer == self.parted(request.room)
            &&& rooms_after == after_leave(rooms, request.room, self.id)
            &&& self.leave_effects(rooms, request, effects)
        } else {
            &&& peer == self
            &&& rooms_after == rooms
            &&& effects == seq![self.sent(request.error(constants::INVALID_ROOM_MSG@))]
        }
    }

    /// The effects of greeting the peer.
    pub open spec fn greeted(self, state: GlobalState, effects: Seq<EffectView>) -> bool {
        exists|text: Seq<char>|
            {
                &&& #[trigger] state.greets(text)
                &&& effects == seq![EffectView::Send { to: self.sender, text }]
            }
    }

    /// The effects of ending the connection: the peer leaves its rooms in some order,
    /// and the connection is counted off.
    pub open spec fn disconnect_effects(
        self,
        rooms: Map<Seq<char>, RoomView>,
        effects: Seq<EffectView>,
    ) -> bool {
        exists|order: Seq<Seq<char>>, farewells: Seq<EffectView>|
            {
                &&& #[trigger] enumerates(order, self.rooms.dom())
                &&& #[trigger] departures(rooms, order, self.id, farewells)
                &&& effects == farewells + (seq![EffectView::ConnectionClosed { ip: self.ip }]
                    + agent_effects(self.agent, false))
            }
    }
}

impl Peer {
    pub open spec fn wf(self) -> bool {
        self.rooms.wf()
    }

    /// Sends the peer a payload.
    fn send(&self, payload: &Payload<'_>) -> (effect: Effect)
        ensures
            effect@ == self@.sent(payload@),
    {
        Effect::Send { to: self.sender, text: payload.to_json() }
    }

    /// Sends the peer a payload and does nothing else.
    fn answer(&self, payload: &Payload<'_>) -> (effects: Vec<Effect>)
        ensures
            shown(effects@) == seq![self@.sent(payload@)],
    {
        let mut effects = nothing();
        emit(&mut effects, self.send(payload));
        assert(shown(effects@) =~= seq![self@.sent(payload@)]);
        effects
    }

    /// Join a room.
    pub fn join(&mut self, global_state: &mut GlobalState, payload: &Payload<'_>) -> (effects: Vec<
        Effect,
    >)
        requires
            old(self).wf(),
            old(global_state).wf(),
        ensures
            final(self).wf(),
            keeps_own_buckets(*old(self), *final(self)),
            final(global_state).wf(),
            final(global_state).config == old(global_state).config,
            final(global_state).connections == old(global_state).connections,
            final(global_state).mint@ == old(self)@.made_after_join(
                old(global_state).rooms_view(),
                payload@.room,
                old(global_state).mint@,
            ),
            old(self)@.join_handled(
                old(global_state).rooms_view(),
                old(global_state).mint@,
                payload@,
                shown(effects@),
                final(self)@,
                final(global_state).rooms_view(),
            ),
    {
        let room_name = payload.room;
        let ghost rooms = global_state.rooms_view();
        let ghost peer = self@;
        let known = global_state.rooms.contains_key(room_name);
        assert(known == rooms.contains_key(room_name@));
        if !(is_valid_room(room_name) || known) {
            return self.answer(&payload.reply_room_name_too_short());
        }
        let member = self.rooms.contains_key(room_name);
        assert(member == peer.rooms.contains_key(room_name@));
        if member {
            return self.answer(&payload.reply_invalid_room());
        }
        let ghost room = room_before_join(rooms, room_name@);
        let (freq, size, users, told) = match global_state.rooms.get(room_name) {
            Some(room) => {
                let users = room.subscribed();
                let metadata = room.metadata();
                let told = room_info(room_name, metadata, &users);
                (metadata.msg_freq_ratelimit, metadata.msg_size_ratelimit, users, told)
            },
            None => {
                let metadata = RoomMetaData {
                    read_only: false,
                    extra_info: None,
                    msg_freq_ratelimit: None,
                    msg_size_ratelimit: None,
                };
                let users: Vec<String> = Vec::new();
                let told = room_info(room_name, &metadata, &users);
                assert(texts(users@).to_set() =~= Set::<Seq<char>>::empty());
                (None, None, users, told)
            },
        };
        let limits = make_ratelimiters(&freq, &size, &mut global_state.mint);
        assert(limits@ == room_limits(room.metadata, old(global_state).mint@));
        assert(enumerates(texts(users@), room.senders.dom()));
        let mut effects = global_state.subscribe(room_name, self.id.as_str(), self.sender);
        let ghost welcome = shown(effects@);
        self.rooms.insert(room_name.to_owned(), limits);
        assert(self@.rooms =~= peer.rooms.insert(room_name@, limits@));
        emit(&mut effects, self.send(&payload.reply_room_join()));
        emit(&mut effects, Effect::Send { to: self.sender, text: told });
        proof {
            assert(room.welcomes(welcome, peer.id, peer.sender));
            assert(shown(effects@) =~= welcome + seq![
                peer.sent(payload@.success(constants::ROOM_JOIN_MSG@)),
                EffectView::Send {
                    to: peer.sender,
                    text: room_info_text(room_name@, room.metadata, texts(users@)),
                },
            ]);
        }
        effects
    }

    /// Leave a room.
    pub fn leave(&mut self, global_state: &mut GlobalState, payload: &Payload<'_>) -> (effects: Vec<
        Effect,
    >)
        requires
            old(self).wf(),
            old(global_state).wf(),
            linked(old(global_state).rooms_view(), old(self)@),
        ensures
            final(self).wf(),
            keeps_own_buckets(*old(self), *final(self)),
            final(global_state).wf(),
            final(global_state).config == old(global_state).config,
            final(global_state).connections == old(global_state).connections,
            final(global_state).mint == old(global_state).mint,
            old(self)@.leave_handled(
                old(global_state).rooms_view(),
                payload@,
                shown(effects@),
                final(self)@,
                final(global_state).rooms_view(),
            ),
    {
        let ghost peer = self@;
        match self.rooms.remove(payload.room) {
            Some(_limits) => {
                assert(peer.rooms.contains_key(payload.room@));
                assert(self@.rooms =~= peer.rooms.remove(payload.room@));
                let mut effects = global_state.unsubscribe(payload.room, self.id.as_str());
                emit(&mut effects, self.send(&payload.reply_room_leave()));
                effects
            },
            None => {
                assert(self@.rooms =~= peer.rooms);
                self.answer(&payload.reply_invalid_room())
            },
        }
    }

    /// Send a message in a room. Where the peer has to wait for its ratelimiters
    /// there, the message is handed back with what it costs.
    pub fn send_message(
        &self,
        global_state: &GlobalState,
        payload: &Payload<'_>,
        data_size: usize,
    ) -> (handled: Handled)
        requires
            self.wf(),
            global_state.wf(),
            linked(global_state.rooms_view(), self@),
        ensures
            self@.message_handled(
                global_state.rooms_view(),
                payload@,
                data_size as int,
                handled@,
            ),
    {
        let ghost rooms = global_state.rooms_view();
        match self.rooms.get(payload.room) {
            Some(limits) => {
                assert(self@.rooms.contains_key(payload.room@));
                assert(self@.rooms[payload.room@] == limits@);
                let room = global_state.rooms.get(payload.room).unwrap();
                if room.metadata().read_only && !self.is_admin {
                    Handled {
                        effects: self.answer(&payload.reply_room_read_only()),
                        next: Next::Continue,
                    }
                } else if self.is_admin {
                    let text = payload.to_json();
                    Handled {
                        effects: self.relay(global_state, payload.room, text.as_str()),
                        next: Next::Continue,
                    }
                } else {
                    Handled {
                        effects: nothing(),
                        next: Next::Broadcast(
                            PendingMessage {
                                room: payload.room.to_owned(),
                                text: payload.to_json(),
                                charges: limits.send_message(data_size),
                            },
                        ),
                    }
                }
            },
            None => {
                assert(!self@.rooms.contains_key(payload.room@));
                Handled { effects: self.answer(&payload.reply_invalid_room()), next: Next::Continue }
            },
        }
    }

    /// Sends the text to the other members of a room that the peer is in.
    pub fn relay(&self, global_state: &GlobalState, room: &str, text: &str) -> (effects: Vec<Effect>)
        requires
            self.wf(),
            global_state.wf(),
            linked(global_state.rooms_view(), self@),
            self@.rooms.contains_key(room@),
        ensures
            global_state.rooms_view()[room@].broadcasts(shown(effects@), text@, Some(self@.id)),
    {
        let entry = global_state.rooms.get(room).unwrap();
        assert(global_state.rooms_view()[room@] == entry@);
        entry.broadcast(text, Some(self.id.as_str()))
    }

    /// Passes on a message that has been paid for.
    pub fn resume(&self, global_state: &GlobalState, pending: &PendingMessage) -> (effects: Vec<
        Effect,
    >)
        requires
            self.wf(),
            global_state.wf(),
            linked(global_state.rooms_view(), self@),
            self@.rooms.contains_key(pending.room@),
        ensures
            global_state.rooms_view()[pending.room@].broadcasts(
                shown(effects@),
                pending.text@,
                Some(self@.id),
            ),
    {
        self.relay(global_state, pending.room.as_str(), pending.text.as_str())
    }

    /// What the peer owes before a payload of this size is looked at. Administrators
    /// owe nothing.
    pub fn admission(&self, payload_size: usize) -> (due: Vec<Charge>)
        ensures
            due@ == self@.admission_charges(payload_size as int),
    {
        if self.is_admin {
            let due: Vec<Charge> = Vec::new();
            assert(due@ =~= self@.admission_charges(payload_size as int));
            due
        } else {
            self.ratelimiters.send_message(payload_size)
        }
    }

    /// Start serving a client that is connected already: it gets an ID by chance,
    /// and is greeted.
    pub fn start_from_stream(
        global_state: &GlobalState,
        ip: String,
        agent: Option<String>,
        sender: u64,
        is_admin: bool,
    ) -> (started: (Self, Vec<Effect>))
        requires
            global_state.wf(),
            global_state.clients_view().contains_key(ip@),
        ensures
            started.0.wf(),
            is_random_uuid(started.0@.id),
            started.0@ == new_peer(
                global_state.clients_view(),
                started.0@.id,
                ip@,
                string_said(agent),
                sender,
                is_admin,
            ),
            started.0.ratelimiters == global_state.connections@[ip@].ratelimiters,
            started.0@.greeted(*global_state, shown(started.1@)),
    {
        Self::start_with_id(global_state, new_peer_id(), ip, agent, sender, is_admin)
    }

    /// Start serving a client that is connected already, under the given ID.
    pub fn start_with_id(
        global_state: &GlobalState,
        id: String,
        ip: String,
        agent: Option<String>,
        sender: u64,
        is_admin: bool,
    ) -> (started: (Self, Vec<Effect>))
        requires
            global_state.wf(),
            global_state.clients_view().contains_key(ip@),
        ensures
            started.0.wf(),
            started.0@ == new_peer(
                global_state.clients_view(),
                id@,
                ip@,
                string_said(agent),
                sender,
                is_admin,
            ),
            started.0.ratelimiters == global_state.connections@[ip@].ratelimiters,
            started.0@.greeted(*global_state, shown(started.1@)),
    {
        let client = global_state.connections.get(ip.as_str()).unwrap();
        assert(global_state.clients_view()[ip@] == client@);
        let ratelimiters = client.ratelimiters.clone();
        let peer = Peer { id, is_admin, ip, agent, rooms: Directory::new(), ratelimiters, sender };
        assert(peer@.rooms =~= Map::<Seq<char>, RatelimitersView>::empty());
        let effects = peer.hello(global_state);
        (peer, effects)
    }

    /// Greets the peer.
    pub fn hello(&self, global_state: &GlobalState) -> (effects: Vec<Effect>)
        requires
            global_state.wf(),
        ensures
            self@.greeted(*global_state, shown(effects@)),
    {
        let text = global_state.hello();
        let ghost said = text@;
        let mut effects = nothing();
        emit(&mut effects, Effect::Send { to: self.sender, text });
        assert(global_state.greets(said));
        assert(shown(effects@) =~= seq![EffectView::Send { to: self.sender, text: said }]);
        effects
    }

    /// Ends the connection: the peer leaves every room, and its address has one
    /// connection less.
    pub fn disconnect(&mut self, global_state: &mut GlobalState) -> (effects: Vec<Effect>)
        requires
            old(self).wf(),
            old(global_state).wf(),
            linked(old(global_state).rooms_view(), old(self)@),
            old(global_state).clients_view().contains_key(old(self)@.ip),
        ensures
            final(self).wf(),
            final(self).ratelimiters == old(self).ratelimiters,
            final(self)@ == (PeerView { rooms: Map::empty(), ..old(self)@ }),
            final(global_state).wf(),
            final(global_state).config == old(global_state).config,
            final(global_state).mint == old(global_state).mint,
            final(global_state).rooms_view() == after_departure(
                old(global_state).rooms_view(),
                old(self)@.rooms.dom(),
                old(self)@.id,
            ),
            final(global_state).clients_view() == after_disconnect(
                old(global_state).clients_view(),
                old(self)@.ip,
            ),
            keeps_buckets(old(global_state).connections@, final(global_state).connections@),
            old(self)@.disconnect_effects(old(global_state).rooms_view(), shown(effects@)),
    {
        let names = self.rooms.keys();
        let ghost rooms = global_state.rooms_view();
        let ghost peer = self@;
        let ghost order = texts(names@);
        assert(peer.rooms.dom() =~= self.rooms@.dom());
        let mut effects = nothing();
        let mut i: usize = 0;
        proof {
            assert(order.take(0).to_set() =~= Set::<Seq<char>>::empty());
            assert(after_departure(rooms, order.take(0).to_set(), peer.id) =~= rooms);
        }
        while i < names.len()
            invariant
                i <= names.len(),
                order == texts(names@),
                enumerates(order, peer.rooms.dom()),
                linked(rooms, peer),
                self.wf(),
                self@ == peer,
                global_state.wf(),
                global_state.config == old(global_state).config,
                global_state.connections == old(global_state).connections,
                global_state.mint == old(global_state).mint,
                global_state.rooms_view() == after_departure(
                    rooms,
                    order.take(i as int).to_set(),
                    peer.id,
                ),
                departures(rooms, order.take(i as int), peer.id, shown(effects@)),
            decreases names.len() - i,
        {
            let ghost name = order[i as int];
            let ghost gone = order.take(i as int).to_set();
            let ghost told = shown(effects@);
            let ghost now = global_state.rooms_view();
            proof {
                assert(order.contains(name));
                assert(peer.rooms.contains_key(name));
                assert(!gone.contains(name)) by {
                    if order.take(i as int).contains(name) {
                        let k = choose|k: int| 0 <= k < i && order.take(i as int)[k] == name;
                        assert(order[k] == order[i as int]);
                    }
                }
                assert(now.contains_key(name) && now[name] == rooms[name]);
            }
            let more = global_state.unsubscribe(names[i].as_str(), self.id.as_str());
            let ghost last = shown(more@);
            emit_all(&mut effects, more);
            proof {
                let next = order.take(i + 1);
                assert(next.drop_last() =~= order.take(i as int));
                assert(next.last() == name);
                assert(next =~= order.take(i as int).push(name));
                order.take(i as int).lemma_push_to_set_commute(name);
                assert(next.to_set() == gone.insert(name));
                assert(global_state.rooms_view() =~= after_departure(
                    rooms,
                    next.to_set(),
                    peer.id,
                ));
                assert(shown(effects@) == told + last);
                assert(departures(rooms, next, peer.id, shown(effects@)));
            }
            i = i + 1;
        }
        assert(order.take(names.len() as int) =~= order);
        let ghost farewells = shown(effects@);
        self.rooms.clear();
        assert(self@.rooms =~= Map::<Seq<char>, RatelimitersView>::empty());
        let agent = self.agent.clone();
        let closed = global_state.client_disconnected(self.ip.as_str(), agent);
        emit_all(&mut effects, closed);
        proof {
            assert(enumerates(order, peer.rooms.dom()));
            assert(departures(rooms, order, peer.id, farewells));
            assert(shown(effects@) =~= farewells + (seq![
                EffectView::ConnectionClosed { ip: peer.ip },
            ] + agent_effects(peer.agent, false)));
        }
        effects
    }

    /// Handle incoming websocket byte or text data: the payload that it holds, if it
    /// holds one, and its size.
    pub fn on_message(
        &mut self,
        global_state: &mut GlobalState,
        payload: Option<Payload<'_>>,
        data_size: usize,
    ) -> (handled: Handled)
        requires
            old(self).wf(),
            old(global_state).wf(),
            linked(old(global_state).rooms_view(), old(self)@),
        ensures
            final(self).wf(),
            keeps_own_buckets(*old(self), *final(self)),
            final(global_state).wf(),
            final(global_state).config == old(global_state).config,
            final(global_state).connections == old(global_state).connections,
            linked(final(global_state).rooms_view(), final(self)@),
            final(global_state).mint@ == old(self)@.made_after(
                old(global_state).rooms_view(),
                match payload {
                    Some(p) => Some(p@),
                    None => None,
                },
                old(global_state).mint@,
            ),
            old(self)@.payload_handled(
                old(global_state).rooms_view(),
                old(global_state).mint@,
                match payload {
                    Some(p) => Some(p@),
                    None => None,
                },
                data_size as int,
                handled@,
                final(self)@,
                final(global_state).rooms_view(),
            ),
    {
        match payload {
            Some(payload) => {
                if payload.is_invalid() {
                    return Handled {
                        effects: self.answer(&payload.reply_invalid_msg()),
                        next: Next::Continue,
                    };
                }
                match payload.kind {
                    PayloadKind::Message => {
                        let message = Payload { user: self.id.as_str(), ..payload };
                        assert(message@ == payload@.signed(self@.id));
                        self.send_message(global_state, &message, data_size)
                    },
                    PayloadKind::Join => Handled {
                        effects: self.join(global_state, &payload),
                        next: Next::Continue,
                    },
                    PayloadKind::Leave => Handled {
                        effects: self.leave(global_state, &payload),
                        next: Next::Continue,
                    },
                    _ => Handled { effects: nothing(), next: Next::Quit },
                }
            },
            None => {
                let mut effects = nothing();
                emit(
                    &mut effects,
                    Effect::Send {
                        to: self.sender,
                        text: constants::INVALID_JSON_MSG.to_owned(),
                    },
                );
                assert(shown(effects@) =~= seq![
                    EffectView::Send { to: self.sender, text: constants::INVALID_JSON_MSG@ },
                ]);
                Handled { effects, next: Next::Continue }
            },
        }
    }
}

} // verus!
