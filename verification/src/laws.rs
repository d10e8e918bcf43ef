//! What holds of the server as a whole.
use crate::config::{ratelimit_text, Config, Ratelimit};
use crate::constants::{self, valid_room_name};
use crate::directory::{enumerates, keys_of, walks};
use crate::effect::EffectView;
use crate::endpoint::{admitted, forwarded_text, request_outcome, RequestView};
use crate::model::{kind_name, kind_named, PayloadKind, PayloadView};
use crate::peer::{
    after_departure, linked, member_buckets_apart, new_peer, peers_apart, HandledView, NextView,
    PeerView,
};
use crate::readback::lemma_ratelimit_ends;
use crate::room::{
    announcement_text, deliveries, others, retellings, room_info_text, MetaDataView, RoomView,
};
use crate::state::{
    after_connect, after_disconnect, after_join, after_leave, after_reload, channel_effects,
    clients_apart, configured_rooms, connections_of, empty_room, inhabited, is_public,
    made_after_connect, public_rooms, reload_effects, room_before_join,
    ChannelView, ClientView, GlobalState,
};
use crate::text::json_string;
use vstd::prelude::*;

verus! {

/// A peer that has just connected, under an ID that nobody in a room has, is in no
/// room, and the rooms know it.
pub proof fn a_new_peer_is_nowhere(
    rooms: Map<Seq<char>, RoomView>,
    clients: Map<Seq<char>, ClientView>,
    made: nat,
    id: Seq<char>,
    ip: Seq<char>,
    agent: Option<Seq<char>>,
    sender: u64,
    is_admin: bool,
)
    requires
        forall|name: Seq<char>| #[trigger]
            rooms.contains_key(name) ==> !rooms[name].senders.contains_key(id),
    ensures
        linked(rooms, new_peer(clients, id, ip, agent, sender, is_admin)),
        member_buckets_apart(clients, made, new_peer(clients, id, ip, agent, sender, is_admin)),
{
}

/// After a peer joined a room, it and the rooms agree on where it is a member, and so
/// does everyone else with the rooms.
pub proof fn joining_keeps_the_rooms_right(
    rooms: Map<Seq<char>, RoomView>,
    made: nat,
    peer: PeerView,
    room: Seq<char>,
    other: PeerView,
)
    requires
        linked(rooms, peer),
        linked(rooms, other),
        other.id != peer.id,
        peer.join_refusal(rooms, room) is None,
    ensures
        linked(after_join(rooms, room, peer.id, peer.sender), peer.joined(rooms, room, made)),
        linked(after_join(rooms, room, peer.id, peer.sender), other),
{
    let after = after_join(rooms, room, peer.id, peer.sender);
    let joined = peer.joined(rooms, room, made);
    assert forall|name: Seq<char>| #[trigger] joined.rooms.contains_key(name) implies
        after.contains_key(name) && after[name].senders.contains_key(peer.id)
        && after[name].senders[peer.id] == peer.sender by {
        if name != room {
            assert(peer.rooms.contains_key(name));
        }
    }
    assert forall|name: Seq<char>| #[trigger] other.rooms.contains_key(name) implies
        after.contains_key(name) && after[name].senders.contains_key(other.id)
        && after[name].senders[other.id] == other.sender by {
        assert(rooms.contains_key(name));
    }
    assert forall|name: Seq<char>| #[trigger]
        after.contains_key(name) && after[name].senders.contains_key(other.id) implies
        other.rooms.contains_key(name) by {
        if name == room && !rooms.contains_key(room) {
            assert(!after[name].senders.contains_key(other.id));
        }
        assert(rooms.contains_key(name));
    }
    assert forall|name: Seq<char>| #[trigger]
        after.contains_key(name) && after[name].senders.contains_key(peer.id) implies
        joined.rooms.contains_key(name) by {
        if name != room {
            assert(rooms.contains_key(name));
        }
    }
}

/// After a peer left a room, it and the rooms agree on where it is a member, and so
/// does everyone else with the rooms.
pub proof fn leaving_keeps_the_rooms_right(
    rooms: Map<Seq<char>, RoomView>,
    peer: PeerView,
    room: Seq<char>,
    other: PeerView,
)
    requires
        linked(rooms, peer),
        linked(rooms, other),
        other.id != peer.id,
        peer.rooms.contains_key(room),
    ensures
        linked(after_leave(rooms, room, peer.id), peer.parted(room)),
        linked(after_leave(rooms, room, peer.id), other),
{
    let after = after_leave(rooms, room, peer.id);
    let parted = peer.parted(room);
    assert forall|name: Seq<char>| #[trigger] parted.rooms.contains_key(name) implies
        after.contains_key(name) && after[name].senders.contains_key(peer.id)
        && after[name].senders[peer.id] == peer.sender by {
        assert(peer.rooms.contains_key(name));
    }
    assert forall|name: Seq<char>| #[trigger] other.rooms.contains_key(name) implies
        after.contains_key(name) && after[name].senders.contains_key(other.id)
        && after[name].senders[other.id] == other.sender by {
        if name == room {
            assert(rooms[room].without_member(peer.id).senders.contains_key(other.id));
        }
    }
    assert forall|name: Seq<char>| #[trigger]
        after.contains_key(name) && after[name].senders.contains_key(other.id) implies
        other.rooms.contains_key(name) by {
        assert(rooms.contains_key(name));
    }
    assert forall|name: Seq<char>| #[trigger]
        after.contains_key(name) && after[name].senders.contains_key(peer.id) implies
        parted.rooms.contains_key(name) by {
        assert(rooms.contains_key(name));
    }
}

/// After a peer disconnected it is a member nowhere, and everyone else and the rooms
/// still agree.
pub proof fn disconnecting_keeps_the_rooms_right(
    rooms: Map<Seq<char>, RoomView>,
    peer: PeerView,
    other: PeerView,
)
    requires
        linked(rooms, peer),
        linked(rooms, other),
        other.id != peer.id,
    ensures
        forall|name: Seq<char>| #[trigger]
            after_departure(rooms, peer.rooms.dom(), peer.id).contains_key(name)
                ==> !after_departure(
                rooms,
                peer.rooms.dom(),
                peer.id,
            )[name].senders.contains_key(peer.id),
        linked(after_departure(rooms, peer.rooms.dom(), peer.id), other),
{
    let after = after_departure(rooms, peer.rooms.dom(), peer.id);
    assert forall|name: Seq<char>| #[trigger] after.contains_key(name) implies
        !after[name].senders.contains_key(peer.id) by {
        assert(rooms.contains_key(name));
    }
    assert forall|name: Seq<char>| #[trigger] other.rooms.contains_key(name) implies
        after.contains_key(name) && after[name].senders.contains_key(other.id)
        && after[name].senders[other.id] == other.sender by {
        assert(rooms[name].without_member(peer.id).senders.contains_key(other.id));
    }
    assert forall|name: Seq<char>| #[trigger]
        after.contains_key(name) && after[name].senders.contains_key(other.id) implies
        other.rooms.contains_key(name) by {
        assert(rooms.contains_key(name));
    }
}

/// Whatever payload a peer sends, it and the rooms agree afterwards on where it is a
/// member, and so does everyone else with the rooms.
pub proof fn payloads_keep_the_rooms_right(
    rooms: Map<Seq<char>, RoomView>,
    made: nat,
    peer: PeerView,
    payload: Option<PayloadView>,
    size: int,
    handled: HandledView,
    peer_after: PeerView,
    rooms_after: Map<Seq<char>, RoomView>,
    other: PeerView,
)
    requires
        linked(rooms, peer),
        linked(rooms, other),
        other.id != peer.id,
        peer.payload_handled(rooms, made, payload, size, handled, peer_after, rooms_after),
    ensures
        linked(rooms_after, peer_after),
        linked(rooms_after, other),
        peer_after == (PeerView { rooms: peer_after.rooms, ..peer }),
{
    if payload is Some && !payload->0.invalid() {
        let request = payload->0;
        if request.kind == PayloadKind::Join && peer.join_refusal(rooms, request.room) is None {
            joining_keeps_the_rooms_right(rooms, made, peer, request.room, other);
        }
        if request.kind == PayloadKind::Leave && peer.rooms.contains_key(request.room) {
            leaving_keeps_the_rooms_right(rooms, peer, request.room, other);
        }
    }
}

/// Reading the configuration again removes no room and changes nobody's membership.
pub proof fn reloading_keeps_the_members(
    rooms: Map<Seq<char>, RoomView>,
    channels: Seq<ChannelView>,
    peer: PeerView,
)
    ensures
        forall|name: Seq<char>| #[trigger]
            rooms.contains_key(name) ==> after_reload(rooms, channels).contains_key(name)
                && after_reload(rooms, channels)[name].senders == rooms[name].senders,
        linked(rooms, peer) ==> linked(after_reload(rooms, channels), peer),
    decreases channels.len(),
{
    if channels.len() > 0 {
        reloading_keeps_the_members(rooms, channels.drop_last(), peer);
        let before = after_reload(rooms, channels.drop_last());
        let after = after_reload(rooms, channels);
        assert forall|name: Seq<char>| #[trigger] rooms.contains_key(name) implies
            after.contains_key(name) && after[name].senders == rooms[name].senders by {
            assert(before.contains_key(name));
        }
        if linked(rooms, peer) {
            assert forall|name: Seq<char>| #[trigger] peer.rooms.contains_key(name) implies
                after.contains_key(name) && after[name].senders.contains_key(peer.id)
                && after[name].senders[peer.id] == peer.sender by {
                assert(before.contains_key(name));
            }
            assert forall|name: Seq<char>| #[trigger]
                after.contains_key(name) && after[name].senders.contains_key(peer.id) implies
                peer.rooms.contains_key(name) by {
                assert(before.contains_key(name));
            }
        }
    }
}

/// Why a payload is refused, if it is. Requests need a room, messages a body too, and
/// clients send no answers. A room that is not there can be joined only under a name of
/// 32 characters or more, and nobody joins twice; only members leave and send, and in a
/// read-only room only administrators send.
pub open spec fn refusal(
    rooms: Map<Seq<char>, RoomView>,
    peer: PeerView,
    request: PayloadView,
) -> Option<Seq<char>> {
    let room = request.room;
    let member = peer.rooms.contains_key(room);
    match request.kind {
        PayloadKind::Join => if room.len() == 0 {
            Some(constants::INVALID_MSG@)
        } else if !rooms.contains_key(room) && room.len() < 32 {
            Some(constants::ROOM_NAME_TOO_SHORT@)
        } else if member {
            Some(constants::INVALID_ROOM_MSG@)
        } else {
            None
        },
        PayloadKind::Leave => if room.len() == 0 {
            Some(constants::INVALID_MSG@)
        } else if !member {
            Some(constants::INVALID_ROOM_MSG@)
        } else {
            None
        },
        PayloadKind::Message => if room.len() == 0 || request.body is None {
            Some(constants::INVALID_MSG@)
        } else if !member {
            Some(constants::INVALID_ROOM_MSG@)
        } else if rooms[room].metadata.read_only && !peer.is_admin {
            Some(constants::ROOM_READ_ONLY@)
        } else {
            None
        },
        PayloadKind::Quit => None,
        PayloadKind::Error | PayloadKind::Success => Some(constants::INVALID_MSG@),
    }
}

/// A payload that is refused changes nothing and reaches nobody: all that happens is
/// that its author is told why. The answer names the same room and carries the same
/// `id`.
pub proof fn refusals_change_nothing(
    rooms: Map<Seq<char>, RoomView>,
    made: nat,
    peer: PeerView,
    request: PayloadView,
    size: int,
    handled: HandledView,
    peer_after: PeerView,
    rooms_after: Map<Seq<char>, RoomView>,
)
    requires
        peer.payload_handled(rooms, made, Some(request), size, handled, peer_after, rooms_after),
        refusal(rooms, peer, request) is Some,
    ensures
        peer_after == peer,
        rooms_after == rooms,
        handled.next == NextView::Continue,
        handled.effects == seq![
            EffectView::Send {
                to: peer.sender,
                text: (PayloadView {
                    kind: PayloadKind::Error,
                    room: request.room,
                    user: seq![],
                    id: request.id,
                    body: refusal(rooms, peer, request),
                }).text(),
            },
        ],
{
    if !request.invalid() && request.kind == PayloadKind::Message {
        let message = request.signed(peer.id);
        assert(message.error(constants::INVALID_ROOM_MSG@) == request.error(
            constants::INVALID_ROOM_MSG@,
        ));
        assert(message.error(constants::ROOM_READ_ONLY@) == request.error(
            constants::ROOM_READ_ONLY@,
        ));
    }
}

/// A request to join or leave is always answered, to its author, by a success or an
/// error that names the same room and carries the same `id`.
pub proof fn requests_are_answered(
    rooms: Map<Seq<char>, RoomView>,
    made: nat,
    peer: PeerView,
    request: PayloadView,
    size: int,
    handled: HandledView,
    peer_after: PeerView,
    rooms_after: Map<Seq<char>, RoomView>,
) -> (answer: PayloadView)
    requires
        peer.payload_handled(rooms, made, Some(request), size, handled, peer_after, rooms_after),
        request.kind == PayloadKind::Join || request.kind == PayloadKind::Leave,
    ensures
        handled.effects.contains(EffectView::Send { to: peer.sender, text: answer.text() }),
        answer.room == request.room,
        answer.user.len() == 0,
        answer.id == request.id,
        answer.body == (match refusal(rooms, peer, request) {
            Some(reason) => Some(reason),
            None => if request.kind == PayloadKind::Join {
                Some(constants::ROOM_JOIN_MSG@)
            } else {
                Some(constants::ROOM_LEAVE_MSG@)
            },
        }),
        answer.id matches Some(id) ==> answer.fields().contains(("id"@, id)),
        answer.kind == (if refusal(rooms, peer, request) is Some {
            PayloadKind::Error
        } else {
            PayloadKind::Success
        }),
{
    let answer = match refusal(rooms, peer, request) {
        Some(reason) => request.error(reason),
        None => if request.kind == PayloadKind::Join {
            request.success(constants::ROOM_JOIN_MSG@)
        } else {
            request.success(constants::ROOM_LEAVE_MSG@)
        },
    };
    let sent = peer.sent(answer);
    if refusal(rooms, peer, request) is Some {
        refusals_change_nothing(rooms, made, peer, request, size, handled, peer_after, rooms_after);
        assert(handled.effects[0] == sent);
    } else if request.kind == PayloadKind::Join {
        let n = handled.effects.len();
        assert(n >= 2 && handled.effects[n - 2] == sent);
    } else {
        assert(handled.effects.last() == sent);
    }
    if let Some(id) = answer.id {
        lemma_id_is_written(answer, id);
    }
    answer
}

proof fn lemma_id_is_written(payload: PayloadView, id: Seq<char>)
    requires
        payload.id == Some(id),
    ensures
        payload.fields().contains(("id"@, id)),
{
    let at: int = 1 + (if payload.room.len() > 0 {
        1int
    } else {
        0
    }) + (if payload.user.len() > 0 {
        1int
    } else {
        0
    });
    assert(payload.fields()[at] == ("id"@, id));
}

/// A message that is passed on names its true author, whatever its author wrote
/// there, and keeps its room and its body.
pub proof fn messages_name_their_authors(
    rooms: Map<Seq<char>, RoomView>,
    made: nat,
    peer: PeerView,
    request: PayloadView,
    body: Seq<char>,
    size: int,
    handled: HandledView,
    peer_after: PeerView,
    rooms_after: Map<Seq<char>, RoomView>,
) -> (message: PayloadView)
    requires
        peer.id.len() > 0,
        peer.payload_handled(rooms, made, Some(request), size, handled, peer_after, rooms_after),
        request.kind == PayloadKind::Message,
        request.body == Some(body),
        refusal(rooms, peer, request) is None,
    ensures
        peer.is_admin ==> rooms[request.room].broadcasts(
            handled.effects,
            message.text(),
            Some(peer.id),
        ),
        !peer.is_admin ==> (handled.next matches NextView::Broadcast { room, text, .. } && room
            == request.room && text == message.text()),
        message.fields().contains(("room"@, json_string(request.room))),
        message.fields().contains(("user"@, json_string(peer.id))),
        message.fields().contains(("body"@, body)),
{
    let message = request.signed(peer.id);
    let fields = message.fields();
    assert(fields[1] == ("room"@, json_string(request.room)));
    assert(fields[2] == ("user"@, json_string(peer.id)));
    assert(fields.last() == ("body"@, body));
    message
}

/// Administrators never wait: they owe nothing, and their messages pass at once.
pub proof fn administrators_never_wait(
    rooms: Map<Seq<char>, RoomView>,
    made: nat,
    peer: PeerView,
    payload: Option<PayloadView>,
    size: int,
    handled: HandledView,
    peer_after: PeerView,
    rooms_after: Map<Seq<char>, RoomView>,
)
    requires
        peer.is_admin,
        peer.payload_handled(rooms, made, payload, size, handled, peer_after, rooms_after),
    ensures
        peer.admission_charges(size).len() == 0,
        !(handled.next is Broadcast),
{
}

/// In a read-only room only administrators are heard: what another member sends
/// there reaches nobody but its author, and is not kept for later either.
pub proof fn read_only_rooms_hear_administrators(
    rooms: Map<Seq<char>, RoomView>,
    made: nat,
    peer: PeerView,
    request: PayloadView,
    size: int,
    handled: HandledView,
    peer_after: PeerView,
    rooms_after: Map<Seq<char>, RoomView>,
)
    requires
        !peer.is_admin,
        request.kind == PayloadKind::Message,
        rooms[request.room].metadata.read_only,
        peer.payload_handled(rooms, made, Some(request), size, handled, peer_after, rooms_after),
    ensures
        !(handled.next is Broadcast),
        forall|i: int|
            0 <= i < handled.effects.len() ==> ((
            #[trigger] handled.effects[i]) matches EffectView::Send { to, .. } ==> to
                == peer.sender),
{
}

/// How often something is sent over a channel.
pub open spec fn times_sent(effects: Seq<EffectView>, to: u64) -> nat
    decreases effects.len(),
{
    if effects.len() == 0 {
        0
    } else {
        times_sent(effects.drop_last(), to) + (match effects.last() {
            EffectView::Send { to: last, .. } => if last == to {
                1nat
            } else {
                0
            },
            _ => 0,
        })
    }
}

/// How many things are sent.
pub open spec fn sends(effects: Seq<EffectView>) -> nat
    decreases effects.len(),
{
    if effects.len() == 0 {
        0
    } else {
        sends(effects.drop_last()) + (if effects.last() is Send {
            1nat
        } else {
            0
        })
    }
}

/// Every user has a channel of their own.
pub open spec fn own_channels(senders: Map<Seq<char>, u64>) -> bool {
    forall|a: Seq<char>, b: Seq<char>|
        #![trigger senders[a], senders[b]]
        senders.contains_key(a) && senders.contains_key(b) && senders[a] == senders[b] ==> a == b
}

pub proof fn lemma_sent_one_by_one(
    walk: Seq<(Seq<char>, u64)>,
    senders: Map<Seq<char>, u64>,
    text: Seq<char>,
    author: Option<Seq<char>>,
)
    requires
        keys_of(walk).no_duplicates(),
        own_channels(senders),
        forall|i: int|
            0 <= i < walk.len() ==> senders.contains_key((#[trigger] walk[i]).0)
                && senders[walk[i].0] == walk[i].1,
    ensures
        forall|id: Seq<char>| #[trigger]
            senders.contains_key(id) ==> times_sent(deliveries(walk, text, author), senders[id])
                == (if author != Some(id) && keys_of(walk).contains(id) {
                1nat
            } else {
                0
            }),
        forall|to: u64|
            (forall|id: Seq<char>| #[trigger] senders.contains_key(id) ==> senders[id] != to)
                ==> #[trigger] times_sent(deliveries(walk, text, author), to) == 0,
        sends(deliveries(walk, text, author)) == deliveries(walk, text, author).len(),
        sends(deliveries(walk, text, author)) == walk.len() - (if author matches Some(id)
            && keys_of(walk).contains(id) {
            1int
        } else {
            0
        }),
        forall|i: int|
            0 <= i < deliveries(walk, text, author).len() ==> (#[trigger] deliveries(
                walk,
                text,
                author,
            )[i]) is Send && deliveries(walk, text, author)[i]->text == text,
    decreases walk.len(),
{
    let keys = keys_of(walk);
    if walk.len() > 0 {
        let before = walk.drop_last();
        let last = walk.last();
        assert(keys.drop_last() =~= keys_of(before));
        assert(keys.last() == last.0);
        assert forall|i: int| 0 <= i < before.len() implies senders.contains_key(
            (#[trigger] before[i]).0,
        ) && senders[before[i].0] == before[i].1 by {
            assert(before[i] == walk[i]);
        }
        assert(keys_of(before).no_duplicates()) by {
            assert forall|i: int, j: int|
                0 <= i < before.len() && 0 <= j < before.len() && i != j implies keys_of(before)[i]
                != keys_of(before)[j] by {
                assert(keys[i] != keys[j]);
            }
        }
        assert(!keys_of(before).contains(last.0)) by {
            if keys_of(before).contains(last.0) {
                let i = choose|i: int| 0 <= i < before.len() && keys_of(before)[i] == last.0;
                assert(keys[i] == keys[walk.len() - 1]);
            }
        }
        assert forall|id: Seq<char>| keys.contains(id) == (keys_of(before).contains(id) || id
            == last.0) by {
            assert(keys =~= keys_of(before).push(last.0));
            if keys_of(before).contains(id) {
                let i = choose|i: int| 0 <= i < before.len() && keys_of(before)[i] == id;
                assert(keys[i] == id);
            }
            if id == last.0 {
                assert(keys[walk.len() - 1] == id);
            }
        }
        lemma_sent_one_by_one(before, senders, text, author);
        let told = deliveries(before, text, author);
        let all = deliveries(walk, text, author);
        assert(walk[walk.len() - 1] == last);
        if author != Some(last.0) {
            assert(all.drop_last() =~= told);
        }
        assert forall|id: Seq<char>| #[trigger] senders.contains_key(id) implies times_sent(
            all,
            senders[id],
        ) == (if author != Some(id) && keys.contains(id) {
            1nat
        } else {
            0
        }) by {
            assert(keys.contains(id) == (keys_of(before).contains(id) || id == last.0));
            assert(senders[last.0] == last.1);
        }
        assert forall|to: u64|
            (forall|id: Seq<char>| #[trigger] senders.contains_key(id) ==> senders[id] != to)
            implies #[trigger] times_sent(all, to) == 0 by {
            assert(senders.contains_key(last.0));
            assert(times_sent(told, to) == 0);
        }
        if let Some(id) = author {
            assert(keys.contains(id) == (keys_of(before).contains(id) || id == last.0));
        }
    }
}

/// A message in a room reaches each of the other members once, and neither its
/// author nor anyone outside the room. It is counted as often as it is sent.
pub proof fn messages_reach_the_others(
    room: RoomView,
    effects: Seq<EffectView>,
    text: Seq<char>,
    author: Seq<char>,
)
    requires
        own_channels(room.senders),
        room.senders.contains_key(author),
        room.broadcasts(effects, text, Some(author)),
    ensures
        forall|id: Seq<char>| #[trigger]
            room.senders.contains_key(id) ==> times_sent(effects, room.senders[id]) == (if id
                == author {
                0nat
            } else {
                1
            }),
        forall|to: u64|
            (forall|id: Seq<char>| #[trigger]
                room.senders.contains_key(id) ==> room.senders[id] != to) ==> #[trigger] times_sent(
                effects,
                to,
            ) == 0,
        forall|i: int|
            0 <= i < effects.len() ==> ((#[trigger] effects[i]) matches EffectView::Send {
                text: said,
                ..
            } ==> said == text),
        sends(effects) == room.senders.len() - 1,
        effects.len() == room.senders.len() + 1,
        effects[0] == EffectView::MessageReceived,
        effects[1] == (EffectView::MessagesSent { count: sends(effects) }),
        forall|i: int| 2 <= i < effects.len() ==> (#[trigger] effects[i]) is Send,
{
    let walk = choose|walk: Seq<(Seq<char>, u64)>| #[trigger]
        walks(walk, room.senders) && effects == room.broadcast_over(walk, text, Some(author));
    let keys = keys_of(walk);
    let counted = seq![
        EffectView::MessageReceived,
        EffectView::MessagesSent { count: (room.senders.len() - 1) as nat },
    ];
    let told = deliveries(walk, text, Some(author));
    crate::directory::lemma_walk_len(walk, room.senders);
    assert forall|id: Seq<char>| keys.contains(id) == room.senders.contains_key(id) by {
        assert(keys.to_set().contains(id) == keys.contains(id));
    }
    assert forall|i: int| 0 <= i < walk.len() implies room.senders.contains_key(
        (#[trigger] walk[i]).0,
    ) && room.senders[walk[i].0] == walk[i].1 by {
        assert(keys[i] == walk[i].0);
        assert(keys.contains(walk[i].0));
    }
    lemma_sent_one_by_one(walk, room.senders, text, Some(author));
    assert(keys.contains(author));
    assert forall|to: u64| #[trigger] times_sent(effects, to) == times_sent(told, to) by {
        lemma_times_sent_together(counted, told, to);
        lemma_counts_are_not_sent(counted, to);
    }
    lemma_counts_are_not_sent(counted, 0);
    lemma_sends_together(counted, told);
    assert(effects[1] == EffectView::MessagesSent { count: sends(effects) });
}

pub proof fn lemma_counts_are_not_sent(counted: Seq<EffectView>, to: u64)
    requires
        forall|i: int| 0 <= i < counted.len() ==> !((#[trigger] counted[i]) is Send),
    ensures
        sends(counted) == 0,
        times_sent(counted, to) == 0,
    decreases counted.len(),
{
    if counted.len() > 0 {
        lemma_counts_are_not_sent(counted.drop_last(), to);
    }
}

pub proof fn lemma_times_sent_together(a: Seq<EffectView>, b: Seq<EffectView>, to: u64)
    ensures
        times_sent(a + b, to) == times_sent(a, to) + times_sent(b, to),
    decreases b.len(),
{
    if b.len() == 0 {
        assert(a + b =~= a);
    } else {
        lemma_times_sent_together(a, b.drop_last(), to);
        assert((a + b).drop_last() =~= a + b.drop_last());
    }
}

proof fn lemma_sends_together(a: Seq<EffectView>, b: Seq<EffectView>)
    ensures
        sends(a + b) == sends(a) + sends(b),
    decreases b.len(),
{
    if b.len() == 0 {
        assert(a + b =~= a);
    } else {
        lemma_sends_together(a, b.drop_last());
        assert((a + b).drop_last() =~= a + b.drop_last());
    }
}

proof fn lemma_told_to_all(room: RoomView, told: Seq<EffectView>, text: Seq<char>, last: EffectView)
    requires
        own_channels(room.senders),
        room.broadcasts(told, text, None),
        !(last is Send),
    ensures
        forall|member: Seq<char>| #[trigger]
            room.senders.contains_key(member) ==> times_sent(
                told.push(last),
                room.senders[member],
            ) == 1,
        forall|to: u64|
            (forall|id: Seq<char>| #[trigger]
                room.senders.contains_key(id) ==> room.senders[id] != to) ==> #[trigger] times_sent(
                told.push(last),
                to,
            ) == 0,
        sends(told.push(last)) == room.senders.len(),
        told.len() == room.senders.len(),
        forall|i: int| 0 <= i < told.len() ==> (#[trigger] told[i]) is Send,
        forall|i: int|
            0 <= i < told.len() ==> ((#[trigger] told[i]) matches EffectView::Send {
                text: said,
                ..
            } ==> said == text),
{
    let walk = choose|walk: Seq<(Seq<char>, u64)>| #[trigger]
        walks(walk, room.senders) && told == room.broadcast_over(walk, text, None);
    let keys = keys_of(walk);
    crate::directory::lemma_walk_len(walk, room.senders);
    assert(told =~= deliveries(walk, text, None));
    assert forall|id: Seq<char>| keys.contains(id) == room.senders.contains_key(id) by {
        assert(keys.to_set().contains(id) == keys.contains(id));
    }
    assert forall|i: int| 0 <= i < walk.len() implies room.senders.contains_key(
        (#[trigger] walk[i]).0,
    ) && room.senders[walk[i].0] == walk[i].1 by {
        assert(keys[i] == walk[i].0);
        assert(keys.contains(walk[i].0));
    }
    lemma_sent_one_by_one(walk, room.senders, text, None);
    assert(told.push(last).drop_last() =~= told);
    assert forall|to: u64|
        (forall|id: Seq<char>| #[trigger]
            room.senders.contains_key(id) ==> room.senders[id] != to) implies #[trigger] times_sent(
        told.push(last),
        to,
    ) == 0 by {
        assert(times_sent(deliveries(walk, text, None), to) == 0);
    }
}

/// When a user comes into a room, each member so far is told once, nobody else is told
/// anything, and then the room is counted with the newcomer.
pub proof fn members_are_told_who_comes(
    room: RoomView,
    effects: Seq<EffectView>,
    id: Seq<char>,
    sender: u64,
)
    requires
        own_channels(room.senders),
        room.welcomes(effects, id, sender),
    ensures
        forall|member: Seq<char>| #[trigger]
            room.senders.contains_key(member) ==> times_sent(effects, room.senders[member]) == 1,
        forall|to: u64|
            (forall|member: Seq<char>| #[trigger]
                room.senders.contains_key(member) ==> room.senders[member] != to)
                ==> #[trigger] times_sent(effects, to) == 0,
        sends(effects) == room.senders.len(),
        effects.len() == room.senders.len() + 1,
        effects.last() == (EffectView::RoomConnections {
            room: room.name,
            count: room.senders.insert(id, sender).len(),
        }),
        forall|i: int|
            0 <= i < effects.len() - 1 ==> (#[trigger] effects[i] matches EffectView::Send {
                text,
                ..
            } && text == announcement_text("join"@, room.name, id)),
{
    let text = announcement_text("join"@, room.name, id);
    let last = EffectView::RoomConnections {
        room: room.name,
        count: room.with_member(id, sender).senders.len(),
    };
    let told = choose|told: Seq<EffectView>|
        {
            &&& #[trigger] room.broadcasts(told, text, None)
            &&& effects == told.push(last)
        };
    lemma_told_to_all(room, told, text, last);
}

/// When a user leaves a room, each member that stays is told once, nobody else is told
/// anything, and then the room is counted without the user.
pub proof fn members_are_told_who_leaves(room: RoomView, effects: Seq<EffectView>, id: Seq<char>)
    requires
        own_channels(room.senders),
        room.dismisses(effects, id),
    ensures
        forall|member: Seq<char>| #[trigger]
            room.senders.contains_key(member) && member != id ==> times_sent(
                effects,
                room.senders[member],
            ) == 1,
        forall|to: u64|
            (forall|member: Seq<char>| #[trigger]
                room.senders.contains_key(member) && member != id ==> room.senders[member] != to)
                ==> #[trigger] times_sent(effects, to) == 0,
        sends(effects) == room.senders.remove(id).len(),
        effects.len() == room.senders.remove(id).len() + 1,
        effects.last() == (EffectView::RoomConnections {
            room: room.name,
            count: room.senders.remove(id).len(),
        }),
        forall|i: int|
            0 <= i < effects.len() - 1 ==> (#[trigger] effects[i] matches EffectView::Send {
                text,
                ..
            } && text == announcement_text("leave"@, room.name, id)),
{
    let text = announcement_text("leave"@, room.name, id);
    let left = room.without_member(id);
    let last = EffectView::RoomConnections { room: room.name, count: left.senders.len() };
    let told = choose|told: Seq<EffectView>|
        {
            &&& #[trigger] left.broadcasts(told, text, None)
            &&& effects == told.push(last)
        };
    assert forall|a: Seq<char>, b: Seq<char>|
        #![trigger left.senders[a], left.senders[b]]
        left.senders.contains_key(a) && left.senders.contains_key(b) && left.senders[a]
            == left.senders[b] implies a == b by {
        assert(room.senders[a] == room.senders[b]);
    }
    lemma_told_to_all(left, told, text, last);
    assert forall|to: u64|
        (forall|member: Seq<char>| #[trigger]
            room.senders.contains_key(member) && member != id ==> room.senders[member] != to)
        implies #[trigger] times_sent(effects, to) == 0 by {
        assert forall|member: Seq<char>| #[trigger]
            left.senders.contains_key(member) implies left.senders[member] != to by {
            assert(room.senders.contains_key(member));
        }
    }
    assert forall|member: Seq<char>| #[trigger]
        room.senders.contains_key(member) && member != id implies times_sent(
        effects,
        room.senders[member],
    ) == 1 by {
        assert(left.senders.contains_key(member));
    }
}

/// Leaving a room that was just joined undoes it: the rooms and the peer are as they
/// were.
pub proof fn leaving_undoes_joining(
    rooms: Map<Seq<char>, RoomView>,
    made: nat,
    peer: PeerView,
    room: Seq<char>,
)
    requires
        linked(rooms, peer),
        peer.join_refusal(rooms, room) is None,
        inhabited(rooms),
    ensures
        after_leave(after_join(rooms, room, peer.id, peer.sender), room, peer.id) == rooms,
        peer.joined(rooms, room, made).parted(room) == peer,
{
    let joined = after_join(rooms, room, peer.id, peer.sender);
    let before = room_before_join(rooms, room);
    assert(!before.senders.contains_key(peer.id));
    assert(joined[room].without_member(peer.id) =~= before);
    assert(after_leave(joined, room, peer.id) =~= rooms);
    assert(peer.joined(rooms, room, made).parted(room) =~= peer);
}

/// A room that a client made is given up when its last member leaves. A room of the
/// configuration stays, however long its name is.
pub proof fn rooms_end_with_their_last_member(
    rooms: Map<Seq<char>, RoomView>,
    peer: PeerView,
    room: Seq<char>,
)
    requires
        linked(rooms, peer),
        peer.rooms.contains_key(room),
        rooms[room].name == room,
    ensures
        after_leave(rooms, room, peer.id).contains_key(room) == (rooms[room].public
            || !valid_room_name(room) || rooms[room].senders.dom() != set![peer.id]),
{
    let left = rooms[room].senders.remove(peer.id);
    if rooms[room].senders.dom() == set![peer.id] {
        assert(left =~= Map::<Seq<char>, u64>::empty());
    }
    if left == Map::<Seq<char>, u64>::empty() {
        assert forall|id: Seq<char>| rooms[room].senders.contains_key(id) == (id == peer.id) by {
            assert(left.contains_key(id) == (rooms[room].senders.contains_key(id) && id != peer.id));
        }
        assert(rooms[room].senders.dom() =~= set![peer.id]);
    }
}

/// Every room is kept under its name.
pub open spec fn well_named(rooms: Map<Seq<char>, RoomView>) -> bool {
    forall|name: Seq<char>| #[trigger] rooms.contains_key(name) ==> rooms[name].name == name
}

/// Every room that does not come from the configuration has a name that clients may
/// make up.
pub open spec fn private_names(rooms: Map<Seq<char>, RoomView>) -> bool {
    forall|name: Seq<char>| #[trigger]
        rooms.contains_key(name) && !rooms[name].public ==> valid_room_name(name)
}

/// Whatever clients send, no abandoned room is left behind, the rooms that they make
/// have long names and nothing special about them, and the rooms of the configuration
/// stay and stay what they are.
pub proof fn clients_make_only_private_rooms(
    rooms: Map<Seq<char>, RoomView>,
    made: nat,
    peer: PeerView,
    payload: Option<PayloadView>,
    size: int,
    handled: HandledView,
    peer_after: PeerView,
    rooms_after: Map<Seq<char>, RoomView>,
)
    requires
        linked(rooms, peer),
        well_named(rooms),
        peer.payload_handled(rooms, made, payload, size, handled, peer_after, rooms_after),
    ensures
        well_named(rooms_after),
        inhabited(rooms) ==> inhabited(rooms_after),
        private_names(rooms) ==> private_names(rooms_after),
        forall|name: Seq<char>| #[trigger]
            rooms_after.contains_key(name) && !rooms.contains_key(name) ==> valid_room_name(name)
                && !rooms_after[name].public && rooms_after[name].metadata == (MetaDataView {
                read_only: false,
                extra_info: None,
                msg_freq_ratelimit: None,
                msg_size_ratelimit: None,
            }),
        forall|name: Seq<char>| #[trigger]
            rooms.contains_key(name) && rooms[name].public ==> rooms_after.contains_key(name)
                && rooms_after[name].public && rooms_after[name].metadata == rooms[name].metadata,
{
    if let Some(request) = payload {
        if inhabited(rooms) {
            assert forall|name: Seq<char>| #[trigger]
                rooms_after.contains_key(name) implies !rooms_after[name].abandoned() by {
                if name != request.room || rooms_after == rooms {
                    assert(rooms.contains_key(name));
                } else if request.kind == PayloadKind::Join {
                    assert(rooms_after[name].senders.contains_key(peer.id));
                }
            }
        }
    }
}

/// Nor does a client that disconnects leave an abandoned room behind.
pub proof fn departures_leave_no_abandoned_rooms(rooms: Map<Seq<char>, RoomView>, peer: PeerView)
    requires
        well_named(rooms),
    ensures
        well_named(after_departure(rooms, peer.rooms.dom(), peer.id)),
        inhabited(rooms) ==> inhabited(after_departure(rooms, peer.rooms.dom(), peer.id)),
        forall|name: Seq<char>| #[trigger]
            rooms.contains_key(name) && rooms[name].public ==> after_departure(
                rooms,
                peer.rooms.dom(),
                peer.id,
            ).contains_key(name),
{
    let after = after_departure(rooms, peer.rooms.dom(), peer.id);
    assert forall|name: Seq<char>| #[trigger] after.contains_key(name) implies after[name].name
        == name by {
        assert(rooms.contains_key(name));
    }
    if inhabited(rooms) {
        assert forall|name: Seq<char>| #[trigger]
            after.contains_key(name) implies !after[name].abandoned() by {
            assert(rooms.contains_key(name));
        }
    }
}

/// A connection that is opened and closed again leaves no trace, and concerns no
/// other address.
pub proof fn closing_undoes_opening(
    clients: Map<Seq<char>, ClientView>,
    config: Config,
    made: nat,
    ip: Seq<char>,
    other: Seq<char>,
)
    requires
        clients.contains_key(ip) ==> clients[ip].connection_count >= 1,
        other != ip,
    ensures
        after_disconnect(after_connect(clients, config, ip, made), ip) == clients,
        connections_of(after_connect(clients, config, ip, made), ip) == connections_of(clients, ip) + 1,
        connections_of(after_connect(clients, config, ip, made), other) == connections_of(clients, other),
{
    let open = after_connect(clients, config, ip, made);
    if clients.contains_key(ip) {
        assert(after_disconnect(open, ip)[ip] == clients[ip]);
    }
    assert(after_disconnect(open, ip) =~= clients);
}

/// A member is told of all the others and not of itself, and of nobody twice.
pub proof fn members_are_told_of_the_others(users: Seq<Seq<char>>, user: Seq<char>)
    requires
        users.no_duplicates(),
    ensures
        enumerates(others(users, user), users.to_set().remove(user)),
    decreases users.len(),
{
    let told = others(users, user);
    if users.len() > 0 {
        let before = users.drop_last();
        let last = users.last();
        members_are_told_of_the_others(before, user);
        assert(!before.contains(last)) by {
            if before.contains(last) {
                let i = choose|i: int| 0 <= i < before.len() && before[i] == last;
                assert(users[i] == users[users.len() - 1]);
            }
        }
        let earlier = others(before, user);
        assert forall|u: Seq<char>| users.contains(u) == (before.contains(u) || u == last) by {
            if before.contains(u) {
                let i = choose|i: int| 0 <= i < before.len() && before[i] == u;
                assert(users[i] == u);
            }
            if users.contains(u) {
                let i = choose|i: int| 0 <= i < users.len() && users[i] == u;
                if i < before.len() {
                    assert(before[i] == u);
                }
            }
            assert(users[users.len() - 1] == last);
        }
        assert forall|u: Seq<char>| earlier.contains(u) == (before.contains(u) && u != user) by {
            assert(earlier.to_set().contains(u) == before.to_set().remove(user).contains(u));
        }
        if last != user {
            assert(told == earlier.push(last));
            assert(told.no_duplicates()) by {
                assert forall|i: int, j: int|
                    0 <= i < told.len() && 0 <= j < told.len() && i != j implies told[i]
                    != told[j] by {
                    if i == earlier.len() {
                        assert(earlier.contains(earlier[j]));
                    } else if j == earlier.len() {
                        assert(earlier.contains(earlier[i]));
                    }
                }
            }
            assert forall|u: Seq<char>| told.contains(u) == (earlier.contains(u) || u == last) by {
                if earlier.contains(u) {
                    let i = choose|i: int| 0 <= i < earlier.len() && earlier[i] == u;
                    assert(told[i] == u);
                }
                assert(told[earlier.len() as int] == last);
            }
        }
        assert(told.to_set() =~= users.to_set().remove(user)) by {
            assert forall|u: Seq<char>| told.to_set().contains(u) == users.to_set().remove(
                user,
            ).contains(u) by {
                assert(users.contains(u) == (before.contains(u) || u == last));
            }
        }
    } else {
        assert(told.to_set() =~= users.to_set().remove(user));
    }
}

/// One who joins a room is told of those who are there, and not of itself.
pub proof fn newcomers_are_told_of_the_others(
    rooms: Map<Seq<char>, RoomView>,
    peer: PeerView,
    room: Seq<char>,
    users: Seq<Seq<char>>,
)
    requires
        linked(rooms, peer),
        peer.join_refusal(rooms, room) is None,
        enumerates(users, room_before_join(rooms, room).senders.dom()),
    ensures
        !users.contains(peer.id),
        forall|id: Seq<char>| id != peer.id ==> users.contains(id) == #[trigger] after_join(
            rooms,
            room,
            peer.id,
            peer.sender,
        )[room].senders.contains_key(id),
{
    assert forall|id: Seq<char>| users.contains(id) == room_before_join(
        rooms,
        room,
    ).senders.contains_key(id) by {
        assert(users.to_set().contains(id) == users.contains(id));
    }
}

/// A greeting lists the rooms of the configuration, each once, and no others.
pub proof fn greetings_list_the_public_rooms(
    rooms: Map<Seq<char>, RoomView>,
    names: Seq<Seq<char>>,
)
    requires
        names.no_duplicates(),
    ensures
        public_rooms(rooms, names).no_duplicates(),
        forall|name: Seq<char>| #[trigger]
            public_rooms(rooms, names).contains(name) == (names.contains(name) && is_public(
                rooms,
                name,
            )),
        enumerates(names, rooms.dom()) ==> forall|name: Seq<char>| #[trigger]
            public_rooms(rooms, names).contains(name) == is_public(rooms, name),
    decreases names.len(),
{
    if names.len() > 0 {
        let before = names.drop_last();
        let last = names.last();
        greetings_list_the_public_rooms(rooms, before);
        let earlier = public_rooms(rooms, before);
        let listed = public_rooms(rooms, names);
        assert forall|n: Seq<char>| names.contains(n) == (before.contains(n) || n == last) by {
            if before.contains(n) {
                let i = choose|i: int| 0 <= i < before.len() && before[i] == n;
                assert(names[i] == n);
            }
            if names.contains(n) {
                let i = choose|i: int| 0 <= i < names.len() && names[i] == n;
                if i < before.len() {
                    assert(before[i] == n);
                }
            }
            assert(names[names.len() - 1] == last);
        }
        assert(!before.contains(last)) by {
            if before.contains(last) {
                let i = choose|i: int| 0 <= i < before.len() && before[i] == last;
                assert(names[i] == names[names.len() - 1]);
            }
        }
        if is_public(rooms, last) {
            assert forall|n: Seq<char>| listed.contains(n) == (earlier.contains(n) || n == last) by {
                if earlier.contains(n) {
                    let i = choose|i: int| 0 <= i < earlier.len() && earlier[i] == n;
                    assert(listed[i] == n);
                }
                assert(listed[earlier.len() as int] == last);
            }
            assert(!earlier.contains(last));
            assert forall|i: int, j: int|
                0 <= i < listed.len() && 0 <= j < listed.len() && i != j implies listed[i]
                != listed[j] by {
                if i == earlier.len() {
                    assert(earlier.contains(earlier[j]));
                } else if j == earlier.len() {
                    assert(earlier.contains(earlier[i]));
                }
            }
        }
        assert forall|name: Seq<char>| #[trigger] listed.contains(name) == (names.contains(name)
            && is_public(rooms, name)) by {
            assert(names.contains(name) == (before.contains(name) || name == last));
            assert(earlier.contains(name) == (before.contains(name) && is_public(rooms, name)));
        }
    }
    if enumerates(names, rooms.dom()) {
        assert forall|name: Seq<char>| #[trigger]
            public_rooms(rooms, names).contains(name) == is_public(rooms, name) by {
            assert(names.to_set().contains(name) == names.contains(name));
        }
    }
}

/// A name is too short for clients if and only if it has fewer than 32 characters.
pub proof fn names_that_are_too_short(room: Seq<char>)
    ensures
        !valid_room_name(room) == (room.len() < 32),
{
}

/// Reading the same configuration again changes nothing more.
pub proof fn reloading_twice_is_reloading_once(
    rooms: Map<Seq<char>, RoomView>,
    channels: Seq<ChannelView>,
)
    ensures
        after_reload(after_reload(rooms, channels), channels) == after_reload(rooms, channels),
{
    let once = after_reload(rooms, channels);
    let twice = after_reload(once, channels);
    assert forall|name: Seq<char>| #[trigger]
        twice.contains_key(name) == once.contains_key(name) by {
        lemma_reloaded(rooms, channels, name);
        lemma_reloaded(once, channels, name);
    }
    assert forall|name: Seq<char>| #[trigger] twice.contains_key(name) implies twice[name]
        == once[name] by {
        lemma_reloaded(rooms, channels, name);
        lemma_reloaded(once, channels, name);
    }
    assert(twice =~= once);
}

/// Which of the channels has the name: the last one, or -1 if none has it.
pub open spec fn channel_named(channels: Seq<ChannelView>, name: Seq<char>) -> int
    decreases channels.len(),
{
    if channels.len() == 0 {
        -1
    } else if channels.last().name == name {
        channels.len() - 1
    } else {
        channel_named(channels.drop_last(), name)
    }
}

proof fn lemma_reloaded(
    rooms: Map<Seq<char>, RoomView>,
    channels: Seq<ChannelView>,
    name: Seq<char>,
)
    ensures
        ({
            let at = channel_named(channels, name);
            let after = after_reload(rooms, channels);
            &&& -1 <= at < channels.len()
            &&& after.contains_key(name) == (rooms.contains_key(name) || at >= 0)
            &&& at >= 0 ==> after[name] == (if rooms.contains_key(name) {
                RoomView { public: true, metadata: channels[at].metadata, ..rooms[name] }
            } else {
                empty_room(ChannelView { name, metadata: channels[at].metadata })
            })
            &&& at < 0 && rooms.contains_key(name) ==> after[name] == rooms[name]
        }),
    decreases channels.len(),
{
    if channels.len() > 0 {
        lemma_reloaded(rooms, channels.drop_last(), name);
    }
}

/// The rooms at the start are those of the configuration read into nothing.
pub proof fn starting_is_reloading_into_nothing(channels: Seq<ChannelView>)
    ensures
        configured_rooms(channels) == after_reload(Map::empty(), channels),
    decreases channels.len(),
{
    if channels.len() > 0 {
        let earlier = channels.drop_last();
        let name = channels.last().name;
        starting_is_reloading_into_nothing(earlier);
        lemma_reloaded(Map::empty(), earlier, name);
        assert(configured_rooms(channels) =~= after_reload(Map::empty(), channels));
    }
}

/// No two channels have one name.
pub open spec fn distinct_names(channels: Seq<ChannelView>) -> bool {
    forall|i: int, j: int|
        0 <= i < j < channels.len() ==> (#[trigger] channels[i]).name != (
        #[trigger] channels[j]).name
}

/// Reading a configuration again that changed nothing tells nobody anything.
pub proof fn reloading_the_same_is_silent(
    rooms: Map<Seq<char>, RoomView>,
    channels: Seq<ChannelView>,
    effects: Seq<EffectView>,
)
    requires
        distinct_names(channels),
        forall|i: int|
            0 <= i < channels.len() ==> rooms.contains_key((#[trigger] channels[i]).name)
                ==> rooms[channels[i].name].metadata == channels[i].metadata,
        reload_effects(rooms, channels, effects),
    ensures
        effects == Seq::<EffectView>::empty(),
    decreases channels.len(),
{
    if channels.len() > 0 {
        let earlier = channels.drop_last();
        let channel = channels.last();
        let now = after_reload(rooms, earlier);
        let (before, last) = choose|before: Seq<EffectView>, last: Seq<EffectView>|
            {
                &&& effects == #[trigger] (before + last)
                &&& reload_effects(rooms, earlier, before)
                &&& channel_effects(now, channel, last)
            };
        assert forall|i: int| 0 <= i < earlier.len() && rooms.contains_key(
            (#[trigger] earlier[i]).name,
        ) implies rooms[earlier[i].name].metadata == earlier[i].metadata by {
            assert(earlier[i] == channels[i]);
        }
        assert forall|i: int, j: int| 0 <= i < j < earlier.len() implies (
        #[trigger] earlier[i]).name != (#[trigger] earlier[j]).name by {
            assert(channels[i].name != channels[j].name);
        }
        reloading_the_same_is_silent(rooms, earlier, before);
        lemma_reloaded(rooms, earlier, channel.name);
        let at = channel_named(earlier, channel.name);
        lemma_channel_named(earlier, channel.name);
        if at >= 0 {
            assert(channels[at].name == channels[channels.len() - 1].name);
        }
        assert(channels[channels.len() - 1] == channel);
        assert(effects =~= Seq::<EffectView>::empty());
    }
}

proof fn lemma_channel_named(channels: Seq<ChannelView>, name: Seq<char>)
    ensures
        -1 <= channel_named(channels, name) < channels.len(),
        channel_named(channels, name) >= 0 ==> channels[channel_named(channels, name)].name == name,
    decreases channels.len(),
{
    if channels.len() > 0 {
        lemma_channel_named(channels.drop_last(), name);
    }
}

/// No two users are reached over one channel, in whatever rooms they are.
pub open spec fn channels_apart(rooms: Map<Seq<char>, RoomView>) -> bool {
    forall|a: Seq<char>, b: Seq<char>, one: Seq<char>, other: Seq<char>|
        #![trigger rooms[a].senders[one], rooms[b].senders[other]]
        rooms.contains_key(a) && rooms[a].senders.contains_key(one) && rooms.contains_key(b)
            && rooms[b].senders.contains_key(other) && rooms[a].senders[one]
            == rooms[b].senders[other] ==> one == other
}

/// Nobody else is reached over the peer's channel.
pub open spec fn channel_is_own(rooms: Map<Seq<char>, RoomView>, peer: PeerView) -> bool {
    forall|name: Seq<char>, id: Seq<char>|
        #![trigger rooms[name].senders[id]]
        rooms.contains_key(name) && rooms[name].senders.contains_key(id) && rooms[name].senders[id]
            == peer.sender ==> id == peer.id
}

/// Whatever a peer with a channel of its own sends, all users still have channels of
/// their own afterwards, in every room.
pub proof fn payloads_keep_the_channels_apart(
    rooms: Map<Seq<char>, RoomView>,
    made: nat,
    peer: PeerView,
    payload: Option<PayloadView>,
    size: int,
    handled: HandledView,
    peer_after: PeerView,
    rooms_after: Map<Seq<char>, RoomView>,
)
    requires
        linked(rooms, peer),
        channels_apart(rooms),
        channel_is_own(rooms, peer),
        peer.payload_handled(rooms, made, payload, size, handled, peer_after, rooms_after),
    ensures
        channels_apart(rooms_after),
        channel_is_own(rooms_after, peer_after),
        forall|name: Seq<char>| #[trigger]
            rooms_after.contains_key(name) ==> own_channels(rooms_after[name].senders),
{
    assert forall|name: Seq<char>, id: Seq<char>|
        #![trigger rooms_after[name].senders[id]]
        rooms_after.contains_key(name) && rooms_after[name].senders.contains_key(id) implies {
        ||| id == peer.id && rooms_after[name].senders[id] == peer.sender
        ||| rooms.contains_key(name) && rooms[name].senders.contains_key(id)
            && rooms[name].senders[id] == rooms_after[name].senders[id]
    } by {
    }
    assert forall|a: Seq<char>, b: Seq<char>, one: Seq<char>, other: Seq<char>|
        #![trigger rooms_after[a].senders[one], rooms_after[b].senders[other]]
        rooms_after.contains_key(a) && rooms_after[a].senders.contains_key(one)
            && rooms_after.contains_key(b) && rooms_after[b].senders.contains_key(other)
            && rooms_after[a].senders[one] == rooms_after[b].senders[other] implies one == other by {
        if rooms.contains_key(a) && rooms.contains_key(b) {
            assert(rooms[a].senders[one] == rooms[a].senders[one]);
            assert(rooms[b].senders[other] == rooms[b].senders[other]);
        }
    }
    assert forall|name: Seq<char>| #[trigger] rooms_after.contains_key(name) implies own_channels(
        rooms_after[name].senders,
    ) by {
        assert forall|a: Seq<char>, b: Seq<char>|
            #![trigger rooms_after[name].senders[a], rooms_after[name].senders[b]]
            rooms_after[name].senders.contains_key(a) && rooms_after[name].senders.contains_key(b)
                && rooms_after[name].senders[a] == rooms_after[name].senders[b] implies a == b by {
        }
    }
}

/// A peer that disconnects leaves all users with channels of their own.
pub proof fn disconnecting_keeps_the_channels_apart(
    rooms: Map<Seq<char>, RoomView>,
    peer: PeerView,
    other: PeerView,
)
    requires
        channels_apart(rooms),
    ensures
        channels_apart(after_departure(rooms, peer.rooms.dom(), peer.id)),
        channel_is_own(rooms, other) ==> channel_is_own(
            after_departure(rooms, peer.rooms.dom(), peer.id),
            other,
        ),
{
    let after = after_departure(rooms, peer.rooms.dom(), peer.id);
    assert(nobody_new(rooms, after));
    lemma_channels_stay_apart(rooms, after, other);
}

/// Reading the configuration again leaves all users with channels of their own.
pub proof fn reloading_keeps_the_channels_apart(
    rooms: Map<Seq<char>, RoomView>,
    channels: Seq<ChannelView>,
    other: PeerView,
)
    requires
        channels_apart(rooms),
    ensures
        channels_apart(after_reload(rooms, channels)),
        channel_is_own(rooms, other) ==> channel_is_own(after_reload(rooms, channels), other),
{
    let after = after_reload(rooms, channels);
    assert(nobody_new(rooms, after)) by {
        assert forall|name: Seq<char>| #[trigger] after.contains_key(name) implies (
        if rooms.contains_key(name) {
            after[name].senders == rooms[name].senders
        } else {
            after[name].senders == Map::<Seq<char>, u64>::empty()
        }) by {
            lemma_reloaded(rooms, channels, name);
        }
    }
    lemma_channels_stay_apart(rooms, after, other);
}

/// Everyone in a room was there before, and is reached over the same channel.
spec fn nobody_new(rooms: Map<Seq<char>, RoomView>, after: Map<Seq<char>, RoomView>) -> bool {
    forall|name: Seq<char>, id: Seq<char>|
        #![trigger after[name].senders[id]]
        after.contains_key(name) && after[name].senders.contains_key(id) ==> rooms.contains_key(
            name,
        ) && rooms[name].senders.contains_key(id) && rooms[name].senders[id]
            == after[name].senders[id]
}

proof fn lemma_channels_stay_apart(
    rooms: Map<Seq<char>, RoomView>,
    after: Map<Seq<char>, RoomView>,
    other: PeerView,
)
    requires
        channels_apart(rooms),
        nobody_new(rooms, after),
    ensures
        channels_apart(after),
        channel_is_own(rooms, other) ==> channel_is_own(after, other),
{
    assert forall|a: Seq<char>, b: Seq<char>, one: Seq<char>, two: Seq<char>|
        #![trigger after[a].senders[one], after[b].senders[two]]
        after.contains_key(a) && after[a].senders.contains_key(one) && after.contains_key(b)
            && after[b].senders.contains_key(two) && after[a].senders[one]
            == after[b].senders[two] implies one == two by {
        assert(rooms[a].senders[one] == rooms[b].senders[two]);
    }
}

proof fn lemma_retold_one_by_one(
    walk: Seq<(Seq<char>, u64)>,
    all: Seq<Seq<char>>,
    senders: Map<Seq<char>, u64>,
    room: Seq<char>,
    metadata: MetaDataView,
)
    requires
        keys_of(walk).no_duplicates(),
        own_channels(senders),
        forall|i: int|
            0 <= i < walk.len() ==> senders.contains_key((#[trigger] walk[i]).0)
                && senders[walk[i].0] == walk[i].1,
    ensures
        forall|id: Seq<char>| #[trigger]
            senders.contains_key(id) ==> times_sent(
                retellings(walk, all, room, metadata),
                senders[id],
            ) == (if keys_of(walk).contains(id) {
                1nat
            } else {
                0
            }),
        retellings(walk, all, room, metadata).len() == walk.len(),
        sends(retellings(walk, all, room, metadata)) == walk.len(),
        forall|i: int|
            0 <= i < walk.len() ==> #[trigger] retellings(walk, all, room, metadata)[i]
                == (EffectView::Send {
                to: walk[i].1,
                text: room_info_text(room, metadata, others(all, walk[i].0)),
            }),
    decreases walk.len(),
{
    let keys = keys_of(walk);
    if walk.len() > 0 {
        let before = walk.drop_last();
        let last = walk.last();
        let earlier = keys_of(before);
        assert(keys =~= earlier.push(last.0));
        assert forall|i: int| 0 <= i < before.len() implies senders.contains_key(
            (#[trigger] before[i]).0,
        ) && senders[before[i].0] == before[i].1 by {
            assert(before[i] == walk[i]);
        }
        assert(earlier.no_duplicates()) by {
            assert forall|i: int, j: int|
                0 <= i < before.len() && 0 <= j < before.len() && i != j implies earlier[i]
                != earlier[j] by {
                assert(keys[i] != keys[j]);
            }
        }
        assert(!earlier.contains(last.0)) by {
            if earlier.contains(last.0) {
                let i = choose|i: int| 0 <= i < before.len() && earlier[i] == last.0;
                assert(keys[i] == keys[walk.len() - 1]);
            }
        }
        lemma_retold_one_by_one(before, all, senders, room, metadata);
        let told = retellings(before, all, room, metadata);
        let whole = retellings(walk, all, room, metadata);
        assert(walk[walk.len() - 1] == last);
        assert(whole.drop_last() =~= told);
        assert forall|id: Seq<char>| #[trigger] senders.contains_key(id) implies times_sent(
            whole,
            senders[id],
        ) == (if keys.contains(id) {
            1nat
        } else {
            0
        }) by {
            assert(keys.contains(id) == (earlier.contains(id) || id == last.0)) by {
                if earlier.contains(id) {
                    let i = choose|i: int| 0 <= i < before.len() && earlier[i] == id;
                    assert(keys[i] == id);
                }
                assert(keys[walk.len() - 1] == last.0);
            }
            assert(senders[last.0] == last.1);
        }
        assert forall|i: int| 0 <= i < walk.len() implies #[trigger] whole[i]
            == (EffectView::Send {
            to: walk[i].1,
            text: room_info_text(room, metadata, others(all, walk[i].0)),
        }) by {
            if i < before.len() {
                assert(whole[i] == told[i]);
                assert(walk[i] == before[i]);
            }
        }
    }
}

/// When a room is retold, each of its members is told once, about the room as it is and
/// about all the other members, and nobody else is told anything.
pub proof fn members_are_told_of_a_change(room: RoomView, effects: Seq<EffectView>)
    requires
        own_channels(room.senders),
        room.retold(effects),
    ensures
        forall|id: Seq<char>| #[trigger]
            room.senders.contains_key(id) ==> times_sent(effects, room.senders[id]) == 1,
        sends(effects) == room.senders.len(),
        forall|i: int|
            0 <= i < effects.len() ==> exists|id: Seq<char>, users: Seq<Seq<char>>|
                {
                    &&& room.senders.contains_key(id)
                    &&& #[trigger] enumerates(users, room.senders.dom().remove(id))
                    &&& #[trigger] effects[i] == (EffectView::Send {
                        to: room.senders[id],
                        text: room_info_text(room.name, room.metadata, users),
                    })
                },
{
    let walk = choose|walk: Seq<(Seq<char>, u64)>| #[trigger]
        walks(walk, room.senders) && effects == retellings(
            walk,
            keys_of(walk),
            room.name,
            room.metadata,
        );
    let keys = keys_of(walk);
    crate::directory::lemma_walk_len(walk, room.senders);
    assert forall|id: Seq<char>| keys.contains(id) == room.senders.contains_key(id) by {
        assert(keys.to_set().contains(id) == keys.contains(id));
    }
    assert forall|i: int| 0 <= i < walk.len() implies room.senders.contains_key(
        (#[trigger] walk[i]).0,
    ) && room.senders[walk[i].0] == walk[i].1 by {
        assert(keys[i] == walk[i].0);
        assert(keys.contains(walk[i].0));
    }
    lemma_retold_one_by_one(walk, keys, room.senders, room.name, room.metadata);
    assert forall|i: int| 0 <= i < effects.len() implies exists|
        id: Seq<char>,
        users: Seq<Seq<char>>,
    |
        {
            &&& room.senders.contains_key(id)
            &&& #[trigger] enumerates(users, room.senders.dom().remove(id))
            &&& #[trigger] effects[i] == (EffectView::Send {
                to: room.senders[id],
                text: room_info_text(room.name, room.metadata, users),
            })
        } by {
        let id = walk[i].0;
        members_are_told_of_the_others(keys, id);
        assert(enumerates(others(keys, id), room.senders.dom().remove(id)));
        assert(effects[i] == retellings(walk, keys, room.name, room.metadata)[i]);
    }
}

/// The parts one after the other.
pub open spec fn in_turn(parts: Seq<Seq<EffectView>>) -> Seq<EffectView>
    decreases parts.len(),
{
    if parts.len() == 0 {
        seq![]
    } else {
        in_turn(parts.drop_last()) + parts.last()
    }
}

/// The part of a reload that concerns a channel: if that changed its room, the members
/// of the room, as it is after the reload, are retold; else nobody is.
pub open spec fn reload_part(
    rooms: Map<Seq<char>, RoomView>,
    channels: Seq<ChannelView>,
    channel: ChannelView,
    part: Seq<EffectView>,
) -> bool {
    if rooms.contains_key(channel.name) && rooms[channel.name].metadata != channel.metadata {
        after_reload(rooms, channels)[channel.name].retold(part)
    } else {
        part.len() == 0
    }
}

/// Reading the configuration again retells each room that it changes once, and no
/// other. No two channels have one name.
pub proof fn reloading_retells_changed_rooms_once(
    rooms: Map<Seq<char>, RoomView>,
    channels: Seq<ChannelView>,
    effects: Seq<EffectView>,
) -> (parts: Seq<Seq<EffectView>>)
    requires
        distinct_names(channels),
        reload_effects(rooms, channels, effects),
    ensures
        parts.len() == channels.len(),
        effects == in_turn(parts),
        forall|i: int|
            0 <= i < channels.len() ==> reload_part(
                rooms,
                channels,
                #[trigger] channels[i],
                parts[i],
            ),
    decreases channels.len(),
{
    if channels.len() == 0 {
        seq![]
    } else {
        let earlier = channels.drop_last();
        let channel = channels.last();
        let now = after_reload(rooms, earlier);
        let (before, last) = choose|before: Seq<EffectView>, last: Seq<EffectView>|
            {
                &&& effects == #[trigger] (before + last)
                &&& reload_effects(rooms, earlier, before)
                &&& channel_effects(now, channel, last)
            };
        assert forall|i: int, j: int| 0 <= i < j < earlier.len() implies (
        #[trigger] earlier[i]).name != (#[trigger] earlier[j]).name by {
            assert(channels[i].name != channels[j].name);
        }
        let parts = reloading_retells_changed_rooms_once(rooms, earlier, before);
        let all = parts.push(last);
        assert(all.drop_last() =~= parts);
        lemma_reloaded(rooms, earlier, channel.name);
        lemma_channel_named(earlier, channel.name);
        let at = channel_named(earlier, channel.name);
        if at >= 0 {
            assert(channels[at].name != channels[channels.len() - 1].name);
        }
        assert forall|i: int| 0 <= i < channels.len() implies reload_part(
            rooms,
            channels,
            #[trigger] channels[i],
            all[i],
        ) by {
            if i < earlier.len() {
                assert(earlier[i] == channels[i]);
                assert(reload_part(rooms, earlier, earlier[i], parts[i]));
                assert(channels[i].name != channels[channels.len() - 1].name);
                assert(after_reload(rooms, channels)[channels[i].name] == now[channels[i].name]);
            }
        }
        all
    }
}

/// Without a proxy nothing is read from what a proxy would say, and it counts for
/// nothing: requests that differ in nothing else have the same outcome. Behind a proxy
/// the client is whom the proxy names first, if that can be read as an address, and
/// else the one at the other end. `read` stands for how an address is read.
pub proof fn proxies_count_only_where_there_is_one(
    before: GlobalState,
    request: RequestView,
    header: Option<Seq<u8>>,
    other: Option<Seq<u8>>,
    read: spec_fn(Seq<char>) -> Option<Seq<char>>,
)
    ensures
        forwarded_text(false, header) is None,
        ({
            let behind_proxy = before.config.behind_proxy;
            let sent = request.via(forwarded_text(behind_proxy, header), read);
            &&& !behind_proxy ==> sent.client_ip(behind_proxy) == request.remote_ip
            &&& !behind_proxy ==> request_outcome(before, sent) == request_outcome(
                before,
                request.via(forwarded_text(behind_proxy, other), read),
            )
            &&& sent.client_ip(behind_proxy) == (match forwarded_text(behind_proxy, header) {
                Some(text) => match read(text) {
                    Some(ip) => ip,
                    None => request.remote_ip,
                },
                None => request.remote_ip,
            })
        }),
{
}

/// Nor does it count without a proxy what address a request was handed over with.
pub proof fn forwarded_addresses_need_a_proxy(
    before: GlobalState,
    request: RequestView,
    forwarded_ip: Option<Seq<char>>,
)
    requires
        !before.config.behind_proxy,
    ensures
        request_outcome(before, request) == request_outcome(
            before,
            RequestView { forwarded_ip, ..request },
        ),
{
}

/// Whoever is let in is counted for its own address, once, and for no other.
pub proof fn admissions_count_one_address(
    before: GlobalState,
    after: GlobalState,
    request: RequestView,
    other: Seq<char>,
)
    requires
        request_outcome(before, request) is Ok,
        admitted(before, after, request_outcome(before, request)),
        other != request.client_ip(before.config.behind_proxy),
    ensures
        ({
            let ip = request.client_ip(before.config.behind_proxy);
            let count = connections_of(before.clients_view(), ip);
            connections_of(after.clients_view(), ip) == (if request_outcome(
                before,
                request,
            )->Ok_0.admission is Some {
                count + 1
            } else {
                count
            })
        }),
        connections_of(after.clients_view(), other) == connections_of(before.clients_view(), other),
{
}

/// Every kind is found by its name, and a name that no kind has stands for one that
/// clients may not send.
pub proof fn kinds_are_found_by_name(kind: PayloadKind, request: PayloadView, name: Seq<char>)
    ensures
        kind_named(kind_name(kind)) == kind,
        (forall|other: PayloadKind| kind_name(other) != name) ==> (PayloadView {
            kind: kind_named(name),
            ..request
        }).invalid(),
{
    reveal_strlit("error");
    reveal_strlit("join");
    reveal_strlit("leave");
    reveal_strlit("message");
    reveal_strlit("quit");
    reveal_strlit("success");
    assert("join"@[0] == 'j' && "leave"@[0] == 'l' && "message"@[0] == 'm' && "quit"@[0] == 'q');
    assert("success"@[0] == 's' && "error"@[0] == 'e');
    if forall|other: PayloadKind| kind_name(other) != name {
        assert(kind_name(PayloadKind::Join) != name);
        assert(kind_name(PayloadKind::Leave) != name);
        assert(kind_name(PayloadKind::Message) != name);
        assert(kind_name(PayloadKind::Quit) != name);
    }
}

/// Different ratelimits have different texts.
pub proof fn ratelimits_are_told_apart(one: Ratelimit, other: Ratelimit)
    requires
        ratelimit_text(one) == ratelimit_text(other),
    ensures
        one == other,
{
    let nothing = Seq::<char>::empty();
    assert(nothing + ratelimit_text(one) =~= ratelimit_text(one));
    assert(nothing + ratelimit_text(other) =~= ratelimit_text(other));
    lemma_ratelimit_ends(nothing, one, nothing, other);
}

/// An address that connects gets buckets that no other address has, those of addresses
/// that are connected stay theirs, and no member loses a bucket of its own.
pub proof fn connecting_keeps_the_buckets_apart(
    clients: Map<Seq<char>, ClientView>,
    config: Config,
    ip: Seq<char>,
    made: nat,
    member: PeerView,
)
    requires
        clients_apart(clients, made),
    ensures
        clients_apart(
            after_connect(clients, config, ip, made),
            made_after_connect(clients, ip, made),
        ),
        !clients.contains_key(ip) ==> forall|other: Seq<char>| #[trigger]
            clients.contains_key(other) ==> after_connect(
                clients,
                config,
                ip,
                made,
            )[ip].ratelimiters.apart_from(clients[other].ratelimiters),
        forall|other: Seq<char>| #[trigger]
            clients.contains_key(other) ==> after_connect(
                clients,
                config,
                ip,
                made,
            )[other].ratelimiters == clients[other].ratelimiters,
        member_buckets_apart(clients, made, member) ==> member_buckets_apart(
            after_connect(clients, config, ip, made),
            made_after_connect(clients, ip, made),
            member,
        ),
{
}

/// When a connection is closed, everyone who stays still has buckets of their own.
pub proof fn closing_keeps_the_buckets_apart(
    clients: Map<Seq<char>, ClientView>,
    ip: Seq<char>,
    made: nat,
    member: PeerView,
)
    requires
        clients_apart(clients, made),
        clients.contains_key(ip),
    ensures
        clients_apart(after_disconnect(clients, ip), made),
        member_buckets_apart(clients, made, member) ==> member_buckets_apart(
            after_disconnect(clients, ip),
            made,
            member,
        ),
{
}

/// Whatever clients send, every member has buckets of its own in every room afterwards:
/// they are no other room's, no other member's and no address's.
pub proof fn payloads_keep_the_buckets_apart(
    rooms: Map<Seq<char>, RoomView>,
    clients: Map<Seq<char>, ClientView>,
    made: nat,
    peer: PeerView,
    payload: Option<PayloadView>,
    size: int,
    handled: HandledView,
    peer_after: PeerView,
    rooms_after: Map<Seq<char>, RoomView>,
    other: PeerView,
)
    requires
        clients_apart(clients, made),
        member_buckets_apart(clients, made, peer),
        peer.payload_handled(rooms, made, payload, size, handled, peer_after, rooms_after),
    ensures
        clients_apart(clients, peer.made_after(rooms, payload, made)),
        member_buckets_apart(clients, peer.made_after(rooms, payload, made), peer_after),
        member_buckets_apart(clients, made, other) ==> member_buckets_apart(
            clients,
            peer.made_after(rooms, payload, made),
            other,
        ),
        member_buckets_apart(clients, made, other) && peers_apart(peer, other) ==> peers_apart(
            peer_after,
            other,
        ),
{
}

} // verus!
