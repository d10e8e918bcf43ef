//! What each operation of the server does, in terms of what goes in and what comes out.
use crate::config::{ratelimit_text, Config, PublicChannel, Ratelimit};
use crate::constants;
use crate::directory::{enumerates, keys_of, walks};
use crate::effect::{shown, Effect, EffectView};
use crate::endpoint::{
    admitted, asks_for_many_threads, base64_text, before_comma, checked_endpoint_outcome,
    checked_outcome, forwarded_text, header_text, is_password_hash, is_text_byte, password_fits,
    request_outcome, sha1_digest, too_many_threads, trim_end, trim_start, versioned_outcome,
    Admission, AdmissionView, Body, Fault, HttpRequest, Reply, ReplyView, RequestView,
};
use crate::json::is_digit;
use crate::laws::{
    lemma_counts_are_not_sent, lemma_sent_one_by_one, lemma_times_sent_together,
    channel_is_own, channel_named, channels_apart, members_are_told_who_comes,
    members_are_told_who_leaves, messages_reach_the_others, own_channels, times_sent, well_named,
};
use crate::model::{Payload, PayloadKind, PayloadView};
use crate::peer::{
    after_departure, departures, linked, new_peer, Handled, HandledView, Next, NextView, Peer,
    PeerView,
};
use crate::ratelimit::{charges, limits_for, BucketView, Charge, RatelimitersView};
use crate::readback::{announcements_tell_rooms_apart, greetings_say_the_limits, lists, reads_as};
use crate::room::{
    announcement_text, deliveries, others, retellings, room_info_text, MetaDataView, RoomMetaData,
    RoomView,
};
use crate::state::{
    after_connect, after_disconnect, after_join, after_leave, after_reload, agent_effects,
    channels_said, configured_rooms, connections_of, is_public, public_rooms, room_before_join,
    ChannelView, ClientState, ClientView, GlobalState,
};
use crate::text::{decimal, json_string, strings_text};
use vstd::prelude::*;
use vstd::utf8::encode_utf8;

verus! {

/// A message costs one token of the frequency bucket, where there is one, and as many
/// tokens of the size bucket as it has bytes, where there is one; the former is paid
/// first, and nothing else is paid.
pub proof fn messages_cost_their_size(limits: RatelimitersView, size: int)
    requires
        0 <= size < 0x1_0000_0000,
    ensures
        forall|n: u32|
            charges(limits, size).contains(Charge::Size(n)) == (limits.size is Some && n == size),
        charges(limits, size).contains(Charge::Frequency) == limits.freq is Some,
        limits.freq is Some ==> charges(limits, size)[0] == Charge::Frequency,
        charges(limits, size).len() == (if limits.freq is Some {
            1int
        } else {
            0
        }) + (if limits.size is Some {
            1int
        } else {
            0
        }),
{
    let due = charges(limits, size);
    if limits.freq is Some {
        assert(due[0] == Charge::Frequency);
    }
    if limits.size is Some {
        assert(due.last() == Charge::Size(size as u32));
        assert forall|n: u32| due.contains(Charge::Size(n)) == (n == size) by {
            if n == size {
                assert(due[due.len() - 1] == Charge::Size(n));
            }
        }
    }
}

/// Sizes that do not fit in 32 bits count without what does not fit.
pub proof fn sizes_count_in_32_bits(limits: RatelimitersView, size: int, times: nat)
    requires
        0 <= size < 0x1_0000_0000,
    ensures
        charges(limits, size + times * 0x1_0000_0000) == charges(limits, size),
{
    assert((size + times * 0x1_0000_0000) % 0x1_0000_0000 == size);
}

/// A larger message never costs less than a smaller one.
pub proof fn larger_messages_never_cost_less(
    limits: RatelimitersView,
    small: int,
    large: int,
    less: u32,
    more: u32,
)
    requires
        0 <= small <= large < 0x1_0000_0000,
        charges(limits, small).contains(Charge::Size(less)),
        charges(limits, large).contains(Charge::Size(more)),
    ensures
        less <= more,
{
    messages_cost_their_size(limits, small);
    messages_cost_their_size(limits, large);
}

/// Administrators owe nothing before their payloads are looked at, and everyone else
/// owes the cost of the payload to the buckets of their address.
pub proof fn payloads_are_paid_for(peer: PeerView, size: int)
    ensures
        peer.is_admin ==> peer.admission_charges(size).len() == 0,
        !peer.is_admin ==> peer.admission_charges(size) == charges(peer.ratelimiters, size),
        !peer.is_admin && 0 <= size < 0x1_0000_0000 ==> forall|n: u32|
            peer.admission_charges(size).contains(Charge::Size(n)) == (peer.ratelimiters.size is Some
                && n == size),
        !peer.is_admin && 0 <= size < 0x1_0000_0000 ==> peer.admission_charges(size).contains(
            Charge::Frequency,
        ) == peer.ratelimiters.freq is Some,
{
    if 0 <= size < 0x1_0000_0000 {
        messages_cost_their_size(peer.ratelimiters, size);
    }
}

/// There is a bucket if and only if there is a ratelimit, and then it holds at most the
/// ratelimit's maximum, starts with its tokens, and gains its amount every so many
/// milliseconds.
pub open spec fn limited_to(bucket: Option<BucketView>, limit: Option<Ratelimit>) -> bool {
    &&& bucket is Some == limit is Some
    &&& limit matches Some(l) ==> bucket->0.parameters == (
        l.max_tokens,
        l.tokens,
        l.refill_amount,
        l.refill_millis,
    )
}

/// Ratelimiters are made with the numbers of the ratelimits, and there is one only where
/// there is a ratelimit.
pub proof fn buckets_are_made_as_configured(
    freq: Option<Ratelimit>,
    size: Option<Ratelimit>,
    made: nat,
)
    ensures
        limited_to(limits_for(freq, size, made).freq, freq),
        limited_to(limits_for(freq, size, made).size, size),
        freq is Some && size is Some ==> limits_for(freq, size, made).freq->0.number
            != limits_for(freq, size, made).size->0.number,
        freq matches Some(limit) ==> limit.parameters() == (
            limit.max_tokens,
            limit.tokens,
            limit.refill_amount,
            limit.refill_millis,
        ),
{
}

/// The channels of the members of a room that may not be there.
pub open spec fn members_of(
    rooms: Map<Seq<char>, RoomView>,
    room: Seq<char>,
) -> Map<Seq<char>, u64> {
    if rooms.contains_key(room) {
        rooms[room].senders
    } else {
        Map::empty()
    }
}

/// Letting a user in or out changes the members of that room by that user, and nothing
/// else, but for rooms that are made or given up by it.
pub proof fn rooms_change_by_one_member(
    rooms: Map<Seq<char>, RoomView>,
    room: Seq<char>,
    id: Seq<char>,
    sender: u64,
)
    ensures
        ({
            let joined = after_join(rooms, room, id, sender);
            let left = after_leave(rooms, room, id);
            let stays = rooms[room].senders.remove(id);
            &&& joined.contains_key(room)
            &&& joined.remove(room) == rooms.remove(room)
            &&& joined[room].senders == members_of(rooms, room).insert(id, sender)
            &&& rooms.contains_key(room) ==> joined[room].name == rooms[room].name
                && joined[room].public == rooms[room].public && joined[room].metadata
                == rooms[room].metadata && room_before_join(rooms, room) == rooms[room]
            &&& !rooms.contains_key(room) ==> joined[room].name == room && !joined[room].public
                && joined[room].metadata == (MetaDataView {
                read_only: false,
                extra_info: None,
                msg_freq_ratelimit: None,
                msg_size_ratelimit: None,
            }) && room_before_join(rooms, room).senders == Map::<Seq<char>, u64>::empty()
                && room_before_join(rooms, room).name == room
            &&& left.remove(room) == rooms.remove(room)
            &&& left.contains_key(room) == (rooms[room].public || rooms[room].name.len() < 32
                || stays != Map::<Seq<char>, u64>::empty())
            &&& left.contains_key(room) ==> left[room] == (RoomView {
                senders: stays,
                ..rooms[room]
            })
        }),
{
    assert(after_join(rooms, room, id, sender).remove(room) =~= rooms.remove(room));
    assert(after_leave(rooms, room, id).remove(room) =~= rooms.remove(room));
}

/// One who is not in a room may join it if it is there, whoever made it, or if its name
/// has at least 32 characters, and not otherwise. After that the newcomer is a member
/// beside those who were there, and nothing else about the rooms is different; a room
/// that was not there is a plain one. The peer has the ratelimiters of the room.
pub proof fn joining_makes_a_member(
    rooms: Map<Seq<char>, RoomView>,
    made: nat,
    peer: PeerView,
    request: PayloadView,
    effects: Seq<EffectView>,
    peer_after: PeerView,
    rooms_after: Map<Seq<char>, RoomView>,
)
    requires
        linked(rooms, peer),
        well_named(rooms),
        peer.join_handled(rooms, made, request, effects, peer_after, rooms_after),
    ensures
        ({
            let room = request.room;
            let possible = rooms.contains_key(room) || room.len() >= 32;
            let wanted = !peer.rooms.contains_key(room);
            let now = rooms_after[room];
            &&& peer_after == (PeerView { rooms: peer_after.rooms, ..peer })
            &&& !(possible && wanted) ==> {
                &&& rooms_after == rooms
                &&& peer_after.rooms == peer.rooms
                &&& effects == seq![
                    EffectView::Send {
                        to: peer.sender,
                        text: (PayloadView {
                            kind: PayloadKind::Error,
                            room,
                            user: seq![],
                            id: request.id,
                            body: Some(
                                if possible {
                                    constants::INVALID_ROOM_MSG@
                                } else {
                                    constants::ROOM_NAME_TOO_SHORT@
                                },
                            ),
                        }).text(),
                    },
                ]
            }
            &&& possible && wanted ==> {
                &&& rooms_after.contains_key(room)
                &&& now.senders == members_of(rooms, room).insert(peer.id, peer.sender)
                &&& now.name == room
                &&& now.public == (rooms.contains_key(room) && rooms[room].public)
                &&& rooms.contains_key(room) ==> now.metadata == rooms[room].metadata
                &&& !rooms.contains_key(room) ==> now.metadata == (MetaDataView {
                    read_only: false,
                    extra_info: None,
                    msg_freq_ratelimit: None,
                    msg_size_ratelimit: None,
                })
                &&& rooms_after.remove(room) == rooms.remove(room)
                &&& peer_after.rooms.contains_key(room)
                &&& peer_after.rooms.remove(room) == peer.rooms
                &&& limited_to(peer_after.rooms[room].freq, now.metadata.msg_freq_ratelimit)
                &&& limited_to(peer_after.rooms[room].size, now.metadata.msg_size_ratelimit)
            }
        }),
{
    let room = request.room;
    if (rooms.contains_key(room) || room.len() >= 32) && !peer.rooms.contains_key(room) {
        assert(rooms_after.remove(room) =~= rooms.remove(room));
        assert(peer_after.rooms.remove(room) =~= peer.rooms);
    }
}

/// When a request to join is met, each member so far is told once of the newcomer, the
/// room is counted, and the newcomer is told that it joined, what the room is like, and
/// who was there.
pub proof fn joining_is_told(
    rooms: Map<Seq<char>, RoomView>,
    made: nat,
    peer: PeerView,
    request: PayloadView,
    effects: Seq<EffectView>,
    peer_after: PeerView,
    rooms_after: Map<Seq<char>, RoomView>,
) -> (users: Seq<Seq<char>>)
    requires
        linked(rooms, peer),
        well_named(rooms),
        own_channels(members_of(rooms, request.room)),
        peer.join_handled(rooms, made, request, effects, peer_after, rooms_after),
        rooms.contains_key(request.room) || request.room.len() >= 32,
        !peer.rooms.contains_key(request.room),
    ensures
        enumerates(users, members_of(rooms, request.room).dom()),
        ({
            let before = members_of(rooms, request.room);
            let n = before.len() as int;
            &&& effects.len() == n + 3
            &&& forall|i: int|
                0 <= i < n ==> (#[trigger] effects[i] matches EffectView::Send { text, .. } && text
                    == announcement_text("join"@, request.room, peer.id))
            &&& forall|member: Seq<char>| #[trigger]
                before.contains_key(member) ==> times_sent(effects.take(n), before[member]) == 1
            &&& effects[n] == (EffectView::RoomConnections {
                room: request.room,
                count: before.insert(peer.id, peer.sender).len(),
            })
            &&& effects[n + 1] == (EffectView::Send {
                to: peer.sender,
                text: (PayloadView {
                    kind: PayloadKind::Success,
                    room: request.room,
                    user: seq![],
                    id: request.id,
                    body: Some(constants::ROOM_JOIN_MSG@),
                }).text(),
            })
            &&& effects[n + 2] == (EffectView::Send {
                to: peer.sender,
                text: room_info_text(request.room, rooms_after[request.room].metadata, users),
            })
        }),
{
    let room = room_before_join(rooms, request.room);
    let (welcome, users) = choose|welcome: Seq<EffectView>, users: Seq<Seq<char>>|
        {
            &&& #[trigger] room.welcomes(welcome, peer.id, peer.sender)
            &&& #[trigger] enumerates(users, room.senders.dom())
            &&& effects == welcome + seq![
                peer.sent(request.success(constants::ROOM_JOIN_MSG@)),
                EffectView::Send {
                    to: peer.sender,
                    text: room_info_text(request.room, room.metadata, users),
                },
            ]
        };
    members_are_told_who_comes(room, welcome, peer.id, peer.sender);
    let n = room.senders.len() as int;
    assert(effects.take(n) =~= welcome.drop_last());
    assert forall|i: int| 0 <= i < n implies (#[trigger] effects[i] matches EffectView::Send {
        text,
        ..
    } && text == announcement_text("join"@, request.room, peer.id)) by {
        assert(effects[i] == welcome[i]);
    }
    assert(effects[n] == welcome[n]);
    assert forall|member: Seq<char>| #[trigger] room.senders.contains_key(member) implies times_sent(
        effects.take(n),
        room.senders[member],
    ) == 1 by {
        assert(times_sent(welcome, room.senders[member]) == 1);
    }
    users
}

/// A member that leaves is a member no more, and nothing else about the rooms is
/// different, except that a room nobody is in any more is gone, unless it comes from the
/// configuration. One who is not a member cannot leave.
pub proof fn leaving_unmakes_a_member(
    rooms: Map<Seq<char>, RoomView>,
    peer: PeerView,
    request: PayloadView,
    effects: Seq<EffectView>,
    peer_after: PeerView,
    rooms_after: Map<Seq<char>, RoomView>,
)
    requires
        linked(rooms, peer),
        well_named(rooms),
        peer.leave_handled(rooms, request, effects, peer_after, rooms_after),
    ensures
        ({
            let room = request.room;
            let left = rooms[room].senders.remove(peer.id);
            &&& peer_after == (PeerView { rooms: peer_after.rooms, ..peer })
            &&& peer_after.rooms == peer.rooms.remove(room)
            &&& !peer.rooms.contains_key(room) ==> rooms_after == rooms && effects == seq![
                EffectView::Send {
                    to: peer.sender,
                    text: (PayloadView {
                        kind: PayloadKind::Error,
                        room,
                        user: seq![],
                        id: request.id,
                        body: Some(constants::INVALID_ROOM_MSG@),
                    }).text(),
                },
            ]
            &&& peer.rooms.contains_key(room) ==> {
                &&& rooms_after.remove(room) == rooms.remove(room)
                &&& rooms_after.contains_key(room) == (rooms[room].public || room.len() < 32 || left
                    != Map::<Seq<char>, u64>::empty())
                &&& rooms_after.contains_key(room) ==> rooms_after[room] == (RoomView {
                    senders: left,
                    ..rooms[room]
                })
            }
        }),
{
    let room = request.room;
    if peer.rooms.contains_key(room) {
        assert(rooms_after.remove(room) =~= rooms.remove(room));
    } else {
        assert(peer.rooms.remove(room) =~= peer.rooms);
    }
}

/// When a request to leave is met, each member that stays is told once who left, the
/// room is counted, and the one who left is told so.
pub proof fn leaving_is_told(
    rooms: Map<Seq<char>, RoomView>,
    peer: PeerView,
    request: PayloadView,
    effects: Seq<EffectView>,
    peer_after: PeerView,
    rooms_after: Map<Seq<char>, RoomView>,
)
    requires
        linked(rooms, peer),
        well_named(rooms),
        own_channels(rooms[request.room].senders),
        peer.leave_handled(rooms, request, effects, peer_after, rooms_after),
        peer.rooms.contains_key(request.room),
    ensures
        ({
            let left = rooms[request.room].senders.remove(peer.id);
            let n = left.len() as int;
            &&& effects.len() == n + 2
            &&& forall|i: int|
                0 <= i < n ==> (#[trigger] effects[i] matches EffectView::Send { text, .. } && text
                    == announcement_text("leave"@, request.room, peer.id))
            &&& forall|member: Seq<char>| #[trigger]
                left.contains_key(member) ==> times_sent(effects.take(n), left[member]) == 1
            &&& effects[n] == (EffectView::RoomConnections { room: request.room, count: n as nat })
            &&& effects[n + 1] == (EffectView::Send {
                to: peer.sender,
                text: (PayloadView {
                    kind: PayloadKind::Success,
                    room: request.room,
                    user: seq![],
                    id: request.id,
                    body: Some(constants::ROOM_LEAVE_MSG@),
                }).text(),
            })
        }),
{
    let room = rooms[request.room];
    let left = room.senders.remove(peer.id);
    let farewell = choose|farewell: Seq<EffectView>|
        {
            &&& #[trigger] room.dismisses(farewell, peer.id)
            &&& effects == farewell.push(peer.sent(request.success(constants::ROOM_LEAVE_MSG@)))
        };
    members_are_told_who_leaves(room, farewell, peer.id);
    let n = left.len() as int;
    assert(effects.take(n) =~= farewell.drop_last());
    assert forall|i: int| 0 <= i < n implies (#[trigger] effects[i] matches EffectView::Send {
        text,
        ..
    } && text == announcement_text("leave"@, request.room, peer.id)) by {
        assert(effects[i] == farewell[i]);
    }
    assert(effects[n] == farewell[n]);
    assert forall|member: Seq<char>| #[trigger] left.contains_key(member) implies times_sent(
        effects.take(n),
        left[member],
    ) == 1 by {
        assert(room.senders.contains_key(member) && member != peer.id);
        assert(times_sent(farewell, room.senders[member]) == 1);
    }
}

/// A message in a room that its author is not in, or may not write in, is refused. One of
/// an administrator goes at once to each of the other members, and to nobody else; one of
/// another member waits until its cost is paid to the buckets that the member has in the
/// room.
pub proof fn messages_are_passed_on(
    rooms: Map<Seq<char>, RoomView>,
    peer: PeerView,
    message: PayloadView,
    size: int,
    handled: HandledView,
)
    requires
        linked(rooms, peer),
        own_channels(rooms[message.room].senders),
        peer.message_handled(rooms, message, size, handled),
    ensures
        ({
            let room = message.room;
            let members = rooms[room].senders;
            let effects = handled.effects;
            let limits = peer.rooms[room];
            let member = peer.rooms.contains_key(room);
            let allowed = peer.is_admin || !rooms[room].metadata.read_only;
            &&& !(member && allowed) ==> {
                &&& handled.next == NextView::Continue
                &&& effects == seq![
                    EffectView::Send {
                        to: peer.sender,
                        text: (PayloadView {
                            kind: PayloadKind::Error,
                            room,
                            user: seq![],
                            id: message.id,
                            body: Some(
                                if member {
                                    constants::ROOM_READ_ONLY@
                                } else {
                                    constants::INVALID_ROOM_MSG@
                                },
                            ),
                        }).text(),
                    },
                ]
            }
            &&& member && peer.is_admin ==> {
                &&& handled.next == NextView::Continue
                &&& effects.len() == members.len() + 1
                &&& effects[0] == EffectView::MessageReceived
                &&& effects[1] == (EffectView::MessagesSent { count: (members.len() - 1) as nat })
                &&& forall|i: int|
                    2 <= i < effects.len() ==> (#[trigger] effects[i] matches EffectView::Send {
                        text,
                        ..
                    } && text == message.text())
                &&& forall|id: Seq<char>| #[trigger]
                    members.contains_key(id) ==> times_sent(effects, members[id]) == (if id
                        == peer.id {
                        0nat
                    } else {
                        1
                    })
            }
            &&& member && allowed && !peer.is_admin ==> {
                &&& effects.len() == 0
                &&& handled.next matches NextView::Broadcast { room: to, text, charges: due } && {
                    &&& to == room
                    &&& text == message.text()
                    &&& due == charges(limits, size)
                    &&& 0 <= size < 0x1_0000_0000 ==> forall|n: u32|
                        due.contains(Charge::Size(n)) == (limits.size is Some && n == size)
                    &&& 0 <= size < 0x1_0000_0000 ==> due.contains(Charge::Frequency)
                        == limits.freq is Some
                }
            }
        }),
{
    if peer.rooms.contains_key(message.room) {
        if peer.is_admin {
            messages_reach_the_others(
                rooms[message.room],
                handled.effects,
                message.text(),
                peer.id,
            );
            assert forall|i: int| 2 <= i < handled.effects.len() implies (
            #[trigger] handled.effects[i] matches EffectView::Send { text, .. } && text
                == message.text()) by {
                assert(handled.effects[i] is Send);
            }
        } else if !rooms[message.room].metadata.read_only && 0 <= size < 0x1_0000_0000 {
            messages_cost_their_size(peer.rooms[message.room], size);
        }
    }
}

/// What a payload does goes by its kind. A message is handled as one of the peer that sent
/// it, whoever it names. Payloads without what they need, and answers, are refused.
pub proof fn payloads_go_by_their_kind(
    rooms: Map<Seq<char>, RoomView>,
    made: nat,
    peer: PeerView,
    request: PayloadView,
    size: int,
    handled: HandledView,
    peer_after: PeerView,
    rooms_after: Map<Seq<char>, RoomView>,
)
    requires
        peer.payload_handled(rooms, made, Some(request), size, handled, peer_after, rooms_after),
    ensures
        request.kind == PayloadKind::Join && request.room.len() > 0 ==> peer.join_handled(
            rooms,
            made,
            request,
            handled.effects,
            peer_after,
            rooms_after,
        ) && handled.next == NextView::Continue,
        request.kind == PayloadKind::Leave && request.room.len() > 0 ==> peer.leave_handled(
            rooms,
            request,
            handled.effects,
            peer_after,
            rooms_after,
        ) && handled.next == NextView::Continue,
        request.kind == PayloadKind::Message && request.room.len() > 0 && request.body is Some
            ==> peer.message_handled(
            rooms,
            PayloadView { user: peer.id, ..request },
            size,
            handled,
        ) && peer_after == peer && rooms_after == rooms,
        request.kind == PayloadKind::Error || request.kind == PayloadKind::Success || (request.kind
            != PayloadKind::Quit && request.room.len() == 0) || (request.kind
            == PayloadKind::Message && request.body is None) ==> peer_after == peer && rooms_after
            == rooms && handled.next == NextView::Continue && handled.effects == seq![
            EffectView::Send {
                to: peer.sender,
                text: (PayloadView {
                    kind: PayloadKind::Error,
                    room: request.room,
                    user: seq![],
                    id: request.id,
                    body: Some(constants::INVALID_MSG@),
                }).text(),
            },
        ],
        request.invalid() == (request.kind == PayloadKind::Error || request.kind
            == PayloadKind::Success || (request.kind != PayloadKind::Quit && request.room.len() == 0)
            || (request.kind == PayloadKind::Message && request.body is None)),
{
    assert(request.signed(peer.id) == (PayloadView { user: peer.id, ..request }));
}

/// A text that is broadcast in a room reaches each member once, except for its author,
/// and nobody else. It is counted where it has an author, a member or not.
pub proof fn broadcasts_reach_all_but_the_author(
    room: RoomView,
    effects: Seq<EffectView>,
    text: Seq<char>,
    author: Option<Seq<char>>,
)
    requires
        own_channels(room.senders),
        room.broadcasts(effects, text, author),
    ensures
        ({
            let first = if author is Some {
                2int
            } else {
                0
            };
            let own = if author is Some && room.senders.contains_key(author->0) {
                1int
            } else {
                0
            };
            &&& effects.len() == first + room.senders.len() - own
            &&& author is Some ==> effects[0] == EffectView::MessageReceived && effects[1]
                == (EffectView::MessagesSent { count: (room.senders.len() - 1) as nat })
            &&& forall|i: int|
                first <= i < effects.len() ==> (#[trigger] effects[i] matches EffectView::Send {
                    text: said,
                    ..
                } && said == text)
        }),
        forall|id: Seq<char>| #[trigger]
            room.senders.contains_key(id) ==> times_sent(effects, room.senders[id]) == (if author
                == Some(id) {
                0nat
            } else {
                1
            }),
{
    let walk = choose|walk: Seq<(Seq<char>, u64)>| #[trigger]
        walks(walk, room.senders) && effects == room.broadcast_over(walk, text, author);
    let keys = keys_of(walk);
    let told = deliveries(walk, text, author);
    let counted = effects.take(effects.len() - told.len());
    crate::directory::lemma_walk_len(walk, room.senders);
    assert forall|id: Seq<char>| keys.contains(id) == room.senders.contains_key(id) by {
        assert(keys.to_set().contains(id) == keys.contains(id));
    }
    assert forall|i: int| 0 <= i < walk.len() implies room.senders.contains_key(
        (#[trigger] walk[i]).0,
    ) && room.senders[walk[i].0] == walk[i].1 by {
        assert(keys[i] == walk[i].0);
        assert(keys.contains(walk[i].0));
    }
    lemma_sent_one_by_one(walk, room.senders, text, author);
    assert(effects =~= counted + told);
    assert forall|id: Seq<char>| #[trigger] room.senders.contains_key(id) implies times_sent(
        effects,
        room.senders[id],
    ) == (if author == Some(id) {
        0nat
    } else {
        1
    }) by {
        lemma_times_sent_together(counted, told, room.senders[id]);
        lemma_counts_are_not_sent(counted, room.senders[id]);
        assert(keys.contains(id));
    }
    let first = counted.len() as int;
    assert forall|i: int| first <= i < effects.len() implies (
    #[trigger] effects[i] matches EffectView::Send { text: said, .. } && said == text) by {
        assert(effects[i] == told[i - first]);
    }
}

/// A list is gone through entry by entry: each entry but the author's is sent the text,
/// every user but the one left out is listed, each is told of the room, and each public
/// room is listed.
pub proof fn lists_are_gone_through(
    walk: Seq<(Seq<char>, u64)>,
    entry: (Seq<char>, u64),
    text: Seq<char>,
    author: Option<Seq<char>>,
    names: Seq<Seq<char>>,
    name: Seq<char>,
    user: Seq<char>,
    metadata: MetaDataView,
    rooms: Map<Seq<char>, RoomView>,
)
    ensures
        deliveries(seq![], text, author).len() == 0,
        deliveries(walk.push(entry), text, author) == deliveries(walk, text, author) + (if author
            == Some(entry.0) {
            seq![]
        } else {
            seq![EffectView::Send { to: entry.1, text }]
        }),
        others(seq![], user).len() == 0,
        others(names.push(name), user) == others(names, user) + (if name == user {
            seq![]
        } else {
            seq![name]
        }),
        retellings(seq![], names, name, metadata).len() == 0,
        retellings(walk.push(entry), names, name, metadata) == retellings(
            walk,
            names,
            name,
            metadata,
        ).push(
            EffectView::Send {
                to: entry.1,
                text: room_info_text(name, metadata, others(names, entry.0)),
            },
        ),
        public_rooms(rooms, seq![]).len() == 0,
        public_rooms(rooms, names.push(name)) == public_rooms(rooms, names) + (
        if rooms.contains_key(name) && rooms[name].public {
            seq![name]
        } else {
            seq![]
        }),
{
    assert(walk.push(entry).drop_last() =~= walk);
    assert(names.push(name).drop_last() =~= names);
    assert(deliveries(walk.push(entry), text, author) =~= deliveries(walk, text, author) + (
    if author == Some(entry.0) {
        seq![]
    } else {
        seq![EffectView::Send { to: entry.1, text }]
    }));
    assert(others(names.push(name), user) =~= others(names, user) + (if name == user {
        seq![]
    } else {
        seq![name]
    }));
    assert(public_rooms(rooms, names.push(name)) =~= public_rooms(rooms, names) + (
    if rooms.contains_key(name) && rooms[name].public {
        seq![name]
    } else {
        seq![]
    }));
}

/// Data that is no payload is answered as such, a client that says goodbye is not
/// answered and its connection ends, and neither changes anything. No other payload ends
/// the connection.
pub proof fn other_data_changes_nothing(
    rooms: Map<Seq<char>, RoomView>,
    made: nat,
    peer: PeerView,
    payload: Option<PayloadView>,
    size: int,
    handled: HandledView,
    peer_after: PeerView,
    rooms_after: Map<Seq<char>, RoomView>,
)
    requires
        peer.payload_handled(rooms, made, payload, size, handled, peer_after, rooms_after),
    ensures
        payload is None ==> peer_after == peer && rooms_after == rooms && handled.next
            == NextView::Continue && handled.effects == seq![
            EffectView::Send { to: peer.sender, text: constants::INVALID_JSON_MSG@ },
        ],
        (payload is Some && payload->0.kind == PayloadKind::Quit) ==> peer_after == peer
            && rooms_after == rooms && handled.effects.len() == 0,
        (handled.next == NextView::Quit) == (payload is Some && payload->0.kind
            == PayloadKind::Quit),
{
}

/// After a peer disconnected, the rooms that it was in have the same members but for the
/// peer, all other rooms are what they were, and of the rooms only those are gone that
/// nobody is in any more and that do not come from the configuration.
pub proof fn disconnecting_unmakes_a_member(
    rooms: Map<Seq<char>, RoomView>,
    peer: PeerView,
    name: Seq<char>,
)
    requires
        linked(rooms, peer),
        well_named(rooms),
    ensures
        ({
            let after = after_departure(rooms, peer.rooms.dom(), peer.id);
            let left = rooms[name].senders.remove(peer.id);
            &&& after.contains_key(name) ==> rooms.contains_key(name)
            &&& rooms.contains_key(name) && !peer.rooms.contains_key(name)
                ==> after.contains_key(name) && after[name] == rooms[name]
            &&& peer.rooms.contains_key(name) ==> {
                &&& after.contains_key(name) == (rooms[name].public || name.len() < 32 || left
                    != Map::<Seq<char>, u64>::empty())
                &&& after.contains_key(name) ==> after[name] == (RoomView {
                    senders: left,
                    ..rooms[name]
                })
            }
        }),
{
}

/// How often a text is sent over a channel.
pub open spec fn times_said(effects: Seq<EffectView>, to: u64, text: Seq<char>) -> nat
    decreases effects.len(),
{
    if effects.len() == 0 {
        0
    } else {
        times_said(effects.drop_last(), to, text) + (if effects.last() == (EffectView::Send {
            to,
            text,
        }) {
            1nat
        } else {
            0
        })
    }
}

proof fn lemma_counts_together(a: Seq<EffectView>, b: Seq<EffectView>, to: u64, text: Seq<char>)
    ensures
        times_said(a + b, to, text) == times_said(a, to, text) + times_said(b, to, text),
        times_sent(a + b, to) == times_sent(a, to) + times_sent(b, to),
    decreases b.len(),
{
    if b.len() == 0 {
        assert(a + b =~= a);
    } else {
        lemma_counts_together(a, b.drop_last(), to, text);
        assert((a + b).drop_last() =~= a + b.drop_last());
    }
}

/// Where all that is sent is one text, it is said as often as anything is sent, and no
/// other text is said.
proof fn lemma_one_text(effects: Seq<EffectView>, to: u64, text: Seq<char>, other: Seq<char>)
    requires
        forall|i: int|
            0 <= i < effects.len() ==> ((#[trigger] effects[i]) matches EffectView::Send {
                text: said,
                ..
            } ==> said == text),
    ensures
        times_said(effects, to, text) == times_sent(effects, to),
        other != text ==> times_said(effects, to, other) == 0,
    decreases effects.len(),
{
    if effects.len() > 0 {
        lemma_one_text(effects.drop_last(), to, text, other);
        assert(effects[effects.len() - 1] == effects.last());
    }
}

/// How many of the listed rooms the peer is in.
pub open spec fn shared(order: Seq<Seq<char>>, other: PeerView) -> nat
    decreases order.len(),
{
    if order.len() == 0 {
        0
    } else {
        shared(order.drop_last(), other) + (if other.rooms.contains_key(order.last()) {
            1nat
        } else {
            0
        })
    }
}

proof fn lemma_shared(order: Seq<Seq<char>>, other: PeerView)
    requires
        order.no_duplicates(),
    ensures
        order.to_set().intersect(other.rooms.dom()).finite(),
        shared(order, other) == order.to_set().intersect(other.rooms.dom()).len(),
    decreases order.len(),
{
    vstd::seq_lib::seq_to_set_is_finite(order);
    if order.len() == 0 {
        assert(order.to_set().intersect(other.rooms.dom()) =~= Set::<Seq<char>>::empty());
    } else {
        let before = order.drop_last();
        let last = order.last();
        assert(before.no_duplicates()) by {
            assert forall|i: int, j: int|
                0 <= i < before.len() && 0 <= j < before.len() && i != j implies before[i]
                != before[j] by {
                assert(order[i] != order[j]);
            }
        }
        lemma_shared(before, other);
        assert(order =~= before.push(last));
        before.lemma_push_to_set_commute(last);
        assert(!before.contains(last)) by {
            if before.contains(last) {
                let i = choose|i: int| 0 <= i < before.len() && before[i] == last;
                assert(order[i] == order[order.len() - 1]);
            }
        }
        let were = before.to_set().intersect(other.rooms.dom());
        let are = order.to_set().intersect(other.rooms.dom());
        if other.rooms.contains_key(last) {
            assert(are =~= were.insert(last));
            assert(!were.contains(last));
        } else {
            assert(are =~= were);
        }
    }
}

proof fn lemma_departures_tell(
    rooms: Map<Seq<char>, RoomView>,
    order: Seq<Seq<char>>,
    peer: PeerView,
    effects: Seq<EffectView>,
    other: PeerView,
    room: Seq<char>,
)
    requires
        departures(rooms, order, peer.id, effects),
        order.no_duplicates(),
        forall|i: int| 0 <= i < order.len() ==> rooms.contains_key(#[trigger] order[i]),
        well_named(rooms),
        channels_apart(rooms),
        linked(rooms, other),
        channel_is_own(rooms, other),
        other.id != peer.id,
    ensures
        times_sent(effects, other.sender) == shared(order, other),
        times_said(effects, other.sender, announcement_text("leave"@, room, peer.id)) == (
        if order.contains(room) && other.rooms.contains_key(room) {
            1nat
        } else {
            0
        }),
        order.contains(room) ==> effects.contains(
            EffectView::RoomConnections {
                room,
                count: rooms[room].senders.remove(peer.id).len(),
            },
        ),
    decreases order.len(),
{
    let text = announcement_text("leave"@, room, peer.id);
    let to = other.sender;
    if order.len() > 0 {
        let earlier = order.drop_last();
        let name = order.last();
        let here = rooms[name];
        let (before, last) = choose|before: Seq<EffectView>, last: Seq<EffectView>|
            {
                &&& effects == #[trigger] (before + last)
                &&& departures(rooms, earlier, peer.id, before)
                &&& rooms[name].dismisses(last, peer.id)
            };
        assert(order[order.len() - 1] == name);
        assert(earlier.no_duplicates()) by {
            assert forall|i: int, j: int|
                0 <= i < earlier.len() && 0 <= j < earlier.len() && i != j implies earlier[i]
                != earlier[j] by {
                assert(order[i] != order[j]);
            }
        }
        assert forall|i: int| 0 <= i < earlier.len() implies rooms.contains_key(
            #[trigger] earlier[i],
        ) by {
            assert(earlier[i] == order[i]);
        }
        assert(order.contains(room) == (earlier.contains(room) || room == name)) by {
            if earlier.contains(room) {
                let i = choose|i: int| 0 <= i < earlier.len() && earlier[i] == room;
                assert(order[i] == room);
            }
            if order.contains(room) {
                let i = choose|i: int| 0 <= i < order.len() && order[i] == room;
                if i < earlier.len() {
                    assert(earlier[i] == room);
                }
            }
        }
        assert(!earlier.contains(name)) by {
            if earlier.contains(name) {
                let i = choose|i: int| 0 <= i < earlier.len() && earlier[i] == name;
                assert(order[i] == order[order.len() - 1]);
            }
        }
        lemma_departures_tell(rooms, earlier, peer, before, other, room);
        assert(own_channels(here.senders)) by {
            assert forall|a: Seq<char>, b: Seq<char>|
                #![trigger here.senders[a], here.senders[b]]
                here.senders.contains_key(a) && here.senders.contains_key(b) && here.senders[a]
                    == here.senders[b] implies a == b by {
                assert(rooms[name].senders[a] == rooms[name].senders[b]);
            }
        }
        members_are_told_who_leaves(here, last, peer.id);
        if other.rooms.contains_key(name) {
            assert(here.senders.contains_key(other.id) && here.senders[other.id] == to);
            assert(times_sent(last, to) == 1);
        } else {
            assert(!here.senders.contains_key(other.id));
            assert forall|member: Seq<char>| #[trigger]
                here.senders.contains_key(member) && member != peer.id implies here.senders[member]
                != to by {
                assert(rooms[name].senders[member] == here.senders[member]);
            }
            assert(times_sent(last, to) == 0);
        }
        let here_text = announcement_text("leave"@, name, peer.id);
        assert forall|i: int| 0 <= i < last.len() implies ((
        #[trigger] last[i]) matches EffectView::Send { text: said, .. } ==> said == here_text) by {
            if i == last.len() - 1 {
                assert(last[i] == last.last());
            }
        }
        lemma_one_text(last, to, here_text, text);
        if room != name && text == here_text {
            announcements_tell_rooms_apart("leave"@, room, name, peer.id);
        }
        lemma_counts_together(before, last, to, text);
        if room == name {
            assert(effects.last() == last.last());
            assert(effects[effects.len() - 1] == EffectView::RoomConnections {
                room,
                count: rooms[room].senders.remove(peer.id).len(),
            });
        } else if earlier.contains(room) {
            let counted = EffectView::RoomConnections {
                room,
                count: rooms[room].senders.remove(peer.id).len(),
            };
            let i = choose|i: int| 0 <= i < before.len() && before[i] == counted;
            assert(effects[i] == counted);
        }
    }
}

/// When a peer disconnects, another peer is told once for each room that the two share,
/// be it public or private: in each of them that the peer left it. The rooms and the
/// closed connection are counted.
pub proof fn disconnecting_is_told(
    rooms: Map<Seq<char>, RoomView>,
    peer: PeerView,
    effects: Seq<EffectView>,
    other: PeerView,
    room: Seq<char>,
)
    requires
        linked(rooms, peer),
        well_named(rooms),
        channels_apart(rooms),
        linked(rooms, other),
        channel_is_own(rooms, other),
        other.id != peer.id,
        peer.disconnect_effects(rooms, effects),
    ensures
        times_sent(effects, other.sender) == peer.rooms.dom().intersect(other.rooms.dom()).len(),
        times_said(effects, other.sender, announcement_text("leave"@, room, peer.id)) == (
        if peer.rooms.contains_key(room) && other.rooms.contains_key(room) {
            1nat
        } else {
            0
        }),
        peer.rooms.contains_key(room) ==> effects.contains(
            EffectView::RoomConnections {
                room,
                count: rooms[room].senders.remove(peer.id).len(),
            },
        ),
        effects.contains(EffectView::ConnectionClosed { ip: peer.ip }),
        peer.agent matches Some(agent) ==> effects.last() == (EffectView::AgentDisconnected {
            agent,
        }),
{
    let text = announcement_text("leave"@, room, peer.id);
    let to = other.sender;
    let closed = seq![EffectView::ConnectionClosed { ip: peer.ip }] + agent_effects(
        peer.agent,
        false,
    );
    let (order, farewells) = choose|order: Seq<Seq<char>>, farewells: Seq<EffectView>|
        {
            &&& #[trigger] enumerates(order, peer.rooms.dom())
            &&& #[trigger] departures(rooms, order, peer.id, farewells)
            &&& effects == farewells + closed
        };
    assert forall|i: int| 0 <= i < order.len() implies rooms.contains_key(#[trigger] order[i]) by {
        assert(order.to_set().contains(order[i]));
        assert(peer.rooms.contains_key(order[i]));
    }
    assert(order.contains(room) == order.to_set().contains(room));
    lemma_departures_tell(rooms, order, peer, farewells, other, room);
    lemma_shared(order, other);
    lemma_nothing_sent(closed, to, text);
    lemma_counts_together(farewells, closed, to, text);
    assert(effects[farewells.len() as int] == closed[0]);
    if order.contains(room) {
        let counted = EffectView::RoomConnections {
            room,
            count: rooms[room].senders.remove(peer.id).len(),
        };
        let i = choose|i: int| 0 <= i < farewells.len() && farewells[i] == counted;
        assert(effects[i] == counted);
    }
}

proof fn lemma_nothing_sent(effects: Seq<EffectView>, to: u64, text: Seq<char>)
    requires
        forall|i: int| 0 <= i < effects.len() ==> !((#[trigger] effects[i]) is Send),
    ensures
        times_sent(effects, to) == 0,
        times_said(effects, to, text) == 0,
    decreases effects.len(),
{
    if effects.len() > 0 {
        lemma_nothing_sent(effects.drop_last(), to, text);
        assert(effects[effects.len() - 1] == effects.last());
    }
}

/// A connection counts one more for its address and nothing for others. An address that
/// was not connected gets ratelimiters made as the configuration says.
pub proof fn connections_are_counted(
    clients: Map<Seq<char>, ClientView>,
    config: Config,
    ip: Seq<char>,
    made: nat,
)
    ensures
        ({
            let after = after_connect(clients, config, ip, made);
            &&& after.contains_key(ip)
            &&& after.remove(ip) == clients.remove(ip)
            &&& clients.contains_key(ip) ==> after[ip].connection_count
                == clients[ip].connection_count + 1 && after[ip].ratelimiters
                == clients[ip].ratelimiters
            &&& !clients.contains_key(ip) ==> after[ip].connection_count == 1 && limited_to(
                after[ip].ratelimiters.freq,
                Some(config.msg_freq_ratelimit),
            ) && limited_to(after[ip].ratelimiters.size, Some(config.msg_size_ratelimit))
            &&& clients.contains_key(ip) ==> connections_of(clients, ip)
                == clients[ip].connection_count
            &&& !clients.contains_key(ip) ==> connections_of(clients, ip) == 0
        }),
{
    assert(after_connect(clients, config, ip, made).remove(ip) =~= clients.remove(ip));
}

/// A connection that is closed counts one less for its address and nothing for others.
/// An address without connections is forgotten, and no other.
pub proof fn closed_connections_are_counted(clients: Map<Seq<char>, ClientView>, ip: Seq<char>)
    requires
        clients.contains_key(ip),
        clients[ip].connection_count >= 1,
    ensures
        ({
            let after = after_disconnect(clients, ip);
            &&& after.contains_key(ip) == (clients[ip].connection_count > 1)
            &&& after.contains_key(ip) ==> after[ip].connection_count + 1
                == clients[ip].connection_count && after[ip].ratelimiters
                == clients[ip].ratelimiters
            &&& after.remove(ip) == clients.remove(ip)
        }),
{
    assert(after_disconnect(clients, ip).remove(ip) =~= clients.remove(ip));
}

/// A user agent is counted where it is known, in or out as the connection goes.
pub proof fn agents_are_counted(agent: Option<Seq<char>>)
    ensures
        agent is None ==> agent_effects(agent, true).len() == 0 && agent_effects(agent, false).len()
            == 0,
        agent matches Some(name) ==> agent_effects(agent, true) == seq![
            EffectView::AgentConnected { agent: name },
        ] && agent_effects(agent, false) == seq![EffectView::AgentDisconnected { agent: name }],
{
}

/// A peer that has just connected is what it was let in as, is in no room, and draws on
/// the buckets of its address.
pub proof fn new_peers_are_what_they_were_let_in_as(
    clients: Map<Seq<char>, ClientView>,
    id: Seq<char>,
    ip: Seq<char>,
    agent: Option<Seq<char>>,
    sender: u64,
    is_admin: bool,
)
    ensures
        ({
            let peer = new_peer(clients, id, ip, agent, sender, is_admin);
            &&& peer.id == id
            &&& peer.ip == ip
            &&& peer.agent == agent
            &&& peer.sender == sender
            &&& peer.is_admin == is_admin
            &&& peer.rooms == Map::<Seq<char>, RatelimitersView>::empty()
            &&& peer.ratelimiters == clients[ip].ratelimiters
        }),
{
}

/// A peer is greeted with one text, which lists the rooms of the configuration, each once
/// and no others, and the limits.
pub proof fn peers_are_greeted(peer: PeerView, state: GlobalState, effects: Seq<EffectView>) -> (told: (
    Seq<char>,
    Seq<Seq<char>>,
    Seq<char>,
))
    requires
        peer.greeted(state, effects),
    ensures
        effects == seq![EffectView::Send { to: peer.sender, text: told.0 }],
        reads_as(
            told.0,
            seq![
                ("type"@, json_string("hello"@)),
                ("public_rooms"@, strings_text(told.1)),
                ("config"@, told.2),
            ],
        ),
        lists(strings_text(told.1), told.1),
        told.1.no_duplicates(),
        forall|name: Seq<char>| #[trigger]
            told.1.contains(name) == (state.rooms_view().contains_key(name)
                && state.rooms_view()[name].public),
        reads_as(
            told.2,
            seq![
                ("connections_per_ip"@, decimal(state.config.connections_per_ip as nat)),
                ("msg_freq_ratelimit"@, ratelimit_text(state.config.msg_freq_ratelimit)),
                ("msg_size_ratelimit"@, ratelimit_text(state.config.msg_size_ratelimit)),
                ("max_message_size"@, decimal(state.config.max_message_size as nat)),
            ],
        ),
{
    let rooms = state.rooms_view();
    let text = choose|text: Seq<char>|
        {
            &&& #[trigger] state.greets(text)
            &&& effects == seq![EffectView::Send { to: peer.sender, text }]
        };
    let walk = choose|walk: Seq<Seq<char>>| #[trigger]
        enumerates(walk, rooms.dom()) && text == crate::state::greeting_text(
            rooms,
            walk,
            state.config,
        );
    crate::laws::greetings_list_the_public_rooms(rooms, walk);
    let limits = greetings_say_the_limits(rooms, walk, state.config);
    assert forall|name: Seq<char>| #[trigger]
        public_rooms(rooms, walk).contains(name) == (rooms.contains_key(name)
            && rooms[name].public) by {
        assert(public_rooms(rooms, walk).contains(name) == is_public(rooms, name));
    }
    (text, public_rooms(rooms, walk), limits)
}

/// After the configuration was read, the room of each channel is there and is what the
/// last channel of its name says, with the members that it had; all other rooms are what
/// they were. The rooms at the start are made in the same way, without members.
pub proof fn channels_set_what_rooms_are_like(
    rooms: Map<Seq<char>, RoomView>,
    channels: Seq<ChannelView>,
    name: Seq<char>,
)
    ensures
        ({
            let at = channel_named(channels, name);
            let after = after_reload(rooms, channels);
            &&& -1 <= at < channels.len()
            &&& at >= 0 ==> channels[at].name == name && after.contains_key(name)
                && after[name].metadata == channels[at].metadata && after[name].public
                && after[name].senders == members_of(rooms, name) && after[name].name == (
            if rooms.contains_key(name) {
                rooms[name].name
            } else {
                name
            })
            &&& forall|i: int| at < i < channels.len() ==> (#[trigger] channels[i]).name != name
            &&& at < 0 ==> after.contains_key(name) == rooms.contains_key(name)
            &&& at < 0 && rooms.contains_key(name) ==> after[name] == rooms[name]
        }),
        ({
            let at = channel_named(channels, name);
            let start = configured_rooms(channels);
            &&& start.contains_key(name) == (at >= 0)
            &&& at >= 0 ==> start[name] == (RoomView {
                name,
                public: true,
                metadata: channels[at].metadata,
                senders: Map::empty(),
            })
        }),
    decreases channels.len(),
{
    if channels.len() > 0 {
        channels_set_what_rooms_are_like(rooms, channels.drop_last(), name);
        let at = channel_named(channels, name);
        assert forall|i: int| at < i < channels.len() implies (#[trigger] channels[i]).name
            != name by {
            if i < channels.len() - 1 {
                assert(channels.drop_last()[i] == channels[i]);
            }
        }
    }
}

/// What is said of values leaves nothing out: a channel, a room's metadata, a payload and
/// an effect are said field by field.
pub proof fn nothing_is_left_unsaid(
    channel: PublicChannel,
    metadata: RoomMetaData,
    payload: Payload<'_>,
    effect: Effect,
)
    ensures
        channel@.name == channel.name@,
        channel@.metadata.read_only == channel.read_only,
        channel@.metadata.extra_info == (match channel.extra_info {
            Some(info) => Some(info@),
            None => None,
        }),
        channel@.metadata.msg_freq_ratelimit == channel.msg_freq_ratelimit,
        channel@.metadata.msg_size_ratelimit == channel.msg_size_ratelimit,
        metadata@.read_only == metadata.read_only,
        metadata@.extra_info == (match metadata.extra_info {
            Some(info) => Some(info@),
            None => None,
        }),
        metadata@.msg_freq_ratelimit == metadata.msg_freq_ratelimit,
        metadata@.msg_size_ratelimit == metadata.msg_size_ratelimit,
        payload@.kind == payload.kind,
        payload@.room == payload.room@,
        payload@.user == payload.user@,
        payload@.id == (match payload.id {
            Some(id) => Some(id@),
            None => None,
        }),
        payload@.body == (match payload.body {
            Some(body) => Some(body@),
            None => None,
        }),
        effect matches Effect::Send { to, text } ==> effect@ == (EffectView::Send {
            to,
            text: text@,
        }),
        effect matches Effect::RoomConnections { room, count } ==> effect@
            == (EffectView::RoomConnections { room: room@, count: count as nat }),
        effect matches Effect::MessagesSent { count } ==> effect@ == (EffectView::MessagesSent {
            count: count as nat,
        }),
        effect is MessageReceived == effect@ is MessageReceived,
        effect matches Effect::ConnectionOpened { ip } ==> effect@
            == (EffectView::ConnectionOpened { ip: ip@ }),
        effect matches Effect::ConnectionClosed { ip } ==> effect@
            == (EffectView::ConnectionClosed { ip: ip@ }),
        effect matches Effect::AgentConnected { agent } ==> effect@
            == (EffectView::AgentConnected { agent: agent@ }),
        effect matches Effect::AgentDisconnected { agent } ==> effect@
            == (EffectView::AgentDisconnected { agent: agent@ }),
{
}

/// A header is text if and only if it is made of visible ASCII, spaces and tabulators,
/// and then each byte stands for itself.
pub proof fn headers_are_read_byte_by_byte(value: Seq<u8>)
    ensures
        header_text(value) is Some == (forall|i: int|
            0 <= i < value.len() ==> (32 <= #[trigger] value[i] <= 126 || value[i] == 9)),
        header_text(value) matches Some(text) ==> text.len() == value.len() && forall|i: int|
            0 <= i < value.len() ==> #[trigger] text[i] as int == value[i] as int,
{
    if forall|i: int| 0 <= i < value.len() ==> (32 <= #[trigger] value[i] <= 126 || value[i] == 9) {
        assert forall|i: int| 0 <= i < value.len() implies is_text_byte(#[trigger] value[i]) by {
        }
    }
    if header_text(value) is Some {
        assert forall|i: int| 0 <= i < value.len() implies (32 <= #[trigger] value[i] <= 126
            || value[i] == 9) by {
            assert(is_text_byte(value[i]));
        }
    }
}

/// Where the first item of a list stands: it ends before `comma`, and without the blanks
/// around it, it stands between `from` and `to`.
pub open spec fn first_item(text: Seq<char>, from: int, to: int, comma: int) -> bool {
    &&& 0 <= from <= to <= comma <= text.len()
    &&& forall|i: int| 0 <= i < comma ==> #[trigger] text[i] != ','
    &&& comma == text.len() || text[comma] == ','
    &&& forall|i: int| 0 <= i < from ==> (#[trigger] text[i] == ' ' || text[i] == '\t')
    &&& forall|i: int| to <= i < comma ==> (#[trigger] text[i] == ' ' || text[i] == '\t')
    &&& from < to ==> text[from] != ' ' && text[from] != '\t' && text[to - 1] != ' ' && text[to - 1]
        != '\t'
}

proof fn lemma_comma(s: Seq<char>) -> (comma: int)
    ensures
        0 <= comma <= s.len(),
        forall|i: int| 0 <= i < comma ==> #[trigger] s[i] != ',',
        comma == s.len() || s[comma] == ',',
        before_comma(s) == s.take(comma),
    decreases s.len(),
{
    if s.len() == 0 || s[0] == ',' {
        assert(s.take(0) =~= before_comma(s));
        0
    } else {
        let rest = s.drop_first();
        let comma = lemma_comma(rest) + 1;
        assert forall|i: int| 0 <= i < comma implies #[trigger] s[i] != ',' by {
            if i > 0 {
                assert(rest[i - 1] == s[i]);
            }
        }
        assert(comma < s.len() ==> s[comma] == rest[comma - 1]);
        assert(s.take(comma) =~= seq![s[0]] + rest.take(comma - 1));
        comma
    }
}

proof fn lemma_left(s: Seq<char>) -> (from: int)
    ensures
        0 <= from <= s.len(),
        forall|i: int| 0 <= i < from ==> (#[trigger] s[i] == ' ' || s[i] == '\t'),
        from < s.len() ==> s[from] != ' ' && s[from] != '\t',
        trim_start(s) == s.skip(from),
    decreases s.len(),
{
    if s.len() > 0 && (s[0] == ' ' || s[0] == '\t') {
        let rest = s.drop_first();
        let from = lemma_left(rest) + 1;
        assert forall|i: int| 0 <= i < from implies (#[trigger] s[i] == ' ' || s[i] == '\t') by {
            if i > 0 {
                assert(rest[i - 1] == s[i]);
            }
        }
        assert(from < s.len() ==> s[from] == rest[from - 1]);
        assert(s.skip(from) =~= rest.skip(from - 1));
        from
    } else {
        assert(s.skip(0) =~= s);
        0
    }
}

proof fn lemma_right(s: Seq<char>) -> (to: int)
    ensures
        0 <= to <= s.len(),
        forall|i: int| to <= i < s.len() ==> (#[trigger] s[i] == ' ' || s[i] == '\t'),
        to > 0 ==> s[to - 1] != ' ' && s[to - 1] != '\t',
        trim_end(s) == s.take(to),
    decreases s.len(),
{
    if s.len() > 0 && (s.last() == ' ' || s.last() == '\t') {
        let rest = s.drop_last();
        let to = lemma_right(rest);
        assert forall|i: int| to <= i < s.len() implies (#[trigger] s[i] == ' ' || s[i] == '\t') by {
            if i < rest.len() {
                assert(rest[i] == s[i]);
            }
        }
        assert(to > 0 ==> s[to - 1] == rest[to - 1]);
        assert(s.take(to) =~= rest.take(to));
        to
    } else {
        assert(s.take(s.len() as int) =~= s);
        s.len() as int
    }
}

/// Behind a proxy, whom it names is what stands before the first comma of its header, if
/// that is text, without blanks around it. Nothing is read without a proxy or without the
/// header.
pub proof fn proxies_name_the_client_first(header: Seq<u8>)
    ensures
        forwarded_text(true, None) is None,
        forwarded_text(false, Some(header)) is None,
        forwarded_text(true, Some(header)) is Some == header_text(header) is Some,
        header_text(header) matches Some(text) ==> exists|from: int, to: int, comma: int|
            #[trigger] first_item(text, from, to, comma) && forwarded_text(true, Some(header))
                == Some(text.subrange(from, to)),
{
    if header_text(header) is Some {
        let text = header_text(header)->0;
        let comma = lemma_comma(text);
        let item = text.take(comma);
        let from = lemma_left(item);
        let rest = item.skip(from);
        let to = from + lemma_right(rest);
        assert(rest.take(to - from) =~= text.subrange(from, to));
        assert forall|i: int| 0 <= i < from implies (#[trigger] text[i] == ' ' || text[i]
            == '\t') by {
            assert(item[i] == text[i]);
        }
        assert forall|i: int| to <= i < comma implies (#[trigger] text[i] == ' ' || text[i]
            == '\t') by {
            assert(rest[i - from] == text[i]);
        }
        if from < to {
            assert(item[from] == text[from]);
            assert(rest[to - from - 1] == text[to - 1]);
        }
        assert(first_item(text, from, to, comma));
    }
}

/// Only one who sends the password that the configured hash was made of is an
/// administrator. Where there is a password and a hash that cannot be read, nothing is
/// decided.
pub proof fn passwords_make_administrators(request: RequestView, hash: Option<Seq<char>>)
    ensures
        request.from_admin(hash) is None == (request.authorization is Some && hash is Some
            && !is_password_hash(hash->0)),
        request.from_admin(hash) == Some(true) ==> request.authorization is Some && hash is Some
            && password_fits(request.authorization->0, hash->0),
        request.authorization is Some && hash is Some && is_password_hash(hash->0)
            && password_fits(request.authorization->0, hash->0) && !too_many_threads(hash->0)
            ==> request.from_admin(hash) == Some(true),
        request.accept() is Some == request.websocket_key is Some,
        request.websocket_key matches Some(key) ==> request.accept() == Some(
            base64_text(sha1_digest(key + encode_utf8("258EAFA5-E914-47DA-95CA-C5AB0DC85B11"@))),
        ),
{
}

/// Who a request comes from: whom the proxy names, if there is a proxy and it names
/// someone, and else the one at the other end.
pub open spec fn comes_from(before: GlobalState, request: RequestView) -> Seq<char> {
    if before.config.behind_proxy && request.forwarded_ip is Some {
        request.forwarded_ip->0
    } else {
        request.remote_ip
    }
}

/// The response is a status and nothing else.
pub open spec fn is_bare(outcome: Result<ReplyView, Fault>, status: u16) -> bool {
    &&& outcome is Ok
    &&& outcome->Ok_0.status == status
    &&& outcome->Ok_0.headers.len() == 0
    &&& outcome->Ok_0.body == Body::Empty
    &&& outcome->Ok_0.admission is None
    &&& outcome->Ok_0.effects.len() == 0
}

/// A request to open a websocket is a bad one without the headers or with another
/// protocol, is forbidden where its address has no connections left, and else is met: the
/// response carries the answer to the key, and the client is let in as who it is.
pub proof fn handshakes_are_answered(
    before: GlobalState,
    request: RequestView,
    from_admin: Option<bool>,
    accept: Option<Seq<char>>,
)
    requires
        request.method == "GET"@,
        request.path == "/"@,
    ensures
        ({
            let outcome = checked_outcome(before, request, from_admin, accept);
            let ip = comes_from(before, request);
            let complete = request.upgrade is Some && accept is Some;
            let protocol = header_text(request.upgrade->0);
            let clients = before.clients_view();
            let open = if clients.contains_key(ip) {
                clients[ip].connection_count
            } else {
                0
            };
            let agent = if request.user_agent is Some {
                header_text(request.user_agent->0)
            } else {
                None
            };
            &&& checked_endpoint_outcome(before, request, from_admin, accept) == outcome
            &&& from_admin is None ==> outcome == Err::<ReplyView, Fault>(
                Fault::UnreadablePasswordHash,
            )
            &&& from_admin is Some ==> {
                &&& !complete ==> is_bare(outcome, 400)
                &&& complete && protocol is None ==> outcome == Err::<ReplyView, Fault>(
                    Fault::UnreadableUpgrade,
                )
                &&& complete && protocol is Some && protocol->0 != "websocket"@ ==> is_bare(
                    outcome,
                    400,
                )
                &&& complete && protocol == Some("websocket"@) && open
                    >= before.config.connections_per_ip ==> is_bare(outcome, 403)
                &&& complete && protocol == Some("websocket"@) && open
                    < before.config.connections_per_ip ==> {
                    &&& outcome is Ok
                    &&& outcome->Ok_0.status == 101
                    &&& outcome->Ok_0.headers == seq![
                        ("connection"@, "Upgrade"@),
                        ("upgrade"@, "websocket"@),
                        ("sec-websocket-accept"@, accept->0),
                        ("sec-websocket-version"@, "13"@),
                    ]
                    &&& outcome->Ok_0.body == Body::Empty
                    &&& outcome->Ok_0.admission == Some(
                        AdmissionView {
                            ip,
                            agent,
                            is_admin: from_admin->0,
                            accept: accept->0,
                        },
                    )
                    &&& outcome->Ok_0.effects.len() == 1 + (if agent is Some {
                        1int
                    } else {
                        0
                    })
                    &&& outcome->Ok_0.effects[0] == (EffectView::ConnectionOpened { ip })
                    &&& agent is Some ==> outcome->Ok_0.effects[1] == (EffectView::AgentConnected {
                        agent: agent->0,
                    })
                }
            }
        }),
{
}

/// The metrics are for everyone who sends the configured token, and for everyone where
/// none is configured. Nothing else is found.
pub proof fn other_requests_are_answered(
    before: GlobalState,
    request: RequestView,
    from_admin: Option<bool>,
    accept: Option<Seq<char>>,
)
    requires
        !(request.method == "GET"@ && request.path == "/"@),
    ensures
        ({
            let outcome = checked_outcome(before, request, from_admin, accept);
            let metrics = request.method == "GET"@ && request.path == "/metrics"@;
            let token = before.config.metrics_token;
            let allowed = token is None || (request.authorization is Some
                && request.authorization->0 == encode_utf8(token->0@));
            &&& !metrics ==> is_bare(outcome, 404)
            &&& metrics && !allowed ==> is_bare(outcome, 403)
            &&& metrics && allowed ==> outcome is Ok && outcome->Ok_0.status == 200
                && outcome->Ok_0.body == Body::Metrics && outcome->Ok_0.headers.len() == 0
                && outcome->Ok_0.admission is None && outcome->Ok_0.effects.len() == 0
        }),
{
}

/// A request is answered by what is looked up about it, and every response is what it was
/// with the version added.
pub proof fn responses_carry_the_version(
    before: GlobalState,
    request: RequestView,
    version: Seq<char>,
    outcome: Result<ReplyView, Fault>,
)
    ensures
        request_outcome(before, request) == checked_outcome(
            before,
            request,
            request.from_admin(
                match before.config.admin_password_hash {
                    Some(hash) => Some(hash@),
                    None => None,
                },
            ),
            request.accept(),
        ),
        outcome is Err ==> versioned_outcome(outcome, version) == outcome,
        outcome matches Ok(reply) ==> versioned_outcome(outcome, version) == Ok::<ReplyView, Fault>(
            ReplyView { headers: reply.headers.push(("x-highway-version"@, version)), ..reply },
        ),
{
}

/// Of a request and of a response everything is said.
pub proof fn requests_are_said_in_full(request: HttpRequest, reply: Reply, admission: Admission)
    ensures
        request@.method == request.method@,
        request@.path == request.path@,
        request@.remote_ip == request.remote_ip@,
        request@.forwarded_ip is Some == request.forwarded_ip is Some,
        request.forwarded_ip matches Some(ip) ==> request@.forwarded_ip->0 == ip@,
        request@.authorization is Some == request.authorization is Some,
        request.authorization matches Some(value) ==> request@.authorization->0 == value@,
        request@.upgrade is Some == request.upgrade is Some,
        request.upgrade matches Some(value) ==> request@.upgrade->0 == value@,
        request@.websocket_key is Some == request.websocket_key is Some,
        request.websocket_key matches Some(value) ==> request@.websocket_key->0 == value@,
        request@.user_agent is Some == request.user_agent is Some,
        request.user_agent matches Some(value) ==> request@.user_agent->0 == value@,
        reply@.status == reply.status,
        reply@.body == reply.body,
        reply@.headers.len() == reply.headers@.len(),
        forall|i: int|
            0 <= i < reply.headers@.len() ==> #[trigger] reply@.headers[i] == (
                reply.headers@[i].0@,
                reply.headers@[i].1@,
            ),
        reply@.effects.len() == reply.effects@.len(),
        forall|i: int|
            0 <= i < reply.effects@.len() ==> #[trigger] reply@.effects[i] == reply.effects@[i]@,
        reply@.admission is Some == reply.admission is Some,
        reply.admission matches Some(let_in) ==> reply@.admission->0 == let_in@,
        admission@.ip == admission.ip@,
        admission@.agent is Some == admission.agent is Some,
        admission.agent matches Some(agent) ==> admission@.agent->0 == agent@,
        admission@.is_admin == admission.is_admin,
        admission@.accept == admission.accept@,
{
}

/// Of a peer, of a client's state and of how a payload was handled everything is said.
pub proof fn peers_are_said_in_full(peer: Peer, client: ClientState, handled: Handled)
    ensures
        peer@.id == peer.id@,
        peer@.is_admin == peer.is_admin,
        peer@.ip == peer.ip@,
        peer@.agent is Some == peer.agent is Some,
        peer.agent matches Some(agent) ==> peer@.agent->0 == agent@,
        peer@.sender == peer.sender,
        peer@.ratelimiters == peer.ratelimiters@,
        forall|room: Seq<char>| #[trigger]
            peer@.rooms.contains_key(room) == peer.rooms@.contains_key(room),
        forall|room: Seq<char>| #[trigger]
            peer@.rooms.contains_key(room) ==> peer@.rooms[room] == peer.rooms@[room]@,
        client@.connection_count == client.connection_count,
        client@.ratelimiters == client.ratelimiters@,
        handled@.effects.len() == handled.effects@.len(),
        forall|i: int|
            0 <= i < handled.effects@.len() ==> #[trigger] handled@.effects[i]
                == handled.effects@[i]@,
        handled@.next is Quit == handled.next is Quit,
        handled@.next is Continue == handled.next is Continue,
        handled.next matches Next::Broadcast(pending) ==> handled@.next == (NextView::Broadcast {
            room: pending.room@,
            text: pending.text@,
            charges: pending.charges@,
        }),
{
}

/// Of the shared state and of lists everything is said, one by one.
pub proof fn states_are_said_in_full(
    state: GlobalState,
    effects: Seq<Effect>,
    channels: Seq<PublicChannel>,
    name: Seq<char>,
)
    ensures
        state.rooms_view().contains_key(name) == state.rooms@.contains_key(name),
        state.rooms@.contains_key(name) ==> state.rooms_view()[name] == state.rooms@[name]@,
        state.clients_view().contains_key(name) == state.connections@.contains_key(name),
        state.connections@.contains_key(name) ==> state.clients_view()[name]
            == state.connections@[name]@,
        shown(effects).len() == effects.len(),
        forall|i: int| 0 <= i < effects.len() ==> #[trigger] shown(effects)[i] == effects[i]@,
        channels_said(channels).len() == channels.len(),
        forall|i: int|
            0 <= i < channels.len() ==> #[trigger] channels_said(channels)[i] == channels[i]@,
{
}

/// A hash asks for too many threads if and only if `p=` and at least nine digits stand in
/// it somewhere.
pub proof fn threads_are_counted_by_digits(hash: Seq<char>)
    ensures
        too_many_threads(hash) == (exists|at: int|
            0 <= at && at + 11 <= hash.len() && #[trigger] hash[at] == 'p' && hash[at + 1] == '='
                && forall|i: int|
                at + 2 <= i < at + 11 ==> ('0' <= #[trigger] hash[i] && hash[i] <= '9')),
{
    if too_many_threads(hash) {
        let at = choose|at: int| #[trigger] asks_for_many_threads(hash, at);
        assert(hash[at] == 'p');
        assert forall|i: int| at + 2 <= i < at + 11 implies ('0' <= #[trigger] hash[i] && hash[i]
            <= '9') by {
            assert(is_digit(hash[i]));
        }
    }
    if exists|at: int|
        0 <= at && at + 11 <= hash.len() && #[trigger] hash[at] == 'p' && hash[at + 1] == '='
            && forall|i: int| at + 2 <= i < at + 11 ==> ('0' <= #[trigger] hash[i] && hash[i] <= '9') {
        let at = choose|at: int|
            0 <= at && at + 11 <= hash.len() && #[trigger] hash[at] == 'p' && hash[at + 1] == '='
                && forall|i: int|
                at + 2 <= i < at + 11 ==> ('0' <= #[trigger] hash[i] && hash[i] <= '9');
        assert(asks_for_many_threads(hash, at));
    }
}

/// A request changes nothing but who is connected, and that only where a client is let in:
/// then its address counts one more.
pub proof fn requests_change_only_the_counts(
    before: GlobalState,
    after: GlobalState,
    outcome: Result<ReplyView, Fault>,
)
    requires
        admitted(before, after, outcome),
    ensures
        after.config == before.config,
        after.rooms == before.rooms,
        !(outcome is Ok && outcome->Ok_0.admission is Some) ==> after.connections
            == before.connections,
        (outcome is Ok && outcome->Ok_0.admission is Some) ==> ({
            let ip = outcome->Ok_0.admission->0.ip;
            let old_clients = before.clients_view();
            let new_clients = after.clients_view();
            &&& new_clients.remove(ip) == old_clients.remove(ip)
            &&& new_clients.contains_key(ip)
            &&& new_clients[ip].connection_count == (if old_clients.contains_key(ip) {
                old_clients[ip].connection_count + 1
            } else {
                1
            })
        }),
{
    if outcome is Ok && outcome->Ok_0.admission is Some {
        let ip = outcome->Ok_0.admission->0.ip;
        assert(after.clients_view().remove(ip) =~= before.clients_view().remove(ip));
    }
}

} // verus!
