//! Everything that the server sends is a payload: a JSON object that says under
//! `type` what it is.
use crate::config::{ratelimit_fields, ratelimit_text, Config, Ratelimit};
use crate::constants;
use crate::directory::{keys_of, walks};
use crate::effect::EffectView;
use crate::json::{
    answers_are_strings, decimals_are_numbers, is_json, keys_are_plain, lists_are_json,
    literals_are_json, objects_are_json, plain, plain_texts_are_not_escaped,
    quoted_texts_are_strings, string_chars,
};
use crate::model::{kind_name, PayloadKind, PayloadView};
use crate::peer::{after_departure, departures, linked, HandledView, NextView, PeerView};
use crate::room::{
    announcement_text, deliveries, others, retellings, room_info_fields, room_info_text,
    MetaDataView, RoomView,
};
use crate::state::{
    after_channel, after_reload, channel_effects, greeting_fields, greeting_text, limit_fields,
    public_rooms, reload_effects, room_before_join, ChannelView, GlobalState,
};
use crate::text::{json_string, members_text, object_text};
use vstd::prelude::*;

verus! {

/// The types of what the server sends.
pub open spec fn is_type(name: Seq<char>) -> bool {
    ||| name == "hello"@
    ||| name == "join"@
    ||| name == "leave"@
    ||| name == "room_info"@
    ||| name == "message"@
    ||| name == "success"@
    ||| name == "error"@
}

/// The text is an object with the given type.
pub open spec fn typed(text: Seq<char>, name: Seq<char>) -> bool {
    exists|spaced: bool, fields: Seq<(Seq<char>, Seq<char>)>|
        {
            &&& text == #[trigger] object_text(spaced, fields)
            &&& fields.len() > 0
            &&& fields[0] == ("type"@, json_string(name))
        }
}

/// The text is a payload as the server sends them.
pub open spec fn is_payload(text: Seq<char>) -> bool {
    &&& is_json(text)
    &&& exists|name: Seq<char>| is_type(name) && #[trigger] typed(text, name)
}

/// Everything that is sent is a payload.
pub open spec fn only_payloads(effects: Seq<EffectView>) -> bool {
    forall|i: int|
        0 <= i < effects.len() ==> ((#[trigger] effects[i]) matches EffectView::Send { to, text }
            ==> is_payload(text))
}

/// The text is a JSON text, if there is one.
pub open spec fn json_if_any(text: Option<Seq<char>>) -> bool {
    text matches Some(t) ==> is_json(t)
}

/// What rooms have to tell about themselves are JSON texts.
pub open spec fn rooms_tell_json(rooms: Map<Seq<char>, RoomView>) -> bool {
    forall|name: Seq<char>| #[trigger]
        rooms.contains_key(name) ==> json_if_any(rooms[name].metadata.extra_info)
}

proof fn lemma_payload(spaced: bool, fields: Seq<(Seq<char>, Seq<char>)>, name: Seq<char>)
    requires
        fields.len() > 0,
        fields[0] == ("type"@, json_string(name)),
        is_type(name),
        forall|i: int|
            0 <= i < fields.len() ==> string_chars((#[trigger] fields[i]).0) && is_json(
                fields[i].1,
            ),
    ensures
        is_payload(object_text(spaced, fields)),
{
    objects_are_json(spaced, fields);
    assert(typed(object_text(spaced, fields), name));
}

/// The text of a payload is one, except for the type by which clients say goodbye,
/// which the server does not use.
pub proof fn payload_texts(payload: PayloadView)
    requires
        payload.kind != PayloadKind::Quit,
        json_if_any(payload.id),
        json_if_any(payload.body),
    ensures
        is_payload(payload.text()),
{
    keys_are_plain();
    quoted_texts_are_strings(kind_name(payload.kind));
    quoted_texts_are_strings(payload.room);
    quoted_texts_are_strings(payload.user);
    lemma_payload(false, payload.fields(), kind_name(payload.kind));
}

/// What tells of someone who came or left is a payload.
pub proof fn announcements(what: Seq<char>, room: Seq<char>, user: Seq<char>)
    requires
        is_type(what),
    ensures
        is_payload(announcement_text(what, room, user)),
{
    keys_are_plain();
    quoted_texts_are_strings(what);
    quoted_texts_are_strings(room);
    quoted_texts_are_strings(user);
    lemma_payload(
        true,
        seq![("type"@, json_string(what)), ("room"@, json_string(room)), ("user"@, json_string(user))],
        what,
    );
}

proof fn lemma_ratelimit(limit: Ratelimit)
    ensures
        is_json(ratelimit_text(limit)),
{
    keys_are_plain();
    decimals_are_numbers(limit.max_tokens as nat);
    decimals_are_numbers(limit.tokens as nat);
    decimals_are_numbers(limit.refill_amount as nat);
    decimals_are_numbers(limit.refill_millis as nat);
    objects_are_json(true, ratelimit_fields(limit));
}

/// What tells about a room is a payload.
pub proof fn room_infos(room: Seq<char>, metadata: MetaDataView, users: Seq<Seq<char>>)
    requires
        json_if_any(metadata.extra_info),
    ensures
        is_payload(room_info_text(room, metadata, users)),
{
    keys_are_plain();
    literals_are_json();
    lists_are_json(users);
    quoted_texts_are_strings("room_info"@);
    quoted_texts_are_strings(room);
    if let Some(limit) = metadata.msg_freq_ratelimit {
        lemma_ratelimit(limit);
    }
    if let Some(limit) = metadata.msg_size_ratelimit {
        lemma_ratelimit(limit);
    }
    lemma_payload(true, room_info_fields(room, metadata, users), "room_info"@);
}

/// What greets a client is a payload.
pub proof fn greetings(rooms: Map<Seq<char>, RoomView>, names: Seq<Seq<char>>, config: Config)
    ensures
        is_payload(greeting_text(rooms, names, config)),
{
    keys_are_plain();
    lists_are_json(public_rooms(rooms, names));
    quoted_texts_are_strings("hello"@);
    decimals_are_numbers(config.connections_per_ip as nat);
    decimals_are_numbers(config.max_message_size as nat);
    lemma_ratelimit(config.msg_freq_ratelimit);
    lemma_ratelimit(config.msg_size_ratelimit);
    objects_are_json(true, limit_fields(config));
    lemma_payload(true, greeting_fields(rooms, names, config), "hello"@);
}

/// A client that connects is greeted by a payload.
pub proof fn clients_are_greeted_by_payloads(
    peer: PeerView,
    state: GlobalState,
    effects: Seq<EffectView>,
)
    requires
        peer.greeted(state, effects),
    ensures
        only_payloads(effects),
{
    let text = choose|text: Seq<char>|
        {
            &&& #[trigger] state.greets(text)
            &&& effects == seq![EffectView::Send { to: peer.sender, text }]
        };
    let walk = choose|walk: Seq<Seq<char>>| #[trigger]
        crate::directory::enumerates(walk, state.rooms_view().dom()) && text == greeting_text(
            state.rooms_view(),
            walk,
            state.config,
        );
    greetings(state.rooms_view(), walk, state.config);
}

proof fn lemma_deliveries(walk: Seq<(Seq<char>, u64)>, text: Seq<char>, sender: Option<Seq<char>>)
    requires
        is_payload(text),
    ensures
        only_payloads(deliveries(walk, text, sender)),
    decreases walk.len(),
{
    if walk.len() > 0 {
        lemma_deliveries(walk.drop_last(), text, sender);
    }
}

/// A payload that is passed on to a room stays one.
pub proof fn broadcasts_are_payloads(
    room: RoomView,
    effects: Seq<EffectView>,
    text: Seq<char>,
    sender: Option<Seq<char>>,
)
    requires
        is_payload(text),
        room.broadcasts(effects, text, sender),
    ensures
        only_payloads(effects),
{
    let walk = choose|walk: Seq<(Seq<char>, u64)>| #[trigger]
        walks(walk, room.senders) && effects == room.broadcast_over(walk, text, sender);
    lemma_deliveries(walk, text, sender);
}

proof fn lemma_welcomes(room: RoomView, effects: Seq<EffectView>, id: Seq<char>, sender: u64)
    requires
        room.welcomes(effects, id, sender),
    ensures
        only_payloads(effects),
{
    let told = choose|told: Seq<EffectView>|
        {
            &&& #[trigger] room.broadcasts(told, announcement_text("join"@, room.name, id), None)
            &&& effects == told.push(
                EffectView::RoomConnections {
                    room: room.name,
                    count: room.with_member(id, sender).senders.len(),
                },
            )
        };
    announcements("join"@, room.name, id);
    broadcasts_are_payloads(room, told, announcement_text("join"@, room.name, id), None);
}

proof fn lemma_dismisses(room: RoomView, effects: Seq<EffectView>, id: Seq<char>)
    requires
        room.dismisses(effects, id),
    ensures
        only_payloads(effects),
{
    let left = room.without_member(id);
    let told = choose|told: Seq<EffectView>|
        {
            &&& #[trigger] left.broadcasts(told, announcement_text("leave"@, room.name, id), None)
            &&& effects == told.push(
                EffectView::RoomConnections { room: room.name, count: left.senders.len() },
            )
        };
    announcements("leave"@, room.name, id);
    broadcasts_are_payloads(left, told, announcement_text("leave"@, room.name, id), None);
}

/// Data that is no payload is answered by one.
pub proof fn the_answer_to_garbage()
    ensures
        is_payload(constants::INVALID_JSON_MSG@),
{
    let fields = seq![
        ("type"@, json_string("error"@)),
        ("body"@, json_string("You sent an invalid JSON payload"@)),
    ];
    keys_are_plain();
    quoted_texts_are_strings("error"@);
    quoted_texts_are_strings("You sent an invalid JSON payload"@);
    lemma_payload(true, fields, "error"@);
    reveal_strlit("error");
    reveal_strlit("You sent an invalid JSON payload");
    reveal_strlit("type");
    reveal_strlit("body");
    reveal_strlit("{\"type\": \"error\", \"body\": \"You sent an invalid JSON payload\"}");
    reveal_with_fuel(plain, 41);
    reveal_with_fuel(members_text, 3);
    plain_texts_are_not_escaped("error"@, "error"@.len() as int);
    plain_texts_are_not_escaped(
        "You sent an invalid JSON payload"@,
        "You sent an invalid JSON payload"@.len() as int,
    );
    assert("error"@.take("error"@.len() as int) =~= "error"@);
    assert("You sent an invalid JSON payload"@.take(
        "You sent an invalid JSON payload"@.len() as int,
    ) =~= "You sent an invalid JSON payload"@);
    assert(fields.drop_last() =~= seq![("type"@, json_string("error"@))]);
    assert(constants::INVALID_JSON_MSG@ =~= object_text(true, fields));
}

proof fn lemma_answer(peer: PeerView, request: PayloadView, kind: PayloadKind, body: Seq<char>)
    requires
        kind != PayloadKind::Quit,
        json_if_any(request.id),
        is_json(body),
    ensures
        only_payloads(seq![peer.sent(request.answer(kind, body))]),
{
    payload_texts(request.answer(kind, body));
}

/// Whatever a client sends, everything that goes out because of it is a payload,
/// and so is the message that is to be passed on later. The `id` and the `body` of
/// what it sent, and what rooms have to tell about themselves, are JSON texts.
pub proof fn handling_sends_payloads(
    rooms: Map<Seq<char>, RoomView>,
    made: nat,
    peer: PeerView,
    payload: Option<PayloadView>,
    size: int,
    handled: HandledView,
    peer_after: PeerView,
    rooms_after: Map<Seq<char>, RoomView>,
)
    requires
        linked(rooms, peer),
        rooms_tell_json(rooms),
        payload matches Some(request) ==> json_if_any(request.id) && json_if_any(request.body),
        peer.payload_handled(rooms, made, payload, size, handled, peer_after, rooms_after),
    ensures
        only_payloads(handled.effects),
        handled.next matches NextView::Broadcast { text, .. } ==> is_payload(text),
        rooms_tell_json(rooms_after),
{
    answers_are_strings();
    match payload {
        None => {
            the_answer_to_garbage();
        },
        Some(request) => {
            lemma_answer(peer, request, PayloadKind::Error, constants::INVALID_MSG@);
            lemma_answer(peer, request, PayloadKind::Error, constants::INVALID_ROOM_MSG@);
            lemma_answer(peer, request, PayloadKind::Error, constants::ROOM_NAME_TOO_SHORT@);
            if !request.invalid() {
                if request.kind == PayloadKind::Message {
                    lemma_message_sends_payloads(
                        rooms,
                        peer,
                        request.signed(peer.id),
                        size,
                        handled,
                    );
                } else if request.kind == PayloadKind::Join {
                    if peer.join_refusal(rooms, request.room) is None {
                        lemma_join_sends_payloads(rooms, peer, request, handled.effects);
                    }
                } else if request.kind == PayloadKind::Leave {
                    if peer.rooms.contains_key(request.room) {
                        let farewell = choose|farewell: Seq<EffectView>|
                            {
                                &&& #[trigger] rooms[request.room].dismisses(farewell, peer.id)
                                &&& handled.effects == farewell.push(
                                    peer.sent(request.success(constants::ROOM_LEAVE_MSG@)),
                                )
                            };
                        lemma_dismisses(rooms[request.room], farewell, peer.id);
                        payload_texts(request.success(constants::ROOM_LEAVE_MSG@));
                    }
                }
            }
        },
    }
    assert forall|name: Seq<char>| #[trigger] rooms_after.contains_key(name) implies json_if_any(
        rooms_after[name].metadata.extra_info,
    ) by {
        if rooms.contains_key(name) {
            assert(json_if_any(rooms[name].metadata.extra_info));
        }
        if let Some(request) = payload {
            if rooms.contains_key(request.room) {
                assert(json_if_any(rooms[request.room].metadata.extra_info));
            }
        }
    }
}

proof fn lemma_message_sends_payloads(
    rooms: Map<Seq<char>, RoomView>,
    peer: PeerView,
    message: PayloadView,
    size: int,
    handled: HandledView,
)
    requires
        json_if_any(message.id),
        json_if_any(message.body),
        message.kind == PayloadKind::Message,
        peer.message_handled(rooms, message, size, handled),
    ensures
        only_payloads(handled.effects),
        handled.next matches NextView::Broadcast { text, .. } ==> is_payload(text),
{
    answers_are_strings();
    lemma_answer(peer, message, PayloadKind::Error, constants::INVALID_ROOM_MSG@);
    lemma_answer(peer, message, PayloadKind::Error, constants::ROOM_READ_ONLY@);
    payload_texts(message);
    if peer.rooms.contains_key(message.room) && peer.is_admin {
        broadcasts_are_payloads(
            rooms[message.room],
            handled.effects,
            message.text(),
            Some(peer.id),
        );
    }
}

proof fn lemma_join_sends_payloads(
    rooms: Map<Seq<char>, RoomView>,
    peer: PeerView,
    request: PayloadView,
    effects: Seq<EffectView>,
)
    requires
        rooms_tell_json(rooms),
        json_if_any(request.id),
        peer.join_effects(rooms, request, effects),
    ensures
        only_payloads(effects),
{
    let room = room_before_join(rooms, request.room);
    let (welcome, users) = choose|welcome: Seq<EffectView>, users: Seq<Seq<char>>|
        {
            &&& #[trigger] room.welcomes(welcome, peer.id, peer.sender)
            &&& #[trigger] crate::directory::enumerates(users, room.senders.dom())
            &&& effects == welcome + seq![
                peer.sent(request.success(constants::ROOM_JOIN_MSG@)),
                EffectView::Send {
                    to: peer.sender,
                    text: room_info_text(request.room, room.metadata, users),
                },
            ]
        };
    answers_are_strings();
    lemma_welcomes(room, welcome, peer.id, peer.sender);
    payload_texts(request.success(constants::ROOM_JOIN_MSG@));
    assert(json_if_any(room.metadata.extra_info)) by {
        if rooms.contains_key(request.room) {
            assert(json_if_any(rooms[request.room].metadata.extra_info));
        }
    }
    room_infos(request.room, room.metadata, users);
}

proof fn lemma_departures(
    rooms: Map<Seq<char>, RoomView>,
    order: Seq<Seq<char>>,
    id: Seq<char>,
    effects: Seq<EffectView>,
)
    requires
        departures(rooms, order, id, effects),
    ensures
        only_payloads(effects),
    decreases order.len(),
{
    if order.len() > 0 {
        let (before, last) = choose|before: Seq<EffectView>, last: Seq<EffectView>|
            {
                &&& effects == #[trigger] (before + last)
                &&& departures(rooms, order.drop_last(), id, before)
                &&& rooms[order.last()].dismisses(last, id)
            };
        lemma_departures(rooms, order.drop_last(), id, before);
        lemma_dismisses(rooms[order.last()], last, id);
    }
}

/// What goes out when a client leaves the server is payloads.
pub proof fn disconnecting_sends_payloads(
    rooms: Map<Seq<char>, RoomView>,
    peer: PeerView,
    effects: Seq<EffectView>,
)
    requires
        peer.disconnect_effects(rooms, effects),
    ensures
        only_payloads(effects),
        rooms_tell_json(rooms) ==> rooms_tell_json(
            after_departure(rooms, peer.rooms.dom(), peer.id),
        ),
{
    let closed = seq![EffectView::ConnectionClosed { ip: peer.ip }]
        + crate::state::agent_effects(peer.agent, false);
    let (order, farewells) = choose|order: Seq<Seq<char>>, farewells: Seq<EffectView>|
        {
            &&& #[trigger] crate::directory::enumerates(order, peer.rooms.dom())
            &&& #[trigger] departures(rooms, order, peer.id, farewells)
            &&& effects == farewells + closed
        };
    lemma_departures(rooms, order, peer.id, farewells);
    if rooms_tell_json(rooms) {
        let after = after_departure(rooms, peer.rooms.dom(), peer.id);
        assert forall|name: Seq<char>| #[trigger] after.contains_key(name) implies json_if_any(
            after[name].metadata.extra_info,
        ) by {
            assert(rooms.contains_key(name));
        }
    }
}

proof fn lemma_retellings(
    walk: Seq<(Seq<char>, u64)>,
    all: Seq<Seq<char>>,
    room: Seq<char>,
    metadata: MetaDataView,
)
    requires
        json_if_any(metadata.extra_info),
    ensures
        only_payloads(retellings(walk, all, room, metadata)),
    decreases walk.len(),
{
    if walk.len() > 0 {
        lemma_retellings(walk.drop_last(), all, room, metadata);
        room_infos(room, metadata, others(all, walk.last().0));
    }
}

/// What goes out when the configuration is read again is payloads, if the
/// configuration has JSON texts to tell about the channels.
pub proof fn reloading_sends_payloads(
    rooms: Map<Seq<char>, RoomView>,
    channels: Seq<ChannelView>,
    effects: Seq<EffectView>,
)
    requires
        rooms_tell_json(rooms),
        forall|i: int|
            0 <= i < channels.len() ==> json_if_any((#[trigger] channels[i]).metadata.extra_info),
        reload_effects(rooms, channels, effects),
    ensures
        only_payloads(effects),
        rooms_tell_json(after_reload(rooms, channels)),
    decreases channels.len(),
{
    if channels.len() > 0 {
        let earlier = channels.drop_last();
        let channel = channels.last();
        let now = after_reload(rooms, earlier);
        let (before, last) = choose|before: Seq<EffectView>, last: Seq<EffectView>|
            {
                &&& effects == #[trigger] (before + last)
                &&& reload_effects(rooms, earlier, before)
                &&& channel_effects(now, channel, last)
            };
        assert forall|i: int| 0 <= i < earlier.len() implies json_if_any(
            (#[trigger] earlier[i]).metadata.extra_info,
        ) by {
            assert(earlier[i] == channels[i]);
        }
        reloading_sends_payloads(rooms, earlier, before);
        assert(json_if_any(channels[channels.len() - 1].metadata.extra_info));
        let after = after_channel(now, channel);
        assert forall|name: Seq<char>| #[trigger] after.contains_key(name) implies json_if_any(
            after[name].metadata.extra_info,
        ) by {
            if name != channel.name {
                assert(now.contains_key(name));
            }
        }
        if now.contains_key(channel.name) && now[channel.name].metadata != channel.metadata {
            let room = after[channel.name];
            let walk = choose|walk: Seq<(Seq<char>, u64)>| #[trigger]
                walks(walk, room.senders) && last == retellings(
                    walk,
                    keys_of(walk),
                    room.name,
                    room.metadata,
                );
            lemma_retellings(walk, keys_of(walk), room.name, room.metadata);
        }
    }
}

} // verus!
