use highway::config::{Config, PublicChannel, Ratelimit};
use highway::constants;
use highway::effect::Effect;
use highway::model::{Payload, PayloadKind};
use highway::peer::{Next, Peer};
use highway::ratelimit::{Charge, Mint, Ratelimiters};
use highway::state::GlobalState;

fn long_name() -> String {
    "a".repeat(32)
}

fn channel(name: &str) -> PublicChannel {
    PublicChannel {
        name: name.to_string(),
        read_only: false,
        extra_info: None,
        msg_freq_ratelimit: None,
        msg_size_ratelimit: None,
    }
}

fn limit(n: u32) -> Ratelimit {
    Ratelimit { max_tokens: n, tokens: n, refill_amount: n, refill_millis: 10000 }
}

fn state(channels: Vec<PublicChannel>) -> GlobalState {
    GlobalState::new(Config { public_channels: channels, ..Config::default() })
}

fn peer(state: &mut GlobalState, id: &str, sender: u64, is_admin: bool) -> Peer {
    assert!(state.client_connected("1.2.3.4", None).0);
    Peer::start_with_id(state, id.to_string(), "1.2.3.4".to_string(), None, sender, is_admin).0
}

fn request<'a>(kind: PayloadKind, room: &'a str) -> Payload<'a> {
    Payload { kind, room, user: "", id: None, body: None }
}

fn message<'a>(room: &'a str, body: &'a str) -> Payload<'a> {
    Payload { body: Some(body), ..request(PayloadKind::Message, room) }
}

fn send(to: u64, text: &str) -> Effect {
    Effect::Send { to, text: text.to_string() }
}

fn answer(to: u64, payload: Payload<'_>) -> Effect {
    Effect::Send { to, text: payload.to_json() }
}

/// Hands a payload over and expects the server to go on without waiting.
fn handle(state: &mut GlobalState, peer: &mut Peer, payload: Payload<'_>) -> Vec<Effect> {
    let handled = peer.on_message(state, Some(payload), 100);
    assert!(matches!(handled.next, Next::Continue));
    handled.effects
}

fn sorted(mut ids: Vec<String>) -> Vec<String> {
    ids.sort();
    ids
}

fn targets(effects: &[Effect]) -> Vec<u64> {
    let mut targets: Vec<u64> = effects
        .iter()
        .filter_map(|e| match e {
            Effect::Send { to, .. } => Some(*to),
            _ => None,
        })
        .collect();
    targets.sort();
    targets
}

#[test]
fn peers_get_random_ids_and_a_greeting() {
    let mut state = state(vec![channel("demo_room")]);
    assert!(state.client_connected("::1", Some("curl".to_string())).0);
    let (one, effects) = Peer::start_from_stream(
        &state,
        "::1".to_string(),
        Some("curl".to_string()),
        5,
        false,
    );
    let (two, _) = Peer::start_from_stream(&state, "::1".to_string(), None, 6, true);
    assert_ne!(one.id, two.id);
    for id in [&one.id, &two.id] {
        assert_eq!(id.len(), 36);
        for (i, c) in id.chars().enumerate() {
            match i {
                8 | 13 | 18 | 23 => assert_eq!(c, '-'),
                14 => assert_eq!(c, '4'),
                19 => assert!("89ab".contains(c)),
                _ => assert!("0123456789abcdef".contains(c)),
            }
        }
    }
    assert_eq!(effects, vec![send(5, &state.hello())]);
    assert_eq!(one.ip, "::1");
    assert_eq!(one.agent, Some("curl".to_string()));
    assert!(!one.is_admin);
    assert!(two.is_admin);
    assert!(one.rooms.keys().is_empty());
    assert_eq!(one.ratelimiters.freq.as_ref().unwrap().leaky().max(), 10);
    let address = &state.connections.get("::1").unwrap().ratelimiters;
    assert!(std::sync::Arc::ptr_eq(&one.ratelimiters, address));
    assert!(std::sync::Arc::ptr_eq(&two.ratelimiters, address));
}

#[test]
fn joining_a_new_room_makes_it() {
    let mut state = state(vec![]);
    let mut one = peer(&mut state, "one", 1, false);
    let name = long_name();
    let join = Payload { id: Some("7"), ..request(PayloadKind::Join, &name) };
    assert_eq!(
        handle(&mut state, &mut one, join),
        vec![
            Effect::RoomConnections { room: long_name(), count: 1 },
            send(
                1,
                &format!(
                    "{{\"type\":\"success\",\"room\":\"{}\",\"id\":7,\
                     \"body\":\"You joined the room\"}}",
                    name
                )
            ),
            send(
                1,
                &format!(
                    "{{\"type\": \"room_info\", \"room\": \"{}\", \"read_only\": false, \
                     \"extra_info\": null, \"users\": []}}",
                    name
                )
            ),
        ]
    );
    assert!(one.rooms.contains_key(&name));
    assert_eq!(state.rooms.get(&name).unwrap().subscribed(), vec!["one".to_string()]);
}

#[test]
fn joining_is_told_to_the_members_and_lists_them() {
    let mut state = state(vec![PublicChannel {
        read_only: true,
        extra_info: Some("{}".to_string()),
        ..channel("boss_timers")
    }]);
    let mut one = peer(&mut state, "one", 1, false);
    let mut two = peer(&mut state, "two", 2, false);
    let join = request(PayloadKind::Join, "boss_timers");
    handle(&mut state, &mut one, join);
    assert_eq!(
        handle(&mut state, &mut two, join),
        vec![
            send(1, "{\"type\": \"join\", \"room\": \"boss_timers\", \"user\": \"two\"}"),
            Effect::RoomConnections { room: "boss_timers".to_string(), count: 2 },
            answer(2, join.reply_room_join()),
            send(
                2,
                "{\"type\": \"room_info\", \"room\": \"boss_timers\", \"read_only\": true, \
                 \"extra_info\": {}, \"users\": [\"one\"]}"
            ),
        ]
    );
}

#[test]
fn joining_gives_the_ratelimiters_of_the_room() {
    let mut state = state(vec![
        PublicChannel { msg_freq_ratelimit: Some(limit(3)), ..channel("freq") },
        PublicChannel { msg_size_ratelimit: Some(limit(4)), ..channel("size") },
    ]);
    let mut one = peer(&mut state, "one", 1, false);
    handle(&mut state, &mut one, request(PayloadKind::Join, "freq"));
    handle(&mut state, &mut one, request(PayloadKind::Join, "size"));
    let freq = one.rooms.get("freq").unwrap();
    assert_eq!(freq.freq.as_ref().unwrap().leaky().max(), 3);
    assert!(freq.size.is_none());
    let size = one.rooms.get("size").unwrap();
    assert_eq!(size.size.as_ref().unwrap().leaky().max(), 4);
    assert!(size.freq.is_none());
}

#[test]
fn members_have_buckets_of_their_own() {
    let slow = Ratelimit { max_tokens: 9, tokens: 9, refill_amount: 1, refill_millis: 600_000 };
    let limited =
        |name| PublicChannel { msg_size_ratelimit: Some(slow), ..channel(name) };
    let mut state = state(vec![limited("x"), limited("y")]);
    let mut one = peer(&mut state, "one", 1, false);
    let mut two = peer(&mut state, "two", 2, false);
    for room in ["x", "y"] {
        handle(&mut state, &mut one, request(PayloadKind::Join, room));
        handle(&mut state, &mut two, request(PayloadKind::Join, room));
    }
    let bucket = |peer: &Peer, room: &str| {
        peer.rooms.get(room).unwrap().size.as_ref().unwrap().leaky().clone()
    };
    let runtime = tokio::runtime::Builder::new_current_thread().enable_time().build().unwrap();
    runtime.block_on(bucket(&one, "x").acquire(4));
    assert_eq!(bucket(&one, "x").tokens(), 5);
    assert_eq!(bucket(&one, "y").tokens(), 9);
    assert_eq!(bucket(&two, "x").tokens(), 9);
    assert_eq!(bucket(&two, "y").tokens(), 9);
}

#[test]
fn short_rooms_that_are_not_there_cannot_be_joined() {
    let mut state = state(vec![channel("demo_room")]);
    let mut one = peer(&mut state, "one", 1, false);
    let join = request(PayloadKind::Join, "update_notifications");
    assert_eq!(
        handle(&mut state, &mut one, join),
        vec![answer(1, join.reply_room_name_too_short())]
    );
    assert!(one.rooms.keys().is_empty());
    assert_eq!(state.rooms.keys(), vec!["demo_room".to_string()]);
}

#[test]
fn joining_twice_is_refused() {
    let mut state = state(vec![channel("demo_room")]);
    let mut one = peer(&mut state, "one", 1, false);
    let join = request(PayloadKind::Join, "demo_room");
    handle(&mut state, &mut one, join);
    assert_eq!(
        handle(&mut state, &mut one, join),
        vec![answer(1, join.reply_invalid_room())]
    );
    assert_eq!(state.rooms.get("demo_room").unwrap().subscribed(), vec!["one".to_string()]);
}

#[test]
fn leaving_is_told_and_undoes_joining() {
    let mut state = state(vec![channel("demo_room")]);
    let mut one = peer(&mut state, "one", 1, false);
    let mut two = peer(&mut state, "two", 2, false);
    handle(&mut state, &mut one, request(PayloadKind::Join, "demo_room"));
    handle(&mut state, &mut two, request(PayloadKind::Join, "demo_room"));
    let leave = request(PayloadKind::Leave, "demo_room");
    assert_eq!(
        handle(&mut state, &mut two, leave),
        vec![
            send(1, "{\"type\": \"leave\", \"room\": \"demo_room\", \"user\": \"two\"}"),
            Effect::RoomConnections { room: "demo_room".to_string(), count: 1 },
            answer(2, leave.reply_room_leave()),
        ]
    );
    assert!(two.rooms.keys().is_empty());
    assert_eq!(state.rooms.get("demo_room").unwrap().subscribed(), vec!["one".to_string()]);
}

#[test]
fn leaving_a_room_one_is_not_in_is_refused() {
    let mut state = state(vec![channel("demo_room")]);
    let mut one = peer(&mut state, "one", 1, false);
    let leave = request(PayloadKind::Leave, "demo_room");
    assert_eq!(
        handle(&mut state, &mut one, leave),
        vec![answer(1, leave.reply_invalid_room())]
    );
}

#[test]
fn private_rooms_end_with_their_last_member_and_public_ones_do_not() {
    let mut state = state(vec![channel("demo_room")]);
    let mut one = peer(&mut state, "one", 1, false);
    let name = long_name();
    handle(&mut state, &mut one, request(PayloadKind::Join, &name));
    handle(&mut state, &mut one, request(PayloadKind::Join, "demo_room"));
    assert_eq!(state.rooms.keys().len(), 2);
    handle(&mut state, &mut one, request(PayloadKind::Leave, &name));
    handle(&mut state, &mut one, request(PayloadKind::Leave, "demo_room"));
    assert_eq!(state.rooms.keys(), vec!["demo_room".to_string()]);
}

#[test]
fn messages_wait_for_the_ratelimiters_and_reach_the_others() {
    let mut state = state(vec![PublicChannel {
        msg_freq_ratelimit: Some(limit(3)),
        msg_size_ratelimit: Some(limit(400)),
        ..channel("demo_room")
    }]);
    let mut one = peer(&mut state, "one", 1, false);
    let mut two = peer(&mut state, "two", 2, false);
    let mut three = peer(&mut state, "three", 3, false);
    for member in [&mut one, &mut two, &mut three] {
        handle(&mut state, member, request(PayloadKind::Join, "demo_room"));
    }
    let forged = Payload { user: "three", id: Some("\"x\""), ..message("demo_room", "[1, 2]") };
    let handled = one.on_message(&mut state, Some(forged), 123);
    assert_eq!(handled.effects, vec![]);
    let pending = match handled.next {
        Next::Broadcast(pending) => pending,
        _ => panic!("the message has to wait"),
    };
    assert_eq!(pending.room, "demo_room");
    assert_eq!(pending.charges, vec![Charge::Frequency, Charge::Size(123)]);
    assert_eq!(
        pending.text,
        "{\"type\":\"message\",\"room\":\"demo_room\",\"user\":\"one\",\"id\":\"x\",\
         \"body\":[1, 2]}"
    );
    let effects = one.resume(&state, &pending);
    assert_eq!(effects[0], Effect::MessageReceived);
    assert_eq!(effects[1], Effect::MessagesSent { count: 2 });
    assert_eq!(targets(&effects), vec![2, 3]);
    for effect in &effects[2..] {
        assert!(matches!(effect, Effect::Send { text, .. } if *text == pending.text));
    }
}

#[test]
fn messages_to_rooms_one_is_not_in_are_refused() {
    let mut state = state(vec![channel("demo_room")]);
    let mut one = peer(&mut state, "one", 1, false);
    let text = message("demo_room", "1");
    assert_eq!(
        handle(&mut state, &mut one, text),
        vec![answer(1, text.reply_invalid_room())]
    );
}

#[test]
fn only_administrators_write_in_read_only_rooms() {
    let mut state = state(vec![PublicChannel { read_only: true, ..channel("news") }]);
    let mut one = peer(&mut state, "one", 1, false);
    let mut admin = peer(&mut state, "admin", 2, true);
    handle(&mut state, &mut one, request(PayloadKind::Join, "news"));
    handle(&mut state, &mut admin, request(PayloadKind::Join, "news"));
    let text = message("news", "true");
    assert_eq!(
        handle(&mut state, &mut one, text),
        vec![answer(1, text.reply_room_read_only())]
    );
    assert_eq!(
        handle(&mut state, &mut admin, text),
        vec![
            Effect::MessageReceived,
            Effect::MessagesSent { count: 1 },
            send(
                1,
                "{\"type\":\"message\",\"room\":\"news\",\"user\":\"admin\",\"body\":true}"
            ),
        ]
    );
}

#[test]
fn administrators_owe_nothing() {
    let mut state = state(vec![]);
    let one = peer(&mut state, "one", 1, false);
    let admin = peer(&mut state, "admin", 2, true);
    assert_eq!(one.admission(17), vec![Charge::Frequency, Charge::Size(17)]);
    assert_eq!(admin.admission(17), vec![]);
}

#[test]
fn sizes_count_modulo_two_to_the_32() {
    let mut mint = Mint::new();
    let both = Ratelimiters {
        size: Some(constants::get_ratelimiter(&limit(1), &mut mint)),
        freq: Some(constants::get_ratelimiter(&limit(1), &mut mint)),
    };
    assert_eq!(both.send_message(0x1_0000_0005), vec![Charge::Frequency, Charge::Size(5)]);
    let none = Ratelimiters { size: None, freq: None };
    assert_eq!(none.send_message(5), vec![]);
}

#[test]
fn invalid_payloads_are_refused_with_their_id() {
    let mut state = state(vec![]);
    let mut one = peer(&mut state, "one", 1, false);
    let bad = Payload { id: Some("[]"), ..request(PayloadKind::Message, "demo_room") };
    assert_eq!(
        handle(&mut state, &mut one, bad),
        vec![send(
            1,
            "{\"type\":\"error\",\"room\":\"demo_room\",\"id\":[],\
             \"body\":\"Your JSON payload is missing required fields or has a disallowed type\"}"
        )]
    );
    let success = request(PayloadKind::Success, "demo_room");
    assert_eq!(
        handle(&mut state, &mut one, success),
        vec![answer(1, success.reply_invalid_msg())]
    );
}

#[test]
fn data_that_is_no_payload_is_refused() {
    let mut state = state(vec![]);
    let mut one = peer(&mut state, "one", 1, false);
    let handled = one.on_message(&mut state, None, 3);
    assert_eq!(handled.effects, vec![send(1, constants::INVALID_JSON_MSG)]);
    assert!(matches!(handled.next, Next::Continue));
}

#[test]
fn quitting_ends_the_connection() {
    let mut state = state(vec![]);
    let mut one = peer(&mut state, "one", 1, false);
    let handled = one.on_message(&mut state, Some(request(PayloadKind::Quit, "")), 15);
    assert_eq!(handled.effects, vec![]);
    assert!(matches!(handled.next, Next::Quit));
}

#[test]
fn disconnecting_leaves_every_room_and_frees_the_address() {
    let mut state = state(vec![channel("demo_room")]);
    let name = long_name();
    let mut one = peer(&mut state, "one", 1, false);
    let mut two = peer(&mut state, "two", 2, false);
    for member in [&mut one, &mut two] {
        handle(&mut state, member, request(PayloadKind::Join, "demo_room"));
    }
    handle(&mut state, &mut one, request(PayloadKind::Join, &name));
    let effects = one.disconnect(&mut state);
    assert_eq!(effects.len(), 4);
    assert!(effects.contains(&Effect::RoomConnections { room: name.clone(), count: 0 }));
    assert!(effects.contains(&Effect::RoomConnections { room: "demo_room".to_string(), count: 1 }));
    assert!(effects.contains(&send(
        2,
        "{\"type\": \"leave\", \"room\": \"demo_room\", \"user\": \"one\"}"
    )));
    assert_eq!(effects[3], Effect::ConnectionClosed { ip: "1.2.3.4".to_string() });
    assert!(one.rooms.keys().is_empty());
    assert_eq!(state.rooms.keys(), vec!["demo_room".to_string()]);
    assert_eq!(state.rooms.get("demo_room").unwrap().subscribed(), vec!["two".to_string()]);
    assert_eq!(state.connections.get("1.2.3.4").unwrap().connection_count, 1);
    two.disconnect(&mut state);
    assert!(state.connections.keys().is_empty());
}

#[test]
fn rooms_and_peers_agree_through_many_steps() {
    let mut state = state(vec![channel("x"), channel("y")]);
    let private = long_name();
    let rooms = ["x".to_string(), "y".to_string(), private];
    let mut peers: Vec<Peer> =
        (0..4).map(|i| peer(&mut state, &format!("peer{i}"), i, false)).collect();
    let mut step: usize = 1;
    for _ in 0..200 {
        step = (step * 1103 + 12345) % 65536;
        let who = step % 4;
        let room = rooms[step / 4 % 3].clone();
        let kind = if step / 16 % 2 == 0 { PayloadKind::Join } else { PayloadKind::Leave };
        handle(&mut state, &mut peers[who], request(kind, &room));
        for peer in &peers {
            for name in &rooms {
                let member = state
                    .rooms
                    .get(name)
                    .map_or(false, |room| room.subscribed().contains(&peer.id));
                assert_eq!(peer.rooms.contains_key(name), member);
            }
        }
        assert!(state.rooms.contains_key("x") && state.rooms.contains_key("y"));
        if let Some(room) = state.rooms.get(&rooms[2]) {
            assert!(!room.subscribed().is_empty());
        }
    }
    assert_eq!(sorted(state.rooms.keys())[state.rooms.keys().len() - 2..], ["x", "y"]);
}

#[test]
fn everything_that_is_sent_is_json_with_a_type() {
    let mut state = state(vec![PublicChannel {
        extra_info: Some("{\"a\": [1, null]}".to_string()),
        msg_freq_ratelimit: Some(limit(1)),
        ..channel("na\"me\n")
    }]);
    let types = ["hello", "join", "leave", "room_info", "message", "success", "error"];
    let mut one = peer(&mut state, "one", 1, true);
    let mut two = peer(&mut state, "two", 2, true);
    let name = "na\"me\n";
    let mut effects = one.hello(&state);
    for payload in [
        request(PayloadKind::Join, name),
        request(PayloadKind::Join, name),
        request(PayloadKind::Join, "short"),
        request(PayloadKind::Error, name),
        message(name, " {\"deep\": [true]} "),
        message("elsewhere", "0"),
        request(PayloadKind::Leave, name),
        request(PayloadKind::Leave, name),
    ] {
        effects.append(&mut handle(&mut state, &mut one, payload));
        effects.append(&mut handle(&mut state, &mut two, payload));
    }
    effects.append(&mut one.on_message(&mut state, None, 1).effects);
    let mut sent = 0;
    for effect in &effects {
        if let Effect::Send { text, .. } = effect {
            let value: serde_json::Value = serde_json::from_str(text).unwrap();
            assert!(types.contains(&value["type"].as_str().unwrap()));
            sent += 1;
        }
    }
    assert!(sent > 15);
}
