use highway::config::{Config, PublicChannel, Ratelimit};
use highway::effect::Effect;
use highway::room::{deliver, other_members, retell, room_info, Room, RoomMetaData};
use highway::state::{greeting, GlobalState};

fn long_name() -> String {
    "a".repeat(32)
}

fn plain() -> RoomMetaData {
    RoomMetaData {
        read_only: false,
        extra_info: None,
        msg_freq_ratelimit: None,
        msg_size_ratelimit: None,
    }
}

fn channel(name: &str) -> PublicChannel {
    PublicChannel {
        name: name.to_string(),
        read_only: false,
        extra_info: None,
        msg_freq_ratelimit: None,
        msg_size_ratelimit: None,
    }
}

fn limit(n: u32) -> Ratelimit {
    Ratelimit { max_tokens: n, tokens: n, refill_amount: n, refill_millis: 10000 }
}

fn members() -> Vec<(String, u64)> {
    vec![("a".to_string(), 1), ("b".to_string(), 2), ("c".to_string(), 3)]
}

fn send(to: u64, text: &str) -> Effect {
    Effect::Send { to, text: text.to_string() }
}

fn sorted(mut ids: Vec<String>) -> Vec<String> {
    ids.sort();
    ids
}

#[test]
fn room_infos_tell_what_a_room_is_like() {
    assert_eq!(
        room_info(
            "boss_timers",
            &RoomMetaData { read_only: true, ..plain() },
            &vec!["6b8802d9-1bf8-4489-866b-9c197b8ebffc".to_string()]
        ),
        "{\"type\": \"room_info\", \"room\": \"boss_timers\", \"read_only\": true, \
         \"extra_info\": null, \"users\": [\"6b8802d9-1bf8-4489-866b-9c197b8ebffc\"]}"
    );
    let metadata = RoomMetaData {
        extra_info: Some("{ \"hello\": \"world\" }".to_string()),
        msg_freq_ratelimit: Some(limit(1)),
        msg_size_ratelimit: Some(limit(2)),
        ..plain()
    };
    assert_eq!(
        room_info("demo_room", &metadata, &vec!["x".to_string(), "y".to_string()]),
        "{\"type\": \"room_info\", \"room\": \"demo_room\", \"read_only\": false, \
         \"extra_info\": { \"hello\": \"world\" }, \
         \"msg_freq_ratelimit\": {\"max_tokens\": 1, \"tokens\": 1, \"refill_amount\": 1, \
         \"refill_millis\": 10000}, \
         \"msg_size_ratelimit\": {\"max_tokens\": 2, \"tokens\": 2, \"refill_amount\": 2, \
         \"refill_millis\": 10000}, \"users\": [\"x\", \"y\"]}"
    );
}

#[test]
fn room_infos_leave_out_ratelimits_that_are_not_there() {
    let freq = RoomMetaData { msg_freq_ratelimit: Some(limit(1)), ..plain() };
    let size = RoomMetaData { msg_size_ratelimit: Some(limit(1)), ..plain() };
    let none: Vec<String> = vec![];
    assert!(room_info("r", &freq, &none).contains("msg_freq_ratelimit"));
    assert!(!room_info("r", &freq, &none).contains("msg_size_ratelimit"));
    assert!(room_info("r", &size, &none).contains("msg_size_ratelimit"));
    assert!(!room_info("r", &size, &none).contains("msg_freq_ratelimit"));
}

#[test]
fn room_names_with_quotes_give_json() {
    let text = room_info("say \"hi\"", &plain(), &vec![]);
    let value: serde_json::Value = serde_json::from_str(&text).unwrap();
    assert_eq!(value["room"], "say \"hi\"");
}

#[test]
fn metadata_is_compared_by_what_it_says() {
    let one = RoomMetaData { extra_info: Some("1".to_string()), ..plain() };
    let same = RoomMetaData { extra_info: Some("1".to_string()), ..plain() };
    let other = RoomMetaData { extra_info: Some("2".to_string()), ..plain() };
    assert!(one == same);
    assert!(one != other);
    assert!(one != plain());
    assert!(plain() != RoomMetaData { read_only: true, ..plain() });
    assert!(plain() != RoomMetaData { msg_freq_ratelimit: Some(limit(1)), ..plain() });
    assert!(plain() != RoomMetaData { msg_size_ratelimit: Some(limit(1)), ..plain() });
}

#[test]
fn a_text_goes_to_all_but_its_author() {
    assert_eq!(deliver(&members(), "x", Some("b")), vec![send(1, "x"), send(3, "x")]);
    assert_eq!(
        deliver(&members(), "x", None),
        vec![send(1, "x"), send(2, "x"), send(3, "x")]
    );
    assert_eq!(deliver(&vec![], "x", None), vec![]);
}

#[test]
fn others_are_all_but_one() {
    assert_eq!(
        other_members(&members(), &"b".to_string()),
        vec!["a".to_string(), "c".to_string()]
    );
    assert_eq!(other_members(&members(), &"z".to_string()).len(), 3);
}

#[test]
fn members_are_told_about_each_other() {
    let two = vec![("a".to_string(), 1), ("b".to_string(), 2)];
    assert_eq!(
        retell(&two, "r", &plain()),
        vec![
            send(1, &room_info("r", &plain(), &vec!["b".to_string()])),
            send(2, &room_info("r", &plain(), &vec!["a".to_string()])),
        ]
    );
}

#[test]
fn coming_is_told_to_those_who_are_there() {
    let mut room = Room::new(long_name(), false, None, None, None);
    assert_eq!(room.name(), &long_name());
    assert_eq!(
        room.subscribe("one", 1),
        vec![Effect::RoomConnections { room: long_name(), count: 1 }]
    );
    assert_eq!(
        room.subscribe("two", 2),
        vec![
            send(
                1,
                &format!("{{\"type\": \"join\", \"room\": \"{}\", \"user\": \"two\"}}", long_name())
            ),
            Effect::RoomConnections { room: long_name(), count: 2 },
        ]
    );
    assert_eq!(sorted(room.subscribed()), vec!["one".to_string(), "two".to_string()]);
}

#[test]
fn leaving_is_told_to_those_who_stay() {
    let mut room = Room::new(long_name(), false, None, None, None);
    room.subscribe("one", 1);
    room.subscribe("two", 2);
    let (effects, abandoned) = room.unsubscribe("two");
    assert_eq!(
        effects,
        vec![
            send(
                1,
                &format!(
                    "{{\"type\": \"leave\", \"room\": \"{}\", \"user\": \"two\"}}",
                    long_name()
                )
            ),
            Effect::RoomConnections { room: long_name(), count: 1 },
        ]
    );
    assert!(!abandoned);
    let (effects, abandoned) = room.unsubscribe("one");
    assert_eq!(effects, vec![Effect::RoomConnections { room: long_name(), count: 0 }]);
    assert!(abandoned);
}

#[test]
fn rooms_with_short_names_are_never_abandoned() {
    let mut room = Room::new("demo_room".to_string(), false, None, None, None);
    room.subscribe("one", 1);
    let (_, abandoned) = room.unsubscribe("one");
    assert!(!abandoned);
}

#[test]
fn configured_rooms_are_never_abandoned() {
    let mut room = Room::new(long_name(), true, None, None, None);
    assert!(!room.is_public());
    room.publish();
    assert!(room.is_public());
    room.subscribe("one", 1);
    let (_, abandoned) = room.unsubscribe("one");
    assert!(!abandoned);
}

#[test]
fn broadcasts_are_counted_where_they_have_an_author() {
    let mut room = Room::new("r".to_string(), false, None, None, None);
    room.subscribe("one", 1);
    room.subscribe("two", 2);
    assert_eq!(
        room.broadcast("hi", Some("one")),
        vec![
            Effect::MessageReceived,
            Effect::MessagesSent { count: 1 },
            send(2, "hi"),
        ]
    );
    let mut told = room.broadcast("hi", None);
    told.sort_by_key(|e| match e {
        Effect::Send { to, .. } => *to,
        _ => 0,
    });
    assert_eq!(told, vec![send(1, "hi"), send(2, "hi")]);
}

#[test]
fn a_changed_room_is_told_to_its_members() {
    let mut room = Room::new("r".to_string(), false, None, None, None);
    room.subscribe("one", 1);
    room.set_metadata(RoomMetaData { read_only: true, ..plain() });
    assert!(room.metadata().read_only);
    assert_eq!(
        room.resend_room_info(),
        vec![send(
            1,
            "{\"type\": \"room_info\", \"room\": \"r\", \"read_only\": true, \
             \"extra_info\": null, \"users\": []}"
        )]
    );
}

#[test]
fn the_configured_rooms_are_there_at_the_start() {
    let config = Config {
        public_channels: vec![channel("one"), PublicChannel { read_only: true, ..channel("two") }],
        ..Config::default()
    };
    let state = GlobalState::new(config);
    assert_eq!(sorted(state.rooms.keys()), vec!["one".to_string(), "two".to_string()]);
    assert!(!state.rooms.get("one").unwrap().metadata().read_only);
    assert!(state.rooms.get("two").unwrap().metadata().read_only);
    assert!(state.config.public_channels.is_empty());
}

#[test]
fn of_two_channels_of_one_name_the_later_counts() {
    let config = Config {
        public_channels: vec![PublicChannel { read_only: true, ..channel("one") }, channel("one")],
        ..Config::default()
    };
    let state = GlobalState::new(config);
    assert_eq!(state.rooms.keys().len(), 1);
    assert!(!state.rooms.get("one").unwrap().metadata().read_only);
}

#[test]
fn connections_are_limited_for_each_address() {
    let mut state = GlobalState::new(Config { connections_per_ip: 2, ..Config::default() });
    let (first, effects) = state.client_connected("1.2.3.4", Some("curl".to_string()));
    assert!(first);
    assert_eq!(
        effects,
        vec![
            Effect::ConnectionOpened { ip: "1.2.3.4".to_string() },
            Effect::AgentConnected { agent: "curl".to_string() },
        ]
    );
    assert!(state.client_connected("1.2.3.4", None).0);
    let (third, effects) = state.client_connected("1.2.3.4", Some("curl".to_string()));
    assert!(!third);
    assert_eq!(effects, vec![]);
    assert!(state.client_connected("1.2.3.5", None).0);
    assert_eq!(state.connections.get("1.2.3.4").unwrap().connection_count, 2);
    assert_eq!(state.connections.get("1.2.3.5").unwrap().connection_count, 1);
}

#[test]
fn a_limit_of_zero_lets_nobody_in() {
    let mut state = GlobalState::new(Config { connections_per_ip: 0, ..Config::default() });
    assert!(!state.client_connected("1.2.3.4", None).0);
    assert!(state.connections.keys().is_empty());
}

#[test]
fn closing_a_connection_undoes_opening_it() {
    let mut state = GlobalState::new(Config { connections_per_ip: 2, ..Config::default() });
    state.client_connected("1.2.3.4", None);
    state.client_connected("1.2.3.4", Some("curl".to_string()));
    assert_eq!(
        state.client_disconnected("1.2.3.4", Some("curl".to_string())),
        vec![
            Effect::ConnectionClosed { ip: "1.2.3.4".to_string() },
            Effect::AgentDisconnected { agent: "curl".to_string() },
        ]
    );
    assert_eq!(state.connections.get("1.2.3.4").unwrap().connection_count, 1);
    assert_eq!(
        state.client_disconnected("1.2.3.4", None),
        vec![Effect::ConnectionClosed { ip: "1.2.3.4".to_string() }]
    );
    assert!(!state.connections.contains_key("1.2.3.4"));
}

#[test]
fn all_connections_of_an_address_share_its_ratelimiters() {
    let mut state = GlobalState::new(Config::default());
    state.client_connected("1.2.3.4", None);
    let client = state.connections.get("1.2.3.4").unwrap();
    assert_eq!(client.ratelimiters.freq.as_ref().unwrap().leaky().max(), 10);
    assert_eq!(client.ratelimiters.size.as_ref().unwrap().leaky().max(), 5_242_880);
}

#[test]
fn reloading_changes_rooms_and_tells_their_members() {
    let config = Config { public_channels: vec![channel("one"), channel("two")], ..Config::default() };
    let mut state = GlobalState::new(config);
    state.subscribe("one", "peer", 7);
    state.subscribe("two", "peer", 7);
    let channels = vec![
        PublicChannel { extra_info: Some("[1]".to_string()), ..channel("one") },
        channel("two"),
        channel("three"),
    ];
    assert_eq!(
        state.reload(&channels),
        vec![send(
            7,
            "{\"type\": \"room_info\", \"room\": \"one\", \"read_only\": false, \
             \"extra_info\": [1], \"users\": []}"
        )]
    );
    assert_eq!(
        sorted(state.rooms.keys()),
        vec!["one".to_string(), "three".to_string(), "two".to_string()]
    );
    assert_eq!(state.rooms.get("one").unwrap().subscribed(), vec!["peer".to_string()]);
}

#[test]
fn reloading_the_same_twice_is_silent() {
    let mut state = GlobalState::new(Config::default());
    let channels = vec![PublicChannel { read_only: true, ..channel("one") }];
    assert_eq!(state.reload(&channels), vec![]);
    state.subscribe("one", "peer", 7);
    assert_eq!(state.reload(&channels), vec![]);
    assert!(state.rooms.get("one").unwrap().metadata().read_only);
}

#[test]
fn reloading_keeps_rooms_that_are_not_listed() {
    let config = Config { public_channels: vec![channel("one")], ..Config::default() };
    let mut state = GlobalState::new(config);
    state.subscribe("one", "peer", 7);
    assert_eq!(state.reload(&vec![]), vec![]);
    assert_eq!(state.rooms.get("one").unwrap().subscribed(), vec!["peer".to_string()]);
}

#[test]
fn greetings_name_the_public_rooms_and_the_limits() {
    let config = Config {
        msg_freq_ratelimit: Ratelimit {
            max_tokens: 100_000,
            tokens: 10,
            refill_amount: 10,
            refill_millis: 1000,
        },
        msg_size_ratelimit: Ratelimit {
            max_tokens: 5_242_880,
            tokens: 5_242_880,
            refill_amount: 524_288,
            refill_millis: 1000,
        },
        ..Config::default()
    };
    let mut state = GlobalState::new(Config {
        public_channels: vec![channel("boss_timers"), channel("update_notifications")],
        ..Config::default()
    });
    state.subscribe(&long_name(), "peer", 1);
    let names =
        vec!["boss_timers".to_string(), long_name(), "update_notifications".to_string()];
    assert_eq!(
        greeting(&state.rooms, &names, &config),
        "{\"type\": \"hello\", \"public_rooms\": [\"boss_timers\", \"update_notifications\"], \
         \"config\": {\"connections_per_ip\": 50, \
         \"msg_freq_ratelimit\": {\"max_tokens\": 100000, \"tokens\": 10, \
         \"refill_amount\": 10, \"refill_millis\": 1000}, \
         \"msg_size_ratelimit\": {\"max_tokens\": 5242880, \"tokens\": 5242880, \
         \"refill_amount\": 524288, \"refill_millis\": 1000}, \
         \"max_message_size\": 1048576}}"
    );
}

#[test]
fn a_server_without_rooms_greets_with_an_empty_list() {
    let state = GlobalState::new(Config::default());
    assert!(state.hello().contains("\"public_rooms\": [], "));
    let mut with_private = state;
    with_private.subscribe(&long_name(), "peer", 1);
    assert!(with_private.hello().contains("\"public_rooms\": [], "));
}

#[test]
fn greetings_list_configured_rooms_with_long_names() {
    let config = Config { public_channels: vec![channel(&long_name())], ..Config::default() };
    let state = GlobalState::new(config);
    assert!(state.hello().contains(&format!("\"public_rooms\": [\"{}\"], ", long_name())));
}

#[test]
fn a_private_room_can_become_public() {
    let mut state = GlobalState::new(Config::default());
    state.subscribe(&long_name(), "peer", 1);
    assert!(!state.rooms.get(&long_name()).unwrap().is_public());
    assert_eq!(state.reload(&vec![channel(&long_name())]), vec![]);
    assert!(state.rooms.get(&long_name()).unwrap().is_public());
    state.unsubscribe(&long_name(), "peer");
    assert!(state.rooms.contains_key(&long_name()));
}

#[test]
fn a_configured_room_stays_what_it_is_without_members() {
    let config = Config {
        public_channels: vec![PublicChannel { read_only: true, ..channel(&long_name()) }],
        ..Config::default()
    };
    let mut state = GlobalState::new(config);
    state.subscribe(&long_name(), "peer", 1);
    state.unsubscribe(&long_name(), "peer");
    assert!(state.rooms.get(&long_name()).unwrap().metadata().read_only);
}

#[test]
fn each_member_of_a_changed_room_is_told_once() {
    let config = Config { public_channels: vec![channel("one"), channel("two")], ..Config::default() };
    let mut state = GlobalState::new(config);
    for (id, sender) in [("a", 1), ("b", 2), ("c", 3)] {
        state.subscribe("one", id, sender);
        state.subscribe("two", id, sender);
    }
    let effects = state.reload(&vec![
        PublicChannel { read_only: true, ..channel("one") },
        channel("two"),
    ]);
    assert_eq!(effects.len(), 3);
    for (id, sender) in [("a", 1), ("b", 2), ("c", 3)] {
        let told: Vec<&Effect> =
            effects.iter().filter(|e| matches!(e, Effect::Send { to, .. } if *to == sender)).collect();
        assert_eq!(told.len(), 1);
        assert!(matches!(told[0], Effect::Send { text, .. } if !text.contains(&format!("\"{id}\""))));
    }
}

#[test]
fn an_address_keeps_its_buckets() {
    let mut state = GlobalState::new(Config::default());
    state.client_connected("1.2.3.4", None);
    let first = state.connections.get("1.2.3.4").unwrap().ratelimiters.clone();
    state.client_connected("1.2.3.4", None);
    let second = state.connections.get("1.2.3.4").unwrap().ratelimiters.clone();
    assert!(std::sync::Arc::ptr_eq(&first, &second));
    state.client_disconnected("1.2.3.4", None);
    let third = state.connections.get("1.2.3.4").unwrap().ratelimiters.clone();
    assert!(std::sync::Arc::ptr_eq(&first, &third));
}

#[test]
fn addresses_have_buckets_of_their_own() {
    let slow = Ratelimit { max_tokens: 9, tokens: 9, refill_amount: 1, refill_millis: 600_000 };
    let mut state = GlobalState::new(Config {
        msg_freq_ratelimit: slow,
        msg_size_ratelimit: slow,
        ..Config::default()
    });
    state.client_connected("1.2.3.4", None);
    state.client_connected("1.2.3.5", None);
    let one = state.connections.get("1.2.3.4").unwrap().ratelimiters.clone();
    let other = state.connections.get("1.2.3.5").unwrap().ratelimiters.clone();
    let runtime = tokio::runtime::Builder::new_current_thread().enable_time().build().unwrap();
    runtime.block_on(one.freq.as_ref().unwrap().leaky().acquire(4));
    assert_eq!(one.freq.as_ref().unwrap().leaky().tokens(), 5);
    assert_eq!(one.size.as_ref().unwrap().leaky().tokens(), 9);
    assert_eq!(other.freq.as_ref().unwrap().leaky().tokens(), 9);
    assert_eq!(other.size.as_ref().unwrap().leaky().tokens(), 9);
}
