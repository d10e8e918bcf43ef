use argon2::password_hash::{PasswordHasher, SaltString};
use highway::config::Config;
use highway::effect::Effect;
use highway::endpoint::{
    accept_digest, accept_key, answer_handshake, answer_request, check_admin, check_request,
    forwarded_client, has_too_many_threads, http_handler, read_header, websocket_endpoint_handler,
    Body, Checks, Fault, HttpRequest, Reply,
};
use highway::state::GlobalState;

const README_HASH: &str = "$argon2id$v=19$m=4096,t=3,p=1$aGlnaHdheWlzc3VwcmVtZQ$KppnM084YRY1MkzMPteCzn+QF30mwFl9qIuwHUOsGfE";

fn request(path: &str) -> HttpRequest {
    HttpRequest {
        method: "GET".to_string(),
        path: path.to_string(),
        remote_ip: "10.0.0.1".to_string(),
        forwarded_ip: None,
        authorization: None,
        upgrade: None,
        websocket_key: None,
        user_agent: None,
    }
}

fn upgrade() -> HttpRequest {
    HttpRequest {
        upgrade: Some(b"websocket".to_vec()),
        websocket_key: Some(b"dGhlIHNhbXBsZSBub25jZQ==".to_vec()),
        user_agent: Some(b"curl/8.0".to_vec()),
        ..request("/")
    }
}

fn state(config: Config) -> GlobalState {
    GlobalState::new(config)
}

fn header<'a>(reply: &'a Reply, name: &str) -> Option<&'a str> {
    reply.headers.iter().find(|h| h.0 == name).map(|h| h.1.as_str())
}

/// A hash of the given password, as the configuration has it.
fn hash_of(password: &[u8]) -> String {
    let salt = SaltString::from_b64("aGlnaHdheWlzc3VwcmVtZQ").unwrap();
    argon2::Argon2::default().hash_password(password, &salt).unwrap().to_string()
}

#[test]
fn websocket_keys_are_answered() {
    assert_eq!(
        accept_key(&b"dGhlIHNhbXBsZSBub25jZQ==".to_vec()),
        "s3pPLMBiTxaQ9kYGzzhZRbK+xOo="
    );
    assert_ne!(accept_key(&b"".to_vec()), accept_key(&b"a".to_vec()));
}

#[test]
fn digests_are_written_in_base64() {
    assert_eq!(accept_digest(&vec![0; 20]), "AAAAAAAAAAAAAAAAAAAAAAAAAAA=");
    assert_eq!(accept_digest(&vec![255; 20]), "//////////////////////////8=");
    assert_eq!(accept_digest(&(0..20).collect()), "AAECAwQFBgcICQoLDA0ODxAREhM=");
}

#[test]
fn headers_are_text_where_they_are_visible_ascii() {
    assert_eq!(read_header(&b"a b\t~".to_vec()), Some("a b\t~".to_string()));
    assert_eq!(read_header(&vec![]), Some(String::new()));
    assert_eq!(read_header(&vec![127]), None);
    assert_eq!(read_header(&vec![10]), None);
    assert_eq!(read_header(&vec![97, 200]), None);
}

#[test]
fn proxies_name_the_client_first() {
    let list = b" 1.2.3.4\t, 5.6.7.8".to_vec();
    assert_eq!(forwarded_client(true, Some(&list)), Some("1.2.3.4".to_string()));
    assert_eq!(forwarded_client(false, Some(&list)), None);
    assert_eq!(forwarded_client(true, None), None);
    assert_eq!(forwarded_client(true, Some(&b"::1".to_vec())), Some("::1".to_string()));
    assert_eq!(forwarded_client(true, Some(&b",x".to_vec())), Some(String::new()));
    assert_eq!(forwarded_client(true, Some(&vec![200])), None);
}

#[test]
fn a_handshake_opens_a_websocket() {
    let mut state = state(Config::default());
    let reply = http_handler(&mut state, &upgrade(), "1.2.3").unwrap();
    assert_eq!(reply.status, 101);
    assert_eq!(header(&reply, "connection"), Some("Upgrade"));
    assert_eq!(header(&reply, "upgrade"), Some("websocket"));
    assert_eq!(header(&reply, "sec-websocket-accept"), Some("s3pPLMBiTxaQ9kYGzzhZRbK+xOo="));
    assert_eq!(header(&reply, "sec-websocket-version"), Some("13"));
    assert_eq!(header(&reply, "x-highway-version"), Some("1.2.3"));
    assert_eq!(reply.headers.len(), 5);
    assert_eq!(reply.body, Body::Empty);
    let admission = reply.admission.unwrap();
    assert_eq!(admission.ip, "10.0.0.1");
    assert_eq!(admission.agent, Some("curl/8.0".to_string()));
    assert!(!admission.is_admin);
    assert_eq!(admission.accept, "s3pPLMBiTxaQ9kYGzzhZRbK+xOo=");
    assert_eq!(
        reply.effects,
        vec![
            Effect::ConnectionOpened { ip: "10.0.0.1".to_string() },
            Effect::AgentConnected { agent: "curl/8.0".to_string() },
        ]
    );
    assert_eq!(state.connections.get("10.0.0.1").unwrap().connection_count, 1);
}

#[test]
fn the_address_is_the_one_that_the_proxy_names() {
    let mut state = state(Config { behind_proxy: true, ..Config::default() });
    let request = HttpRequest { forwarded_ip: Some("9.9.9.9".to_string()), ..upgrade() };
    let reply = websocket_endpoint_handler(&mut state, &request).unwrap();
    assert_eq!(reply.admission.unwrap().ip, "9.9.9.9");
    assert!(!state.connections.contains_key("10.0.0.1"));
    let reply = websocket_endpoint_handler(&mut state, &upgrade()).unwrap();
    assert_eq!(reply.admission.unwrap().ip, "10.0.0.1");
}

#[test]
fn without_a_proxy_the_forwarded_address_counts_for_nothing() {
    let mut state = state(Config::default());
    let request = HttpRequest { forwarded_ip: Some("9.9.9.9".to_string()), ..upgrade() };
    let reply = http_handler(&mut state, &request, "1.2.3").unwrap();
    assert_eq!(reply.admission.unwrap().ip, "10.0.0.1");
    assert!(!state.connections.contains_key("9.9.9.9"));
}

#[test]
fn only_requests_for_a_websocket_are_looked_into() {
    let hash = Some("no hash".to_string());
    let with = |request| HttpRequest { authorization: Some(b"x".to_vec()), ..request };
    let checks = check_request(&with(upgrade()), &hash);
    assert_eq!(checks.from_admin, None);
    assert_eq!(checks.accept, Some("s3pPLMBiTxaQ9kYGzzhZRbK+xOo=".to_string()));
    let checks = check_request(&with(request("/metrics")), &hash);
    assert_eq!(checks.from_admin, Some(false));
    assert_eq!(checks.accept, None);
}

#[test]
fn requests_are_answered_by_what_was_looked_up() {
    let mut state = state(Config::default());
    let checks = Checks { from_admin: Some(true), accept: Some("accepted".to_string()) };
    let reply = answer_request(&mut state, &upgrade(), checks, "1.2.3").unwrap();
    assert_eq!(reply.status, 101);
    assert!(reply.admission.as_ref().unwrap().is_admin);
    assert_eq!(header(&reply, "sec-websocket-accept"), Some("accepted"));
    assert_eq!(header(&reply, "x-highway-version"), Some("1.2.3"));
}

#[test]
fn hashes_with_too_many_threads_fit_no_password() {
    let with_threads = |p: &str| README_HASH.replace("p=1$", &format!("p={p}$"));
    assert!(has_too_many_threads(&with_threads("536870912")));
    assert!(has_too_many_threads(&with_threads("4294967295")));
    assert!(has_too_many_threads("p=000000000"));
    assert!(!has_too_many_threads(&with_threads("99999999")));
    assert!(!has_too_many_threads(README_HASH));
    assert!(!has_too_many_threads("p=12345678x9"));
    assert!(!has_too_many_threads("p=12345678"));
    assert!(!has_too_many_threads(""));
    let request = HttpRequest { authorization: Some(b"x".to_vec()), ..upgrade() };
    assert_eq!(check_admin(&request, &Some(with_threads("536870912"))), Some(false));
    assert_eq!(check_admin(&request, &Some(with_threads("99999999"))), Some(false));
}

#[test]
fn handshakes_without_the_headers_are_bad_requests() {
    let mut state = state(Config::default());
    for request in [
        request("/"),
        HttpRequest { upgrade: None, ..upgrade() },
        HttpRequest { websocket_key: None, ..upgrade() },
        HttpRequest { upgrade: Some(b"WebSocket".to_vec()), ..upgrade() },
        HttpRequest { upgrade: Some(b"h2c".to_vec()), ..upgrade() },
    ] {
        let reply = http_handler(&mut state, &request, "1.2.3").unwrap();
        assert_eq!(reply.status, 400);
        assert_eq!(reply.headers, vec![("x-highway-version".to_string(), "1.2.3".to_string())]);
        assert!(reply.admission.is_none());
        assert_eq!(reply.effects, vec![]);
    }
    assert!(state.connections.keys().is_empty());
}

#[test]
fn an_upgrade_header_that_is_no_text_is_a_fault() {
    let mut state = state(Config::default());
    let request = HttpRequest { upgrade: Some(vec![200]), ..upgrade() };
    assert_eq!(
        websocket_endpoint_handler(&mut state, &request).err(),
        Some(Fault::UnreadableUpgrade)
    );
}

#[test]
fn a_password_hash_that_is_none_is_a_fault() {
    let config = Config { admin_password_hash: Some("secret".to_string()), ..Config::default() };
    let mut state = state(config);
    let request = HttpRequest { authorization: Some(b"secret".to_vec()), ..upgrade() };
    assert_eq!(
        http_handler(&mut state, &request, "1.2.3").err(),
        Some(Fault::UnreadablePasswordHash)
    );
    assert!(http_handler(&mut state, &upgrade(), "1.2.3").is_ok());
}

#[test]
fn too_many_connections_are_forbidden() {
    let mut state = state(Config { connections_per_ip: 1, ..Config::default() });
    assert_eq!(http_handler(&mut state, &upgrade(), "1.2.3").unwrap().status, 101);
    let reply = http_handler(&mut state, &upgrade(), "1.2.3").unwrap();
    assert_eq!(reply.status, 403);
    assert!(reply.admission.is_none());
    assert_eq!(header(&reply, "x-highway-version"), Some("1.2.3"));
    assert_eq!(state.connections.get("10.0.0.1").unwrap().connection_count, 1);
}

#[test]
fn the_password_makes_an_administrator() {
    let hash = Some(hash_of(b"open sesame"));
    let with = |password: &[u8]| HttpRequest { authorization: Some(password.to_vec()), ..upgrade() };
    assert_eq!(check_admin(&with(b"open sesame"), &hash), Some(true));
    assert_eq!(check_admin(&with(b"open"), &hash), Some(false));
    assert_eq!(check_admin(&upgrade(), &hash), Some(false));
    assert_eq!(check_admin(&with(b"open sesame"), &None), Some(false));
    assert_eq!(check_admin(&with(b"x"), &Some("no hash".to_string())), None);
    assert_eq!(check_admin(&with(b"x"), &Some(README_HASH.to_string())), Some(false));
    let mut state = state(Config { admin_password_hash: hash, ..Config::default() });
    let reply = websocket_endpoint_handler(&mut state, &with(b"open sesame")).unwrap();
    assert!(reply.admission.unwrap().is_admin);
    let reply = websocket_endpoint_handler(&mut state, &with(b"open")).unwrap();
    assert!(!reply.admission.unwrap().is_admin);
}

#[test]
fn handshakes_go_by_what_the_checks_say() {
    let mut state = state(Config::default());
    let accept = || Some("accepted".to_string());
    let reply = answer_handshake(&mut state, &upgrade(), Some(true), accept()).unwrap();
    assert!(reply.admission.as_ref().unwrap().is_admin);
    assert_eq!(header(&reply, "sec-websocket-accept"), Some("accepted"));
    assert_eq!(
        answer_handshake(&mut state, &upgrade(), None, accept()).err(),
        Some(Fault::UnreadablePasswordHash)
    );
    let reply = answer_handshake(&mut state, &upgrade(), Some(false), None).unwrap();
    assert_eq!(reply.status, 400);
}

#[test]
fn metrics_are_for_everyone_without_a_token() {
    let mut state = state(Config::default());
    let reply = http_handler(&mut state, &request("/metrics"), "1.2.3").unwrap();
    assert_eq!(reply.status, 200);
    assert_eq!(reply.body, Body::Metrics);
    assert_eq!(header(&reply, "x-highway-version"), Some("1.2.3"));
}

#[test]
fn metrics_are_behind_the_token() {
    let config = Config { metrics_token: Some("supersecret".to_string()), ..Config::default() };
    let mut state = state(config);
    for authorization in [None, Some(b"wrong".to_vec()), Some(b"supersecre".to_vec())] {
        let request = HttpRequest { authorization, ..request("/metrics") };
        let reply = http_handler(&mut state, &request, "1.2.3").unwrap();
        assert_eq!(reply.status, 403);
        assert_eq!(reply.body, Body::Empty);
        assert_eq!(header(&reply, "x-highway-version"), Some("1.2.3"));
    }
    let request =
        HttpRequest { authorization: Some(b"supersecret".to_vec()), ..request("/metrics") };
    let reply = http_handler(&mut state, &request, "1.2.3").unwrap();
    assert_eq!(reply.status, 200);
    assert_eq!(reply.body, Body::Metrics);
}

#[test]
fn other_paths_and_methods_are_not_found() {
    let mut state = state(Config::default());
    for request in [
        request("/elsewhere"),
        HttpRequest { method: "POST".to_string(), ..upgrade() },
        HttpRequest { method: "POST".to_string(), ..request("/metrics") },
    ] {
        let reply = http_handler(&mut state, &request, "1.2.3").unwrap();
        assert_eq!(reply.status, 404);
        assert_eq!(header(&reply, "x-highway-version"), Some("1.2.3"));
    }
}
