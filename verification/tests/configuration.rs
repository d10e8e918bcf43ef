use highway::config::{
    concerns_config, config_file, config_text, default_behind_proxy, default_connections_per_ip,
    default_max_message_size, default_msg_freq, default_msg_size, default_port, watched_directory,
    Config, Ratelimit,
};
use highway::constants::get_ratelimiter;
use highway::ratelimit::Mint;

#[test]
fn the_defaults_are_sensible() {
    let config = Config::default();
    assert_eq!(config.port, 3333);
    assert_eq!(config.connections_per_ip, 50);
    assert_eq!(config.msg_freq_ratelimit, default_msg_freq());
    assert_eq!(config.msg_size_ratelimit, default_msg_size());
    assert_eq!(config.max_message_size, 1_048_576);
    assert_eq!(config.admin_password_hash, None);
    assert!(config.public_channels.is_empty());
    assert!(!config.behind_proxy);
    assert_eq!(config.metrics_token, None);
    assert_eq!(default_port(), 3333);
    assert_eq!(default_connections_per_ip(), 50);
    assert_eq!(default_max_message_size(), 1_048_576);
    assert!(!default_behind_proxy());
}

#[test]
fn default_ratelimits_are_ten_messages_a_second_and_five_megabytes_in_ten() {
    let freq = default_msg_freq();
    assert_eq!(freq.refill_amount as u64 * 1000 / freq.refill_millis, 10);
    let size = default_msg_size();
    assert_eq!(size.refill_amount, 5 * 1024 * 1024);
    assert_eq!(size.refill_millis, 10_000);
}

#[test]
fn ratelimits_are_written_as_json() {
    let limit = Ratelimit {
        max_tokens: 5_242_880,
        tokens: 10,
        refill_amount: 524_288,
        refill_millis: 1000,
    };
    assert_eq!(
        limit.to_json(),
        "{\"max_tokens\": 5242880, \"tokens\": 10, \"refill_amount\": 524288, \
         \"refill_millis\": 1000}"
    );
}

#[test]
fn buckets_are_made_with_the_ratelimit() {
    let limit = Ratelimit { max_tokens: 7, tokens: 3, refill_amount: 2, refill_millis: 600_000 };
    let bucket = get_ratelimiter(&limit, &mut Mint::new());
    let bucket = bucket.leaky();
    assert_eq!(bucket.max(), 7);
    assert_eq!(bucket.tokens(), 3);
    let wait = bucket.next_refill() - tokio::time::Instant::now();
    assert!(wait > std::time::Duration::from_millis(500_000));
    assert!(wait <= std::time::Duration::from_millis(600_000));
}

#[test]
fn global_buckets_follow_the_configuration() {
    let config = Config::default();
    let mut mint = Mint::new();
    assert_eq!(config.get_global_freq_ratelimiter(&mut mint).leaky().max(), 10);
    assert_eq!(config.get_global_size_ratelimiter(&mut mint).leaky().max(), 5_242_880);
}

#[test]
fn buckets_are_independent_of_each_other() {
    let limit = Ratelimit { max_tokens: 7, tokens: 7, refill_amount: 1, refill_millis: 600_000 };
    let mut mint = Mint::new();
    let one = get_ratelimiter(&limit, &mut mint);
    let other = get_ratelimiter(&limit, &mut mint);
    let runtime = tokio::runtime::Builder::new_current_thread().enable_time().build().unwrap();
    runtime.block_on(one.leaky().acquire(5));
    assert_eq!(one.leaky().tokens(), 2);
    assert_eq!(other.leaky().tokens(), 7);
}

#[test]
fn the_file_is_config_json_unless_named() {
    assert_eq!(config_file(None), "config.json");
    assert_eq!(config_file(Some("other.json".to_string())), "other.json");
}

#[test]
fn a_missing_file_is_an_empty_object() {
    assert_eq!(config_text(None), "{}");
    assert_eq!(config_text(Some("{\"port\": 1}".to_string())), "{\"port\": 1}");
}

#[test]
fn an_empty_directory_is_the_current_one() {
    assert_eq!(watched_directory(None), None);
    assert_eq!(watched_directory(Some(b"".to_vec())), Some(b".".to_vec()));
    assert_eq!(watched_directory(Some(b"/etc".to_vec())), Some(b"/etc".to_vec()));
}

#[test]
fn only_changes_of_the_file_itself_concern_the_configuration() {
    let file = b"config.json".to_vec();
    let other = b"config.jsob".to_vec();
    assert!(concerns_config(Some(&file), Some(&file)));
    assert!(!concerns_config(Some(&other), Some(&file)));
    assert!(!concerns_config(Some(&b"config".to_vec()), Some(&file)));
    assert!(!concerns_config(None, Some(&file)));
    assert!(!concerns_config(Some(&file), None));
}

#[test]
fn different_ratelimits_have_different_texts() {
    let limit = |a, b, c, d| Ratelimit {
        max_tokens: a,
        tokens: b,
        refill_amount: c,
        refill_millis: d,
    };
    let limits = [
        limit(1, 1, 1, 1),
        limit(11, 1, 1, 1),
        limit(1, 11, 1, 1),
        limit(1, 1, 11, 1),
        limit(1, 1, 1, 11),
        limit(0, 1, 1, 1),
        limit(u32::MAX, u32::MAX, u32::MAX, u64::MAX),
    ];
    for (i, one) in limits.iter().enumerate() {
        for (j, other) in limits.iter().enumerate() {
            assert_eq!(one.to_json() == other.to_json(), i == j);
        }
    }
}
