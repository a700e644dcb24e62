use lil_redis::cache::Cache;
use lil_redis::commands::Command;
use lil_redis::connection::{next_step, Step};
use lil_redis::resp::RESPType;

fn bulk(s: &str) -> RESPType {
    RESPType::BulkString(s.to_string())
}

fn command_line(words: &[&str]) -> Vec<u8> {
    RESPType::Array(words.iter().map(|w| bulk(w)).collect()).pack()
}

/// Sends one command line as a client would and returns the reply frame,
/// with the cache's clock at `now`.
fn query_at(cache: &mut Cache, words: &[&str], now: u128) -> RESPType {
    let bytes = command_line(words);
    match next_step(&bytes) {
        Step::Dispatch(cmd, n) => {
            assert_eq!(n, bytes.len());
            cmd.run_at(cache, now)
        }
        Step::Reply(reply, n) => {
            assert_eq!(n, bytes.len());
            reply
        }
        other => panic!("unexpected step {:?}", other),
    }
}

fn query(cache: &mut Cache, words: &[&str]) -> RESPType {
    query_at(cache, words, 1_000_000)
}

#[test]
fn it_can_receive_pings() {
    let mut cache = Cache::new();
    let ping = query(&mut cache, &["PING"]);
    assert_eq!(ping, RESPType::SimpleString("PONG".to_string()));

    let ping = query(&mut cache, &["PING", "hello"]);
    assert_eq!(ping, bulk("hello"));
}

#[test]
fn it_can_handle_pings_from_multiple_connections() {
    let mut cache = Cache::new();
    let ping = query(&mut cache, &["PING"]);
    let ping2 = query(&mut cache, &["PING"]);
    assert_eq!(ping, RESPType::SimpleString("PONG".to_string()));
    assert_eq!(ping2, RESPType::SimpleString("PONG".to_string()));
}

#[test]
fn it_can_handle_echo() {
    let mut cache = Cache::new();
    let echo = query(&mut cache, &["ECHO", "hello"]);
    assert_eq!(echo, bulk("hello"));
}

#[test]
fn it_can_get_and_set() {
    let mut cache = Cache::new();
    let missing = query(&mut cache, &["GET", "key"]);
    assert_eq!(missing, RESPType::Null);

    let ok = query(&mut cache, &["SET", "key", "value"]);
    assert_eq!(ok, RESPType::SimpleString("OK".to_string()));

    let value = query(&mut cache, &["GET", "key"]);
    assert_eq!(value, bulk("value"));

    let value = query(&mut cache, &["GET", "key"]);
    assert_eq!(value, bulk("value"));
}

#[test]
fn it_can_set_with_ttl() {
    let mut cache = Cache::new();
    let t0: u128 = 5_000;
    let ok = query_at(&mut cache, &["SET", "key-ttl", "value", "PX", "1000"], t0);
    assert_eq!(ok, RESPType::SimpleString("OK".to_string()));

    let value = query_at(&mut cache, &["GET", "key-ttl"], t0);
    assert_eq!(value, bulk("value"));

    let gone = query_at(&mut cache, &["GET", "key-ttl"], t0 + 2000);
    assert_eq!(gone, RESPType::Null);
}

#[test]
fn ttl_boundary_is_inclusive() {
    let mut cache = Cache::new();
    cache.set_at("k".to_string(), "v".to_string(), Some(1000), 10);
    assert_eq!(cache.get_at("k", 1010), Some("v".to_string()));
    assert_eq!(cache.get_at("k", 1011), None);
    // the expired entry is gone for good
    assert_eq!(cache.get_at("k", 10), None);
}

#[test]
fn overwrite_replaces_ttl() {
    let mut cache = Cache::new();
    cache.set_at("k".to_string(), "a".to_string(), Some(5), 0);
    cache.set_at("k".to_string(), "b".to_string(), None, 1);
    assert_eq!(cache.get_at("k", 1_000_000), Some("b".to_string()));
}

#[test]
fn clock_based_get_and_set() {
    let mut cache = Cache::new();
    assert_eq!(cache.get("absent"), None);
    cache.set("k".to_string(), "v".to_string(), None);
    assert_eq!(cache.get("k"), Some("v".to_string()));
    let reply = Command::Get("k".to_string()).run(&mut cache);
    assert_eq!(reply, bulk("v"));
}

#[test]
fn unsupported_command_keeps_connection_usable() {
    let mut cache = Cache::new();
    let mut bytes = command_line(&["FOO"]);
    bytes.extend(command_line(&["PING"]));
    let first_len = command_line(&["FOO"]).len();
    match next_step(&bytes) {
        Step::Reply(reply, n) => {
            assert_eq!(reply, RESPType::Error("Unsupported command".to_string()));
            assert_eq!(n, first_len);
        }
        other => panic!("unexpected step {:?}", other),
    }
    match next_step(&bytes[first_len..]) {
        Step::Dispatch(cmd, _) => {
            assert_eq!(cmd.run_at(&mut cache, 0), RESPType::SimpleString("PONG".to_string()));
        }
        other => panic!("unexpected step {:?}", other),
    }
}

#[test]
fn two_clients_last_store_wins() {
    let mut cache = Cache::new();
    query_at(&mut cache, &["SET", "shared", "one"], 1);
    query_at(&mut cache, &["SET", "shared", "two"], 2);
    query_at(&mut cache, &["SET", "other", "x"], 3);
    assert_eq!(query_at(&mut cache, &["GET", "shared"], 4), bulk("two"));
    assert_eq!(query_at(&mut cache, &["GET", "shared"], 5), bulk("two"));
}

#[test]
fn steps_for_partial_and_bad_input() {
    let bytes = command_line(&["PING"]);
    assert_eq!(next_step(&bytes[..bytes.len() - 1]), Step::NeedMore);
    assert_eq!(next_step(b""), Step::NeedMore);
    assert_eq!(next_step(b"?what\r\n"), Step::Close);
    assert_eq!(next_step(b"+OK\r\n"), Step::Close);
    match next_step(b"*0\r\n") {
        Step::Reply(reply, 4) => assert_eq!(reply, RESPType::Error("not a command".to_string())),
        other => panic!("unexpected step {:?}", other),
    }
}
