use kvserver::buffer::Buffer;
use kvserver::parse::split_tokens;
use kvserver::server::{one_request, score_key_of_bits, try_parse_request, Frame};
use kvserver::store::GData;

fn scores_of(tokens: &[Vec<u8>]) -> Vec<Option<u64>> {
    tokens
        .iter()
        .map(|t| {
            std::str::from_utf8(t)
                .ok()
                .and_then(|s| s.parse::<f64>().ok())
                .and_then(|f| score_key_of_bits(f.to_bits()))
        })
        .collect()
}

fn run(g: &mut GData, line: &str, now: u64) -> Vec<u8> {
    let tokens = split_tokens(line.as_bytes());
    let scores = scores_of(&tokens);
    let mut out = Buffer::new();
    one_request(g, &tokens, &scores, now, &mut out);
    out.data().to_vec()
}

fn frame(body: Vec<u8>) -> Vec<u8> {
    let mut v = (body.len() as u32).to_le_bytes().to_vec();
    v.extend_from_slice(&body);
    v
}

fn nil() -> Vec<u8> {
    vec![0]
}

fn int_reply(x: i64) -> Vec<u8> {
    let mut v = vec![3];
    v.extend_from_slice(&x.to_le_bytes());
    v
}

fn text(s: &str) -> Vec<u8> {
    let mut v = vec![2];
    v.extend_from_slice(&(s.len() as u32).to_le_bytes());
    v.extend_from_slice(s.as_bytes());
    v
}

fn error(s: &str) -> Vec<u8> {
    let mut v = vec![1];
    v.extend_from_slice(&(s.len() as u32).to_le_bytes());
    v.extend_from_slice(s.as_bytes());
    v
}

fn dbl(x: f64) -> Vec<u8> {
    let mut v = vec![4];
    v.extend_from_slice(&x.to_le_bytes());
    v
}

fn arr(items: Vec<Vec<u8>>) -> Vec<u8> {
    let mut v = vec![5];
    v.extend_from_slice(&(items.len() as u32).to_le_bytes());
    for i in items {
        v.extend_from_slice(&i);
    }
    v
}

const WRONGTYPE: &str = "WRONGTYPE Operation against a key holding the wrong kind of value";

#[test]
fn set_get_del_scenario() {
    let mut g = GData::new();
    assert_eq!(run(&mut g, "SET foo bar", 0), frame(nil()));
    assert_eq!(run(&mut g, "GET foo", 0), frame(text("bar")));
    assert_eq!(run(&mut g, "DEL foo", 0), frame(int_reply(1)));
    assert_eq!(run(&mut g, "GET foo", 0), frame(nil()));
}

#[test]
fn zadd_zquery_scenario() {
    let mut g = GData::new();
    assert_eq!(run(&mut g, "ZADD s 1 a 2 b 2 c", 0), frame(int_reply(3)));
    assert_eq!(
        run(&mut g, "ZQUERY s 2 \"\" 0 10", 0),
        frame(arr(vec![text("b"), dbl(2.0), text("c"), dbl(2.0)]))
    );
}

#[test]
fn zquery_from_empty_name() {
    let mut g = GData::new();
    run(&mut g, "ZADD s 1 a 2 b 2 c", 0);
    // An empty name cannot be written as a token; the least name at score 2 is "b".
    assert_eq!(
        run(&mut g, "ZQUERY s 2 b 0 10", 0),
        frame(arr(vec![text("b"), dbl(2.0), text("c"), dbl(2.0)]))
    );
    assert_eq!(
        run(&mut g, "ZQUERY s 0 x 0 10", 0),
        frame(arr(vec![text("a"), dbl(1.0), text("b"), dbl(2.0), text("c"), dbl(2.0)]))
    );
}

#[test]
fn zadd_update_scenario() {
    let mut g = GData::new();
    assert_eq!(run(&mut g, "ZADD s 1 a", 0), frame(int_reply(1)));
    assert_eq!(run(&mut g, "ZADD s 5 a", 0), frame(int_reply(0)));
    assert_eq!(run(&mut g, "ZQUERY s 0 \"\" 0 10", 0), frame(arr(vec![text("a"), dbl(5.0)])));
}

#[test]
fn expire_ttl_scenario() {
    let mut g = GData::new();
    assert_eq!(run(&mut g, "SET k v", 1000), frame(nil()));
    assert_eq!(run(&mut g, "EXPIRE k 1", 1000), frame(int_reply(1)));
    assert_eq!(run(&mut g, "TTL k", 1000), frame(int_reply(1)));
    assert_eq!(g.process_timers(2000), 0);
    assert_eq!(run(&mut g, "GET k", 2000), frame(text("v")));
    assert_eq!(g.process_timers(2001), 1);
    assert_eq!(run(&mut g, "GET k", 2001), frame(nil()));
    assert_eq!(run(&mut g, "TTL k", 2001), frame(int_reply(-2)));
}

#[test]
fn persist_scenario() {
    let mut g = GData::new();
    run(&mut g, "SET k v", 0);
    assert_eq!(run(&mut g, "EXPIRE k 10", 0), frame(int_reply(1)));
    assert_eq!(run(&mut g, "PERSIST k", 0), frame(int_reply(1)));
    assert_eq!(run(&mut g, "TTL k", 0), frame(int_reply(-1)));
    assert_eq!(run(&mut g, "PERSIST k", 0), frame(int_reply(0)));
}

#[test]
fn oversized_frame_is_refused() {
    let mut incoming = Buffer::new();
    let mut bytes = 5000u32.to_le_bytes().to_vec();
    bytes.extend_from_slice(b"GET k");
    incoming.append(&bytes);
    assert!(matches!(try_parse_request(&mut incoming), Frame::TooLong));
    assert_eq!(incoming.len(), bytes.len());
}

#[test]
fn frames_split_across_reads() {
    let mut whole = Vec::new();
    for line in ["SET a 1", "GET a", "DEL a"] {
        whole.extend_from_slice(&(line.len() as u32).to_le_bytes());
        whole.extend_from_slice(line.as_bytes());
    }
    let mut expected = Vec::new();
    expected.extend(frame(nil()));
    expected.extend(frame(text("1")));
    expected.extend(frame(int_reply(1)));
    for step in [1usize, 2, 3, 5, 7, whole.len()] {
        let mut g = GData::new();
        let mut incoming = Buffer::new();
        let mut out = Buffer::new();
        for chunk in whole.chunks(step) {
            incoming.append(chunk);
            loop {
                match try_parse_request(&mut incoming) {
                    Frame::Request(body) => {
                        let tokens = split_tokens(&body);
                        let scores = scores_of(&tokens);
                        one_request(&mut g, &tokens, &scores, 0, &mut out);
                    }
                    Frame::Incomplete => break,
                    Frame::TooLong => panic!("frame is short"),
                }
            }
        }
        assert_eq!(out.data().to_vec(), expected);
        assert!(incoming.is_empty());
    }
}

#[test]
fn command_names_ignore_case() {
    let mut g = GData::new();
    assert_eq!(run(&mut g, "set K V", 0), frame(nil()));
    assert_eq!(run(&mut g, "gEt K", 0), frame(text("V")));
}

#[test]
fn unknown_command_is_an_error() {
    let mut g = GData::new();
    assert_eq!(run(&mut g, "FLY away", 0), frame(error("Unknown command")));
}

#[test]
fn empty_request_gets_no_reply() {
    let mut g = GData::new();
    assert_eq!(run(&mut g, "   ", 0), Vec::<u8>::new());
}

#[test]
fn arity_errors() {
    let mut g = GData::new();
    assert_eq!(run(&mut g, "GET", 0), frame(error("GET requires a key")));
    assert_eq!(run(&mut g, "SET k", 0), frame(error("SET requires key and value")));
    assert_eq!(run(&mut g, "DEL", 0), frame(error("DEL requires at least one key")));
    assert_eq!(
        run(&mut g, "ZADD s 1", 0),
        frame(error("ZADD requires: key score member [score member ...]"))
    );
    assert_eq!(run(&mut g, "ZREM s", 0), frame(error("ZREM requires: key member [member ...]")));
    assert_eq!(
        run(&mut g, "ZQUERY s 1 a 0", 0),
        frame(error("ZQUERY requires: key score name offset limit"))
    );
    assert_eq!(run(&mut g, "EXPIRE k", 0), frame(error("EXPIRE requires key and seconds")));
    assert_eq!(run(&mut g, "TTL", 0), frame(error("TTL requires a key")));
    assert_eq!(run(&mut g, "PERSIST", 0), frame(error("PERSIST requires a key")));
}

#[test]
fn wrong_type_errors_keep_values() {
    let mut g = GData::new();
    run(&mut g, "SET k v", 0);
    run(&mut g, "ZADD z 1 a", 0);
    assert_eq!(run(&mut g, "GET z", 0), frame(error(WRONGTYPE)));
    assert_eq!(run(&mut g, "ZADD k 1 a", 0), frame(error(WRONGTYPE)));
    assert_eq!(run(&mut g, "ZREM k a", 0), frame(error(WRONGTYPE)));
    assert_eq!(run(&mut g, "ZQUERY k 1 a 0 1", 0), frame(error(WRONGTYPE)));
    assert_eq!(run(&mut g, "GET k", 0), frame(text("v")));
    assert_eq!(run(&mut g, "ZQUERY z 0 a 0 1", 0), frame(arr(vec![text("a"), dbl(1.0)])));
}

#[test]
fn parse_errors() {
    let mut g = GData::new();
    run(&mut g, "ZADD z 1 a", 0);
    assert_eq!(run(&mut g, "ZADD z x a", 0), frame(error("Invalid score: x")));
    assert_eq!(run(&mut g, "ZADD z 1 a nan b", 0), frame(error("Invalid score: nan")));
    assert_eq!(run(&mut g, "ZQUERY z x a 0 1", 0), frame(error("Invalid score")));
    assert_eq!(run(&mut g, "ZQUERY z 1 a y 1", 0), frame(error("Invalid offset")));
    assert_eq!(run(&mut g, "ZQUERY z 1 a 0 -1", 0), frame(error("Invalid limit")));
    assert_eq!(run(&mut g, "EXPIRE z soon", 0), frame(error("Expected int64")));
    // A failed ZADD adds nothing.
    assert_eq!(run(&mut g, "ZQUERY z 0 a 0 10", 0), frame(arr(vec![text("a"), dbl(1.0)])));
}

#[test]
fn value_too_large_for_get() {
    let mut g = GData::new();
    let big = "x".repeat(5000);
    let tokens = vec![b"SET".to_vec(), b"k".to_vec(), big.as_bytes().to_vec()];
    let scores = scores_of(&tokens);
    let mut out = Buffer::new();
    one_request(&mut g, &tokens, &scores, 0, &mut out);
    assert_eq!(out.data().to_vec(), frame(nil()));
    assert_eq!(run(&mut g, "GET k", 0), frame(error("value too large")));
}

#[test]
fn oversized_reply_becomes_error() {
    let mut g = GData::new();
    for i in 0..600 {
        run(&mut g, &format!("SET key{} v", i), 0);
    }
    assert_eq!(run(&mut g, "KEYS", 0), frame(error("response is too big")));
}

#[test]
fn keys_lists_each_key_once() {
    let mut g = GData::new();
    run(&mut g, "SET a 1", 0);
    run(&mut g, "SET b 2", 0);
    run(&mut g, "ZADD c 1 m", 0);
    run(&mut g, "SET a 3", 0);
    let out = run(&mut g, "KEYS", 0);
    let body = &out[4..];
    assert_eq!(body[0], 5);
    assert_eq!(u32::from_le_bytes(body[1..5].try_into().unwrap()), 3);
    let mut found = Vec::new();
    let mut pos = 5;
    while pos < body.len() {
        assert_eq!(body[pos], 2);
        let n = u32::from_le_bytes(body[pos + 1..pos + 5].try_into().unwrap()) as usize;
        found.push(String::from_utf8(body[pos + 5..pos + 5 + n].to_vec()).unwrap());
        pos += 5 + n;
    }
    found.sort();
    assert_eq!(found, vec!["a", "b", "c"]);
}

#[test]
fn del_counts_keys_found() {
    let mut g = GData::new();
    run(&mut g, "SET a 1", 0);
    run(&mut g, "SET b 1", 0);
    assert_eq!(run(&mut g, "DEL a missing b a", 0), frame(int_reply(2)));
    assert_eq!(run(&mut g, "DEL a", 0), frame(int_reply(0)));
}

#[test]
fn zrem_removes_and_drops_empty_set() {
    let mut g = GData::new();
    run(&mut g, "ZADD s 1 a 2 b", 0);
    assert_eq!(run(&mut g, "ZREM s a zz", 0), frame(int_reply(1)));
    assert_eq!(run(&mut g, "ZQUERY s 0 a 0 10", 0), frame(arr(vec![text("b"), dbl(2.0)])));
    assert_eq!(run(&mut g, "ZREM s b", 0), frame(int_reply(1)));
    assert_eq!(run(&mut g, "GET s", 0), frame(nil()));
    assert_eq!(run(&mut g, "ZREM s b", 0), frame(int_reply(0)));
}

#[test]
fn zquery_offset_and_limit() {
    let mut g = GData::new();
    run(&mut g, "ZADD s 1 a 2 b 3 c 4 d 5 e", 0);
    assert_eq!(
        run(&mut g, "ZQUERY s 3 c -1 2", 0),
        frame(arr(vec![text("b"), dbl(2.0), text("c"), dbl(3.0)]))
    );
    assert_eq!(run(&mut g, "ZQUERY s 3 c 5 2", 0), frame(arr(vec![])));
    assert_eq!(run(&mut g, "ZQUERY s 9 a 0 2", 0), frame(arr(vec![])));
    assert_eq!(run(&mut g, "ZQUERY s 3 c 0 0", 0), frame(arr(vec![])));
    assert_eq!(run(&mut g, "ZQUERY missing 3 c 0 2", 0), frame(nil()));
}

#[test]
fn zquery_negative_scores_order() {
    let mut g = GData::new();
    run(&mut g, "ZADD s -2.5 a 0 b -0 c 1e3 d -1e3 e", 0);
    assert_eq!(
        run(&mut g, "ZQUERY s -1e9 a 0 10", 0),
        frame(arr(vec![
            text("e"),
            dbl(-1000.0),
            text("a"),
            dbl(-2.5),
            text("b"),
            dbl(0.0),
            text("c"),
            dbl(0.0),
            text("d"),
            dbl(1000.0),
        ]))
    );
}

#[test]
fn expire_non_positive_clears_deadline() {
    let mut g = GData::new();
    run(&mut g, "SET k v", 0);
    run(&mut g, "EXPIRE k 100", 0);
    assert_eq!(run(&mut g, "EXPIRE k 0", 0), frame(int_reply(1)));
    assert_eq!(run(&mut g, "TTL k", 0), frame(int_reply(-1)));
    assert_eq!(run(&mut g, "EXPIRE missing 5", 0), frame(int_reply(0)));
    assert_eq!(run(&mut g, "TTL missing", 0), frame(int_reply(-2)));
}

#[test]
fn ttl_rounds_up() {
    let mut g = GData::new();
    run(&mut g, "SET k v", 0);
    run(&mut g, "EXPIRE k 3", 0);
    assert_eq!(run(&mut g, "TTL k", 1), frame(int_reply(3)));
    assert_eq!(run(&mut g, "TTL k", 1000), frame(int_reply(2)));
    assert_eq!(run(&mut g, "TTL k", 2999), frame(int_reply(1)));
    assert_eq!(run(&mut g, "TTL k", 3000), frame(int_reply(0)));
    assert_eq!(run(&mut g, "TTL k", 9000), frame(int_reply(0)));
}

#[test]
fn set_clears_deadline() {
    let mut g = GData::new();
    run(&mut g, "SET k v", 0);
    run(&mut g, "EXPIRE k 1", 0);
    run(&mut g, "SET k w", 0);
    assert_eq!(run(&mut g, "TTL k", 0), frame(int_reply(-1)));
    assert_eq!(g.process_timers(10_000), 0);
    assert_eq!(run(&mut g, "GET k", 10_000), frame(text("w")));
}

#[test]
fn timer_tick_is_bounded() {
    let mut g = GData::new();
    for i in 0..2100 {
        run(&mut g, &format!("SET k{} v", i), 0);
        run(&mut g, &format!("EXPIRE k{} 1", i), 0);
    }
    assert_eq!(g.process_timers(5000), 2000);
    assert_eq!(g.process_timers(5000), 100);
    assert_eq!(g.db.size(), 0);
}

#[test]
fn large_sorted_set_is_handed_out() {
    let mut g = GData::new();
    for i in 0..1001 {
        run(&mut g, &format!("ZADD big {} m{}", i, i), 0);
    }
    run(&mut g, "ZADD small 1 a", 0);
    assert_eq!(run(&mut g, "DEL big small", 0), frame(int_reply(2)));
    assert_eq!(g.take_offload().len(), 1);
    assert_eq!(g.take_offload().len(), 0);
}
