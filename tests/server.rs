use respkv::dataframe::DataFrame;
use respkv::parse::ParseError;
use respkv::dataframe::DataFrame as Frame;
use respkv::operation::SetOptions;
use respkv::server::{frame_for, keys_to_expire, sweep_again, ConnAction, SweepReport, MAX_PENDING};
use respkv::server::{get_reply_for, sweep_budget, Server};
use respkv::store::Store;
use respkv::value::Value;

fn server() -> Server {
    Server::new(String::from("6379"))
}

fn run(s: &Server, input: &str, now: u64) -> Vec<u8> {
    let (out, n) = s.handle_request(input.as_bytes(), now).unwrap();
    assert_eq!(n, input.len());
    out
}

#[test]
fn scenario_ping() {
    let s = server();
    assert_eq!(run(&s, "*1\r\n$4\r\nPING\r\n", 0), b"+PONG\r\n".to_vec());
}

#[test]
fn scenario_echo() {
    let s = server();
    assert_eq!(run(&s, "*2\r\n$4\r\nECHO\r\n$5\r\nhello\r\n", 0), b"$5\r\nhello\r\n".to_vec());
}

#[test]
fn scenario_set_get() {
    let s = server();
    assert_eq!(run(&s, "*3\r\n$3\r\nSET\r\n$3\r\nfoo\r\n$3\r\nbar\r\n", 0), b"+OK\r\n".to_vec());
    assert_eq!(run(&s, "*2\r\n$3\r\nGET\r\n$3\r\nfoo\r\n", 0), b"$3\r\nbar\r\n".to_vec());
}

#[test]
fn scenario_set_px_expiry() {
    let s = server();
    assert_eq!(
        run(&s, "*5\r\n$3\r\nSET\r\n$1\r\nk\r\n$1\r\nv\r\n$2\r\nPX\r\n$2\r\n50\r\n", 1000),
        b"+OK\r\n".to_vec()
    );
    assert_eq!(run(&s, "*2\r\n$3\r\nGET\r\n$1\r\nk\r\n", 1000), b"$1\r\nv\r\n".to_vec());
    assert_eq!(run(&s, "*2\r\n$3\r\nGET\r\n$1\r\nk\r\n", 1050), b"$-1\r\n".to_vec());
    assert_eq!(s.store().get(b"k"), None);
    assert_eq!(run(&s, "*2\r\n$3\r\nGET\r\n$1\r\nk\r\n", 1051), b"$-1\r\n".to_vec());
}

#[test]
fn scenario_get_missing() {
    let s = server();
    assert_eq!(run(&s, "*2\r\n$3\r\nGET\r\n$4\r\nnope\r\n", 0), b"$-1\r\n".to_vec());
}

#[test]
fn scenario_invalid_set_keeps_serving() {
    let s = server();
    let out = run(&s, "*4\r\n$3\r\nSET\r\n$1\r\nk\r\n$1\r\nv\r\n$3\r\nbad\r\n", 0);
    assert_eq!(out[0], b'-');
    assert!(out.ends_with(b"\r\n"));
    assert_eq!(run(&s, "*1\r\n$4\r\nPING\r\n", 0), b"+PONG\r\n".to_vec());
}

#[test]
fn request_errors_are_reported() {
    let s = server();
    assert_eq!(s.handle_request(b"*1\r\n$4\r\nPI", 0), Err(ParseError::Incomplete));
    assert_eq!(s.handle_request(b"!x\r\n", 0), Err(ParseError::InvalidInput));
}

#[test]
fn pipelined_requests_take_their_own_bytes() {
    let s = server();
    let input = b"*1\r\n$4\r\nPING\r\n*2\r\n$4\r\nECHO\r\n$1\r\nx\r\n";
    let (out, n) = s.handle_request(input, 0).unwrap();
    assert_eq!(out, b"+PONG\r\n".to_vec());
    assert_eq!(n, 14);
    let (out, m) = s.handle_request(&input[n..], 0).unwrap();
    assert_eq!(out, b"$1\r\nx\r\n".to_vec());
    assert_eq!(n + m, input.len());
}

#[test]
fn get_of_plain_entry_keeps_it() {
    let s = server();
    run(&s, "*3\r\n$3\r\nSET\r\n$1\r\np\r\n$1\r\nv\r\n", 0);
    assert_eq!(run(&s, "*2\r\n$3\r\nGET\r\n$1\r\np\r\n", u64::MAX), b"$1\r\nv\r\n".to_vec());
    assert!(s.store().contains(b"p"));
}

#[test]
fn get_reply_for_each_case() {
    assert_eq!(get_reply_for(None, 5), (Value::NullBulkString, false));
    let plain = DataFrame::plain(b"v".to_vec());
    assert_eq!(get_reply_for(Some(&plain), 5), (Value::BulkString(b"v".to_vec()), false));
    let exp = DataFrame::with_expiration(b"w".to_vec(), 10, 0);
    assert_eq!(get_reply_for(Some(&exp), 9), (Value::BulkString(b"w".to_vec()), false));
    assert_eq!(get_reply_for(Some(&exp), 10), (Value::NullBulkString, true));
}

#[test]
fn sweep_below_sample_size_removes_nothing() {
    let s = server();
    for i in 0..5 {
        let req = format!("*5\r\n$3\r\nSET\r\n$2\r\nk{i}\r\n$1\r\nv\r\n$2\r\nPX\r\n$1\r\n1\r\n");
        run(&s, &req, 0);
    }
    let report = s.sweep_round(100);
    assert_eq!(report.sampled, 5);
    assert_eq!(report.removed, 0);
    assert!(!report.repeat);
    assert_eq!(s.store().for_each().len(), 5);
}

#[test]
fn sweep_drains_expired_entries() {
    let s = server();
    for i in 0..100 {
        let key = format!("key{i}");
        let req = format!("*5\r\n$3\r\nSET\r\n${}\r\n{key}\r\n$1\r\nv\r\n$2\r\nPX\r\n$2\r\n10\r\n", key.len());
        run(&s, &req, 0);
    }
    run(&s, "*3\r\n$3\r\nSET\r\n$4\r\nkeep\r\n$1\r\nv\r\n", 0);
    let mut rounds = 0;
    loop {
        let report = s.sweep_round(10);
        assert!(report.removed <= report.sampled && report.sampled <= 20);
        rounds += 1;
        if !report.repeat {
            break;
        }
    }
    assert!(rounds >= 1);
    let left = s.store().for_each().len();
    assert!(left < 20 + 1);
    assert!(s.store().contains(b"keep"));
}

#[test]
fn sweep_keeps_live_entries() {
    let s = server();
    for i in 0..30 {
        let key = format!("key{i}");
        let req = format!("*5\r\n$3\r\nSET\r\n${}\r\n{key}\r\n$1\r\nv\r\n$2\r\nEX\r\n$1\r\n9\r\n", key.len());
        run(&s, &req, 0);
    }
    let report = s.sweep_round(8999);
    assert_eq!(report.sampled, 20);
    assert_eq!(report.removed, 0);
    assert!(!report.repeat);
    assert_eq!(s.store().for_each().len(), 30);
}

#[test]
fn tick_sweep_drains_in_one_call() {
    let s = server();
    for i in 0..60 {
        let key = format!("key{i}");
        let req = format!("*5\r\n$3\r\nSET\r\n${}\r\n{key}\r\n$1\r\nv\r\n$2\r\nPX\r\n$1\r\n5\r\n", key.len());
        run(&s, &req, 0);
    }
    let tick = s.clean_expired(5);
    assert!(tick.rounds >= 3 && tick.rounds <= sweep_budget(60));
    assert_eq!(tick.first.candidates, 60);
    assert!(tick.first.repeat);
    assert!(!tick.last.repeat);
    assert!(s.store().for_each().len() < 20);
}

#[test]
fn tick_sweep_on_empty_store_runs_one_round() {
    let s = server();
    let tick = s.clean_expired(0);
    assert_eq!(tick.rounds, 1);
    assert_eq!(tick.first, tick.last);
    assert_eq!(tick.first.sampled, 0);
}

#[test]
fn sweep_budget_values() {
    assert_eq!(sweep_budget(0), 1);
    assert_eq!(sweep_budget(5), 1);
    assert_eq!(sweep_budget(6), 2);
    assert_eq!(sweep_budget(100), 17);
}

#[test]
fn frame_for_follows_options() {
    assert_eq!(frame_for(b"v".to_vec(), SetOptions { expiration: None }, 7), Frame::plain(b"v".to_vec()));
    assert_eq!(
        frame_for(b"v".to_vec(), SetOptions { expiration: Some(50) }, 7),
        Frame::with_expiration(b"v".to_vec(), 50, 7)
    );
}

#[test]
fn keys_to_expire_keeps_pick_order_and_expired_only() {
    let candidates = vec![
        (b"a".to_vec(), 10u128, 0u64),
        (b"b".to_vec(), 100u128, 0u64),
        (b"c".to_vec(), 5u128, 3u64),
    ];
    assert_eq!(keys_to_expire(&candidates, &vec![2, 1, 0], 10), vec![b"c".to_vec(), b"a".to_vec()]);
    assert_eq!(keys_to_expire(&candidates, &vec![1], 10), Vec::<Vec<u8>>::new());
}

#[test]
fn sweep_again_needs_repeat_and_budget() {
    let r = SweepReport { candidates: 40, sampled: 20, due: 10, removed: 10, repeat: true };
    assert!(sweep_again(&r, 1, 7));
    assert!(!sweep_again(&r, 7, 7));
    let q = SweepReport { repeat: false, ..r };
    assert!(!sweep_again(&q, 1, 7));
}

#[test]
fn connection_step_actions() {
    let s = server();
    assert_eq!(
        s.connection_step(b"*1\r\n$4\r\nPING\r\n", false, 0),
        ConnAction::Reply(b"+PONG\r\n".to_vec(), 14)
    );
    assert_eq!(s.connection_step(b"*1\r\n$4\r\nPI", false, 0), ConnAction::ReadMore);
    assert_eq!(s.connection_step(b"", false, 0), ConnAction::ReadMore);
    assert_eq!(s.connection_step(b"*1\r\n$4\r\nPI", true, 0), ConnAction::Close);
    assert_eq!(s.connection_step(b"", true, 0), ConnAction::Close);
    assert_eq!(s.connection_step(b"?\r\n", false, 0), ConnAction::Close);
    assert_eq!(
        s.connection_step(b"*1\r\n$4\r\nPING\r\n", true, 0),
        ConnAction::Reply(b"+PONG\r\n".to_vec(), 14)
    );
}

#[test]
fn connection_step_closes_on_oversized_partial_request() {
    let s = server();
    let mut big = b"$999999999\r\n".to_vec();
    big.resize(MAX_PENDING + 1, b'x');
    assert_eq!(s.connection_step(&big, false, 0), ConnAction::Close);
}

#[test]
fn invalid_reply_carries_the_message() {
    let s = server();
    assert_eq!(run(&s, "*1\r\n$5\r\nFLUSH\r\n", 0), b"-Unknown operation flush\r\n".to_vec());
    assert_eq!(run(&s, "*2\r\n$3\r\nSET\r\n$1\r\nk\r\n", 0), b"-Invalid syntax for set\r\n".to_vec());
    assert_eq!(run(&s, ":1\r\n", 0), b"-Invalid or corrupt input\r\n".to_vec());
}
