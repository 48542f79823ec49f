use jerusalem::egress::{egress, name_of, proclaim};
use jerusalem::wish::grant::Gift;
use jerusalem::wish::util::{
    bytes_to_i32, bytes_to_i64, bytes_to_u64, bytes_to_usize, digits_up_to, find_crlf, spell_signed,
    spell_unsigned,
};
use jerusalem::wish::{Command, InfoType, Response, Sacrilege, Sin, Virtue, BACKLOG_SIZE, READ_HEADROOM};

fn b(s: &str) -> Vec<u8> {
    s.as_bytes().to_vec()
}

fn bs(items: &[&str]) -> Vec<Vec<u8>> {
    items.iter().map(|s| b(s)).collect()
}

fn rendered(response: Response) -> Vec<u8> {
    let mut out = b("stale bytes");
    egress(&Gift { token: 7, response }, &mut out);
    out
}

#[test]
fn find_crlf_finds_the_first() {
    assert_eq!(find_crlf(b"ab\r\ncd\r\n"), Some(2));
    assert_eq!(find_crlf(b"\r\n"), Some(0));
    assert_eq!(find_crlf(b"ab\rcd\n"), None);
    assert_eq!(find_crlf(b""), None);
    assert_eq!(find_crlf(b"\r"), None);
}

#[test]
fn numbers_are_read_as_decimal() {
    assert_eq!(bytes_to_usize(b"42"), Ok(42));
    assert_eq!(bytes_to_usize(b"0"), Ok(0));
    assert_eq!(bytes_to_usize(b""), Err(Sin::ParseError));
    assert_eq!(bytes_to_usize(b"4x"), Err(Sin::ParseError));
    assert_eq!(bytes_to_usize(b"-1"), Err(Sin::ParseError));
    assert_eq!(bytes_to_u64(b"18446744073709551615"), Ok(u64::MAX));
    assert_eq!(bytes_to_u64(b"18446744073709551616"), Err(Sin::ParseError));
    assert_eq!(bytes_to_i32(b"-17"), Ok(-17));
    assert_eq!(bytes_to_i32(b"2147483647"), Ok(i32::MAX));
    assert_eq!(bytes_to_i32(b"2147483648"), Err(Sin::ParseError));
    assert_eq!(bytes_to_i32(b"-"), Err(Sin::ParseError));
    assert_eq!(bytes_to_i32(b"+5"), Err(Sin::ParseError));
    assert_eq!(bytes_to_i64(b"-9223372036854775807"), Ok(-i64::MAX));
    assert_eq!(bytes_to_i64(b"-9223372036854775808"), Ok(i64::MIN));
    assert_eq!(bytes_to_i64(b"-9223372036854775809"), Err(Sin::ParseError));
    assert_eq!(bytes_to_i64(b"9223372036854775808"), Err(Sin::ParseError));
    assert_eq!(bytes_to_i32(b"-2147483648"), Ok(i32::MIN));
    assert_eq!(bytes_to_i32(b"-2147483649"), Err(Sin::ParseError));
    assert_eq!(bytes_to_i64(b"12 "), Err(Sin::ParseError));
    assert_eq!(digits_up_to(b"x123", 1, 200), Ok(123));
    assert_eq!(digits_up_to(b"x123", 1, 100), Err(Sin::ParseError));
}

#[test]
fn spelling_reads_back() {
    assert_eq!(spell_unsigned(0), b("0"));
    assert_eq!(spell_unsigned(1234567890), b("1234567890"));
    assert_eq!(spell_signed(-905), b("-905"));
    assert_eq!(spell_signed(i64::MIN), b("-9223372036854775808"));
    for n in [0i64, 7, -7, 1000, i64::MAX, -i64::MAX, i64::MIN] {
        assert_eq!(bytes_to_i64(&spell_signed(n)), Ok(n));
    }
    assert_eq!(bytes_to_u64(&spell_unsigned(u64::MAX)), Ok(u64::MAX));
}

#[test]
fn virtue_reads_a_whole_request() {
    let mut virtue = Virtue::new();
    assert_eq!(virtue.spare_capacity(), BACKLOG_SIZE);
    virtue.fill(b"*2\r\n$3\r\nGET\r\n$1\r\nk\r\n");
    let (requests, outcome) = virtue.discern();
    assert_eq!(requests, vec![bs(&["GET", "k"])]);
    assert_eq!(outcome, Ok(()));
}

#[test]
fn virtue_waits_for_the_rest_of_a_request() {
    let mut virtue = Virtue::new();
    let wire = b"*3\r\n$3\r\nSET\r\n$3\r\nkey\r\n$5\r\nvalue\r\n";
    let mut seen: Vec<Vec<Vec<u8>>> = Vec::new();
    for chunk in wire.chunks(3) {
        virtue.fill(chunk);
        let (requests, outcome) = virtue.discern();
        assert_eq!(outcome, Ok(()));
        seen.extend(requests);
    }
    assert_eq!(seen, vec![bs(&["SET", "key", "value"])]);
}

#[test]
fn virtue_reads_pipelined_requests() {
    let mut virtue = Virtue::new();
    virtue.fill(b"*1\r\n$4\r\nPING\r\n*2\r\n$4\r\nECHO\r\n$0\r\n\r\n*1\r\n$4\r\nPI");
    let (requests, outcome) = virtue.discern();
    assert_eq!(requests, vec![bs(&["PING"]), bs(&["ECHO", ""])]);
    assert_eq!(outcome, Ok(()));
    virtue.fill(b"NG\r\n");
    let (requests, outcome) = virtue.discern();
    assert_eq!(requests, vec![bs(&["PING"])]);
    assert_eq!(outcome, Ok(()));
}

#[test]
fn virtue_refuses_what_is_not_an_array() {
    let mut virtue = Virtue::new();
    virtue.fill(b"PING\r\n");
    let (requests, outcome) = virtue.discern();
    assert!(requests.is_empty());
    assert_eq!(outcome, Err(Sin::Blasphemy));
}

#[test]
fn virtue_refuses_a_bad_count_or_terminator() {
    let mut virtue = Virtue::new();
    virtue.fill(b"*x\r\n");
    let (requests, outcome) = virtue.discern();
    assert!(requests.is_empty());
    assert_eq!(outcome, Err(Sin::ParseError));

    let mut virtue = Virtue::new();
    virtue.fill(b"*1\r\n$2\r\nabcd");
    let (requests, outcome) = virtue.discern();
    assert!(requests.is_empty());
    assert_eq!(outcome, Err(Sin::Blasphemy));
}

#[test]
fn virtue_reports_requests_read_before_an_error() {
    let mut virtue = Virtue::new();
    virtue.fill(b"*1\r\n$4\r\nPING\r\n!");
    let (requests, outcome) = virtue.discern();
    assert_eq!(requests, vec![bs(&["PING"])]);
    assert_eq!(outcome, Err(Sin::Blasphemy));
}

#[test]
fn virtue_stalls_on_a_missing_marker() {
    let mut virtue = Virtue::new();
    virtue.fill(b"*1\r\n+PING\r\n");
    let (requests, outcome) = virtue.discern();
    assert!(requests.is_empty());
    assert_eq!(outcome, Ok(()));
}

#[test]
fn virtue_makes_room_when_the_buffer_runs_low() {
    let mut virtue = Virtue::new();
    let request = b"*1\r\n$4\r\nPING\r\n";
    let mut filled = 0;
    while virtue.spare_capacity() >= READ_HEADROOM {
        virtue.fill(request);
        filled += request.len();
        let (requests, outcome) = virtue.discern();
        assert_eq!(requests, vec![bs(&["PING"])]);
        assert_eq!(outcome, Ok(()));
    }
    assert_eq!(virtue.spare_capacity(), BACKLOG_SIZE - filled);
    virtue.fill(b"*1\r\n$4");
    virtue.make_room();
    assert_eq!(virtue.spare_capacity(), BACKLOG_SIZE - 6);
    virtue.fill(b"\r\nPING\r\n");
    let (requests, outcome) = virtue.discern();
    assert_eq!(requests, vec![bs(&["PING"])]);
    assert_eq!(outcome, Ok(()));
    virtue.compact();
    assert_eq!(virtue.spare_capacity(), BACKLOG_SIZE);
}

#[test]
fn make_room_leaves_a_roomy_buffer_alone() {
    let mut virtue = Virtue::new();
    virtue.fill(b"*1\r\n");
    let _ = virtue.discern();
    virtue.make_room();
    assert_eq!(virtue.spare_capacity(), BACKLOG_SIZE - 4);
}

#[test]
fn egress_renders_status_and_bulk_replies() {
    assert_eq!(rendered(Response::Info(InfoType::OK)), b("+OK\r\n"));
    assert_eq!(rendered(Response::Info(InfoType::Pong)), b("+PONG\r\n"));
    assert_eq!(rendered(Response::BulkString(Some(b("hello")))), b("$5\r\nhello\r\n"));
    assert_eq!(rendered(Response::BulkString(Some(b("")))), b("$0\r\n\r\n"));
    assert_eq!(rendered(Response::BulkString(None)), b("$-1\r\n"));
}

#[test]
fn egress_renders_arrays() {
    assert_eq!(
        rendered(Response::BulkStringArray(Some(vec![Some(b("a")), None, Some(b("bc"))]))),
        b("*3\r\n$1\r\na\r\n$-1\r\n$2\r\nbc\r\n")
    );
    assert_eq!(rendered(Response::BulkStringArray(Some(vec![]))), b("*0\r\n"));
    assert_eq!(rendered(Response::BulkStringArray(None)), b("$-1\r\n"));
}

#[test]
fn egress_renders_integers() {
    assert_eq!(rendered(Response::Amount(3)), b(":3\r\n"));
    assert_eq!(rendered(Response::Number(-12)), b(":-12\r\n"));
    assert_eq!(rendered(Response::Number(i64::MAX)), b(":9223372036854775807\r\n"));
    assert_eq!(rendered(Response::Length(4096)), b(":4096\r\n"));
}

#[test]
fn egress_renders_channel_notices() {
    assert_eq!(
        rendered(Response::SubscribedChannels(vec![(b("news"), 1), (b("sport"), 2)])),
        b("*3\r\n$9\r\nsubscribe\r\n$4\r\nnews\r\n:1\r\n*3\r\n$9\r\nsubscribe\r\n$5\r\nsport\r\n:2\r\n")
    );
    assert_eq!(
        rendered(Response::UnsubscribedChannels(Some(vec![(b("news"), 0)]))),
        b("*3\r\n$11\r\nunsubscribe\r\n$4\r\nnews\r\n:0\r\n")
    );
    assert_eq!(
        rendered(Response::UnsubscribedChannels(None)),
        b("*3\r\n$11\r\nunsubscribe\r\n$-1\r\n:0\r\n")
    );
    assert_eq!(rendered(Response::SubscribedChannels(vec![])), b(""));
}

#[test]
fn egress_renders_errors() {
    assert_eq!(rendered(Response::Error(Sacrilege::UnknownCommand)), b("-ERR unknown command\r\n"));
    assert_eq!(
        rendered(Response::Error(Sacrilege::IncorrectUsage(Command::INCR))),
        b("-ERR value is not an integer or out of range\r\n")
    );
    assert_eq!(
        rendered(Response::Error(Sacrilege::IncorrectUsage(Command::LINDEX))),
        b("-ERR index out of range\r\n")
    );
    assert_eq!(
        rendered(Response::Error(Sacrilege::IncorrectUsage(Command::GET))),
        b("-WRONGTYPE Operation against a key holding the wrong kind of value\r\n")
    );
    assert_eq!(
        rendered(Response::Error(Sacrilege::IncorrectNumberOfArguments(Command::HGETALL))),
        b("-ERR wrong number of arguments for 'hgetall' command\r\n")
    );
    assert_eq!(
        rendered(Response::Error(Sacrilege::SubscriberOnlyMode)),
        b("-ERR only SUBSCRIBE / UNSUBSCRIBE / PING / QUIT allowed in this context\r\n")
    );
}

#[test]
fn command_names_are_lower_case() {
    assert_eq!(name_of(Command::SISMEMBER), "sismember");
    assert_eq!(name_of(Command::EX), "ex");
    assert_eq!(name_of(Command::LPOP), "lpop");
}

#[test]
fn proclaim_renders_a_broadcast() {
    let mut herald = b("old");
    let mut receipt = b("old");
    proclaim(&b("news"), &b("hello"), 2, &mut herald, &mut receipt);
    assert_eq!(herald, b("*3\r\n$7\r\nmessage\r\n$4\r\nnews\r\n$5\r\nhello\r\n"));
    assert_eq!(receipt, b(":2\r\n"));
}
