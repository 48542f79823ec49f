use jerusalem::temple::soul::Value;
use jerusalem::temple::{BroadcastCommand, ClientCommandType, DatabaseCommand};
use jerusalem::wish::grant::{
    append, decr, del, exists_keys, expire, get, grant, hdel, hexists, hget, hgetall, hlen, hmget, hset,
    incr, is_named, lindex, llen, lpop, lpush, lrange, lrem, lset, mget, mset, ping, publish, rpop,
    rpush, sadd, sismember, smembers, srem, strlen, subscribe, ttl, unsubscribe, Rite,
};
use jerusalem::wish::{Command, InfoType, Response, Sacrilege};

fn bs(items: &[&str]) -> Vec<Vec<u8>> {
    items.iter().map(|s| s.as_bytes().to_vec()).collect()
}

fn b(s: &str) -> Vec<u8> {
    s.as_bytes().to_vec()
}

fn error_of(rite: &Rite) -> Option<Sacrilege> {
    match rite {
        Rite::Answer(Response::Error(s)) => Some(*s),
        _ => None,
    }
}

fn refused(rites: &[Rite]) -> Option<Sacrilege> {
    if rites.len() == 1 { error_of(&rites[0]) } else { None }
}

fn database(rites: Vec<Rite>) -> DatabaseCommand {
    assert_eq!(rites.len(), 1);
    match rites.into_iter().next().unwrap() {
        Rite::Entrust(ClientCommandType::Database(c)) => c,
        _ => panic!("expected a request for the keyspace"),
    }
}

fn broadcast(rites: Vec<Rite>) -> BroadcastCommand {
    assert_eq!(rites.len(), 1);
    match rites.into_iter().next().unwrap() {
        Rite::Entrust(ClientCommandType::Broadcast(c)) => c,
        _ => panic!("expected a request about channels"),
    }
}

#[test]
fn names_match_up_to_ascii_case() {
    assert!(is_named(&b("get"), "GET"));
    assert!(is_named(&b("GeT"), "GET"));
    assert!(!is_named(&b("GETS"), "GET"));
    assert!(!is_named(&b("G3T"), "GET"));
    assert!(!is_named(&b(""), "GET"));
}

#[test]
fn grant_dispatches_by_name() {
    match database(grant(bs(&["get", "k"]), 5, 0)) {
        DatabaseCommand::Get { key, time } => {
            assert_eq!(key, b("k"));
            assert_eq!(time, 5);
        }
        _ => panic!("expected GET"),
    }
    match database(grant(bs(&["Incr", "n"]), 9, 0)) {
        DatabaseCommand::Incr { key, time } => {
            assert_eq!(key, b("n"));
            assert_eq!(time, 9);
        }
        _ => panic!("expected INCR"),
    }
    assert_eq!(refused(&grant(bs(&["FLY", "k"]), 0, 0)), Some(Sacrilege::UnknownCommand));
    let rites = grant(bs(&["command", "docs"]), 0, 0);
    assert!(rites.len() == 1 && matches!(rites[0], Rite::Answer(Response::Info(InfoType::OK))));
    let rites = grant(bs(&["CONFIG"]), 0, 0);
    assert!(rites.len() == 1 && matches!(rites[0], Rite::Answer(Response::Info(InfoType::OK))));
}

#[test]
fn wrong_arity_is_refused() {
    let cases: Vec<(Vec<Rite>, Command)> = vec![
        (get(bs(&["GET"]), 0), Command::GET),
        (incr(bs(&["INCR", "a", "b"]), 0), Command::INCR),
        (decr(bs(&["DECR"]), 0), Command::DECR),
        (strlen(bs(&["STRLEN"]), 0), Command::STRLEN),
        (hlen(bs(&["HLEN"]), 0), Command::HLEN),
        (llen(bs(&["LLEN"]), 0), Command::LLEN),
        (ttl(bs(&["TTL"]), 0, 0), Command::TTL),
        (hgetall(bs(&["HGETALL"]), 0), Command::HGETALL),
        (hget(bs(&["HGET", "k"]), 0), Command::HGET),
        (sismember(bs(&["SISMEMBER", "k"]), 0), Command::SISMEMBER),
        (append(bs(&["APPEND", "k"]), 0), Command::APPEND),
        (del(bs(&["DEL"]), 0), Command::DEL),
        (exists_keys(bs(&["EXISTS"]), 0), Command::EXISTS),
        (mget(bs(&["MGET"]), 0), Command::MGET),
        (hdel(bs(&["HDEL", "k"]), 0), Command::HDEL),
        (hmget(bs(&["HMGET", "k"]), 0), Command::HMGET),
        (lpush(bs(&["LPUSH", "k"]), 0), Command::LPUSH),
        (rpush(bs(&["RPUSH", "k"]), 0), Command::RPUSH),
        (sadd(bs(&["SADD", "k"]), 0), Command::SADD),
        (srem(bs(&["SREM", "k"]), 0), Command::SREM),
        (jerusalem::wish::grant::set(bs(&["SET", "k"]), 0), Command::SET),
        (expire(bs(&["EXPIRE", "k"]), 0), Command::EXPIRE),
        (hexists(bs(&["HEXISTS", "k"]), 0), Command::HEXISTS),
        (hset(bs(&["HSET", "k", "f"]), 0), Command::HSET),
        (smembers(bs(&["SMEMBERS"]), 0), Command::SMEMBERS),
        (lrange(bs(&["LRANGE", "k", "0"]), 0), Command::LRANGE),
        (lset(bs(&["LSET", "k", "0"]), 0), Command::LSET),
        (lrem(bs(&["LREM", "k", "0"]), 0), Command::LREM),
        (subscribe(bs(&["SUBSCRIBE"])), Command::SUBSCRIBE),
        (publish(bs(&["PUBLISH", "c"])), Command::PUBLISH),
    ];
    for (rites, command) in cases {
        assert_eq!(refused(&rites), Some(Sacrilege::IncorrectNumberOfArguments(command)));
    }
}

#[test]
fn set_with_and_without_expiry() {
    match database(jerusalem::wish::grant::set(bs(&["SET", "k", "v"]), 100)) {
        DatabaseCommand::Store { key, value } => {
            assert_eq!(key, b("k"));
            assert!(matches!(value.0, Value::String(ref v) if *v == b("v")));
            assert_eq!(value.1, None);
        }
        _ => panic!("expected a store"),
    }
    match database(jerusalem::wish::grant::set(bs(&["SET", "k", "v", "ex", "30"]), 100)) {
        DatabaseCommand::Store { value, .. } => assert_eq!(value.1, Some(130)),
        _ => panic!("expected a store"),
    }
    assert_eq!(
        refused(&jerusalem::wish::grant::set(bs(&["SET", "k", "v", "PX", "30"]), 100)),
        Some(Sacrilege::IncorrectNumberOfArguments(Command::SET))
    );
    assert_eq!(refused(&jerusalem::wish::grant::set(bs(&["SET", "k", "v", "EX"]), 100)), Some(Sacrilege::IncorrectUsage(Command::SET)));
    assert_eq!(
        refused(&jerusalem::wish::grant::set(bs(&["SET", "k", "v", "EX", "soon"]), 100)),
        Some(Sacrilege::IncorrectUsage(Command::SET))
    );
    assert_eq!(
        refused(&jerusalem::wish::grant::set(bs(&["SET", "k", "v", "EX", "18446744073709551615"]), 100)),
        Some(Sacrilege::IncorrectUsage(Command::SET))
    );
    assert_eq!(
        refused(&jerusalem::wish::grant::set(bs(&["SET", "k", "v", "EX", "1", "x"]), 100)),
        Some(Sacrilege::IncorrectNumberOfArguments(Command::SET))
    );
}

#[test]
fn expire_is_measured_from_now() {
    match database(expire(bs(&["EXPIRE", "k", "10"]), 50)) {
        DatabaseCommand::Expire { key, expiry, time } => {
            assert_eq!(key, b("k"));
            assert_eq!(expiry, 60);
            assert_eq!(time, 50);
        }
        _ => panic!("expected EXPIRE"),
    }
    assert_eq!(refused(&expire(bs(&["EXPIRE", "k", "-1"]), 50)), Some(Sacrilege::IncorrectUsage(Command::EXPIRE)));
}

#[test]
fn list_requests_read_their_numbers() {
    match database(lrange(bs(&["LRANGE", "k", "-3", "7"]), 1)) {
        DatabaseCommand::Lrange { starting_index, ending_index, .. } => {
            assert_eq!(starting_index, -3);
            assert_eq!(ending_index, 7);
        }
        _ => panic!("expected LRANGE"),
    }
    assert_eq!(refused(&lrange(bs(&["LRANGE", "k", "a", "7"]), 1)), Some(Sacrilege::IncorrectUsage(Command::LRANGE)));
    match database(lset(bs(&["LSET", "k", "-1", "v"]), 1)) {
        DatabaseCommand::Lset { index, element, .. } => {
            assert_eq!(index, -1);
            assert_eq!(element, b("v"));
        }
        _ => panic!("expected LSET"),
    }
    match database(lrem(bs(&["LREM", "k", "-2", "v"]), 1)) {
        DatabaseCommand::Lrem { count, element, .. } => {
            assert_eq!(count, -2);
            assert_eq!(element, b("v"));
        }
        _ => panic!("expected LREM"),
    }
    match database(lpush(bs(&["LPUSH", "k", "a", "b"]), 1)) {
        DatabaseCommand::Lpush { key, elements, .. } => {
            assert_eq!(key, b("k"));
            assert_eq!(elements, bs(&["a", "b"]));
        }
        _ => panic!("expected LPUSH"),
    }
}

#[test]
fn lindex_checks_its_terms() {
    assert!(matches!(
        database(lindex(bs(&["LINDEX", "k", "2"]), 3)),
        DatabaseCommand::Lindex { index: 2, time: 3, .. }
    ));
    assert_eq!(
        refused(&lindex(bs(&["LINDEX", "k", "2", "extra"]), 3)),
        Some(Sacrilege::IncorrectNumberOfArguments(Command::LINDEX))
    );
    assert_eq!(refused(&lindex(bs(&["LINDEX", "k"]), 3)), Some(Sacrilege::IncorrectNumberOfArguments(Command::LINDEX)));
    assert_eq!(refused(&lindex(bs(&["LINDEX", "k", "x"]), 3)), Some(Sacrilege::IncorrectUsage(Command::LINDEX)));
}

#[test]
fn pops_with_and_without_count() {
    assert!(matches!(
        database(lpop(bs(&["LPOP", "k"]), 1)),
        DatabaseCommand::Lpop { time: 1, .. }
    ));
    assert!(matches!(
        database(rpop(bs(&["RPOP", "k", "4"]), 1)),
        DatabaseCommand::RpopM { count: 4, time: 1, .. }
    ));
    assert_eq!(refused(&lpop(bs(&["LPOP", "k", "-4"]), 1)), Some(Sacrilege::IncorrectUsage(Command::LPOP)));
    assert_eq!(refused(&rpop(bs(&["RPOP"]), 1)), Some(Sacrilege::IncorrectNumberOfArguments(Command::RPOP)));
    assert_eq!(
        refused(&lpop(bs(&["LPOP", "k", "2", "9"]), 1)),
        Some(Sacrilege::IncorrectNumberOfArguments(Command::LPOP))
    );
}

#[test]
fn ping_answers_pong_or_echoes() {
    let rites = ping(bs(&["PING"]));
    assert!(rites.len() == 1 && matches!(rites[0], Rite::Answer(Response::Info(InfoType::Pong))));
    let rites = ping(bs(&["PING", "hello"]));
    assert!(rites.len() == 1 && matches!(rites[0], Rite::Answer(Response::BulkString(Some(ref m))) if *m == b("hello")));
    assert_eq!(refused(&ping(bs(&["PING", "a", "b"]))), Some(Sacrilege::IncorrectNumberOfArguments(Command::PING)));
}

#[test]
fn hash_and_set_requests_carry_their_terms() {
    match database(hset(bs(&["HSET", "h", "f1", "v1", "f2", "v2"]), 2)) {
        DatabaseCommand::Hset { key, field_value_pairs, time } => {
            assert_eq!(key, b("h"));
            assert_eq!(field_value_pairs, vec![(b("f1"), b("v1")), (b("f2"), b("v2"))]);
            assert_eq!(time, 2);
        }
        _ => panic!("expected HSET"),
    }
    match database(hmget(bs(&["HMGET", "h", "a", "b"]), 2)) {
        DatabaseCommand::Hmget { fields, .. } => assert_eq!(fields, bs(&["a", "b"])),
        _ => panic!("expected HMGET"),
    }
    match database(sadd(bs(&["SADD", "s", "x", "y"]), 2)) {
        DatabaseCommand::Sadd { key, values, .. } => {
            assert_eq!(key, b("s"));
            assert_eq!(values, bs(&["x", "y"]));
        }
        _ => panic!("expected SADD"),
    }
    match database(del(bs(&["DEL", "a", "b"]), 2)) {
        DatabaseCommand::Del { keys, .. } => assert_eq!(keys, bs(&["a", "b"])),
        _ => panic!("expected DEL"),
    }
    match database(mset(bs(&["MSET", "a", "1", "b", "2"]), 2)) {
        DatabaseCommand::Mset { terms } => assert_eq!(terms, bs(&["a", "1", "b", "2"])),
        _ => panic!("expected MSET"),
    }
}

#[test]
fn channel_requests() {
    match broadcast(subscribe(bs(&["SUBSCRIBE", "a", "b"]))) {
        BroadcastCommand::Subscribe { events } => assert_eq!(events, bs(&["a", "b"])),
        _ => panic!("expected SUBSCRIBE"),
    }
    match broadcast(unsubscribe(bs(&["UNSUBSCRIBE"]))) {
        BroadcastCommand::Unsubscribe { terms } => assert!(terms.is_empty()),
        _ => panic!("expected UNSUBSCRIBE"),
    }
    match broadcast(publish(bs(&["PUBLISH", "news", "hi"]))) {
        BroadcastCommand::Publish { event, message } => {
            assert_eq!(event, b("news"));
            assert_eq!(message, b("hi"));
        }
        _ => panic!("expected PUBLISH"),
    }
}

#[test]
fn ttl_carries_the_moment() {
    match database(grant(bs(&["ttl", "k"]), 12, 500)) {
        DatabaseCommand::Ttl { key, time, nanos } => {
            assert_eq!(key, b("k"));
            assert_eq!(time, 12);
            assert_eq!(nanos, 500);
        }
        _ => panic!("expected TTL"),
    }
}
