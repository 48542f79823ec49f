use std::collections::VecDeque;

use jerusalem::byte_map::ByteMap;
use jerusalem::temple::soul::{Plain, Soul, Value};
use jerusalem::wish::{Command, Sacrilege};

fn b(s: &str) -> Vec<u8> {
    s.as_bytes().to_vec()
}

fn bs(items: &[&str]) -> Vec<Vec<u8>> {
    items.iter().map(|s| b(s)).collect()
}

fn present(items: &[&str]) -> Option<Vec<Option<Vec<u8>>>> {
    Some(items.iter().map(|s| Some(b(s))).collect())
}

fn string(s: &str) -> Value {
    Value::String(b(s))
}

#[test]
fn get_reads_what_set_wrote() {
    let mut soul = Soul::new();
    soul.set(b("k"), (string("v"), None));
    assert_eq!(soul.get(b("k"), 10), Ok(Some(b("v"))));
    assert_eq!(soul.get(b("other"), 10), Ok(None));
}

#[test]
fn set_overwrites_and_leaves_other_keys() {
    let mut soul = Soul::default();
    soul.set(b("a"), (string("1"), None));
    soul.set(b("b"), (string("2"), None));
    soul.set(b("a"), (string("3"), None));
    assert_eq!(soul.get(b("a"), 0), Ok(Some(b("3"))));
    assert_eq!(soul.get(b("b"), 0), Ok(Some(b("2"))));
}

#[test]
fn expired_key_reads_as_absent() {
    let mut soul = Soul::new();
    soul.set(b("k"), (string("v"), Some(100)));
    assert_eq!(soul.get(b("k"), 100), Ok(Some(b("v"))));
    assert_eq!(soul.get(b("k"), 101), Ok(None));
    assert_eq!(soul.count_existing(bs(&["k"]), 101), 0);
}

#[test]
fn get_of_a_list_is_refused() {
    let mut soul = Soul::new();
    assert_eq!(soul.lpush(b("l"), bs(&["x"]), 0), Ok(1));
    assert_eq!(soul.get(b("l"), 0), Err(Sacrilege::IncorrectUsage(Command::GET)));
}

#[test]
fn append_reports_new_length() {
    let mut soul = Soul::new();
    assert_eq!(soul.append(b("k"), b("Hello"), 0), Ok(5));
    assert_eq!(soul.append(b("k"), b(" World"), 0), Ok(11));
    assert_eq!(soul.get(b("k"), 0), Ok(Some(b("Hello World"))));
    assert_eq!(soul.strlen(b("k"), 0), Ok(11));
    assert_eq!(soul.strlen(b("missing"), 0), Ok(0));
    soul.sadd(b("s"), bs(&["m"]), 0).unwrap();
    assert_eq!(soul.append(b("s"), b("x"), 0), Err(Sacrilege::IncorrectUsage(Command::APPEND)));
    assert_eq!(soul.strlen(b("s"), 0), Err(Sacrilege::IncorrectUsage(Command::STRLEN)));
}

#[test]
fn incr_then_decr_gives_back_the_number() {
    let mut soul = Soul::new();
    assert_eq!(soul.incr(b("n"), 0), Ok(1));
    assert_eq!(soul.incr(b("n"), 0), Ok(2));
    assert_eq!(soul.decr(b("n"), 0), Ok(1));
    assert_eq!(soul.get(b("n"), 0), Ok(Some(b("1"))));
    soul.set(b("m"), (string("-41"), None));
    assert_eq!(soul.incr(b("m"), 0), Ok(-40));
    assert_eq!(soul.decr(b("m"), 0), Ok(-41));
    assert_eq!(soul.get(b("m"), 0), Ok(Some(b("-41"))));
}

#[test]
fn decr_of_absent_key_starts_at_zero() {
    let mut soul = Soul::new();
    assert_eq!(soul.decr(b("n"), 0), Ok(-1));
    assert_eq!(soul.get(b("n"), 0), Ok(Some(b("-1"))));
}

#[test]
fn incr_of_text_or_overflow_is_refused() {
    let mut soul = Soul::new();
    soul.set(b("t"), (string("abc"), None));
    assert_eq!(soul.incr(b("t"), 0), Err(Sacrilege::IncorrectUsage(Command::INCR)));
    soul.set(b("max"), (string("9223372036854775807"), None));
    assert_eq!(soul.incr(b("max"), 0), Err(Sacrilege::IncorrectUsage(Command::INCR)));
    assert_eq!(soul.get(b("max"), 0), Ok(Some(b("9223372036854775807"))));
    soul.set(b("min"), (string("-9223372036854775808"), None));
    assert_eq!(soul.decr(b("min"), 0), Err(Sacrilege::IncorrectUsage(Command::DECR)));
    assert_eq!(soul.incr(b("min"), 0), Ok(-9223372036854775807));
    assert_eq!(soul.decr(b("min"), 0), Ok(i64::MIN));
    assert_eq!(soul.get(b("min"), 0), Ok(Some(b("-9223372036854775808"))));
    soul.hset(b("h"), vec![(b("f"), b("v"))], 0).unwrap();
    assert_eq!(soul.decr(b("h"), 0), Err(Sacrilege::IncorrectUsage(Command::DECR)));
}

#[test]
fn incr_keeps_the_expiry() {
    let mut soul = Soul::new();
    soul.set(b("n"), (string("5"), Some(1000)));
    assert_eq!(soul.incr(b("n"), 10), Ok(6));
    assert_eq!(soul.ttl(b("n"), 10, 0), 990);
}

#[test]
fn del_and_exists_count_live_keys() {
    let mut soul = Soul::new();
    soul.set(b("a"), (string("1"), None));
    soul.set(b("b"), (string("2"), Some(5)));
    soul.set(b("c"), (string("3"), None));
    assert_eq!(soul.count_existing(bs(&["a", "a", "b", "x"]), 0), 3);
    assert_eq!(soul.count_existing(bs(&["a", "b"]), 10), 1);
    assert_eq!(soul.del(bs(&["a", "b", "x", "a"]), 10), 1);
    assert_eq!(soul.get(b("a"), 10), Ok(None));
    assert_eq!(soul.get(b("c"), 10), Ok(Some(b("3"))));
    assert_eq!(soul.remove_valid_value(&b("c"), 10).is_some(), true);
    assert_eq!(soul.count_existing(bs(&["c"]), 10), 0);
}

#[test]
fn hash_commands() {
    let mut soul = Soul::new();
    let pairs = vec![(b("f1"), b("v1")), (b("f2"), b("v2")), (b("f1"), b("v3"))];
    assert_eq!(soul.hset(b("h"), pairs, 0), Ok(2));
    assert_eq!(soul.hget(b("h"), b("f1"), 0), Ok(Some(b("v3"))));
    assert_eq!(soul.hset(b("h"), vec![(b("f2"), b("x")), (b("f3"), b("y"))], 0), Ok(1));
    assert_eq!(soul.hlen(b("h"), 0), Ok(3));
    assert_eq!(
        soul.hmget(b("h"), bs(&["f2", "nope", "f3"]), 0),
        Ok(Some(vec![Some(b("x")), None, Some(b("y"))]))
    );
    assert_eq!(soul.hmget(b("missing"), bs(&["f", "g"]), 0), Ok(Some(vec![None, None])));
    assert_eq!(soul.hexists(b("h"), b("f3"), 0), Ok(1));
    assert_eq!(soul.hdel(b("h"), bs(&["f3", "f3", "nope"]), 0), Ok(1));
    assert_eq!(soul.hexists(b("h"), b("f3"), 0), Ok(0));
    assert_eq!(soul.hget(b("missing"), b("f"), 0), Ok(None));
    assert_eq!(soul.hlen(b("missing"), 0), Ok(0));
    assert_eq!(soul.hdel(b("missing"), bs(&["f"]), 0), Ok(0));
}

#[test]
fn hgetall_lists_each_field_with_its_value() {
    let mut soul = Soul::new();
    soul.hset(b("h"), vec![(b("a"), b("1")), (b("b"), b("2"))], 0).unwrap();
    let listing = soul.hgetall(b("h"), 0).unwrap().unwrap();
    assert_eq!(listing.len(), 4);
    let mut pairs: Vec<(Vec<u8>, Vec<u8>)> = listing
        .chunks(2)
        .map(|c| (c[0].clone().unwrap(), c[1].clone().unwrap()))
        .collect();
    pairs.sort();
    assert_eq!(pairs, vec![(b("a"), b("1")), (b("b"), b("2"))]);
    assert_eq!(soul.hgetall(b("missing"), 0), Ok(Some(vec![])));
}

#[test]
fn hash_commands_refuse_other_types() {
    let mut soul = Soul::new();
    soul.set(b("s"), (string("v"), None));
    assert_eq!(soul.hset(b("s"), vec![(b("f"), b("v"))], 0), Err(Sacrilege::IncorrectUsage(Command::HSET)));
    assert_eq!(soul.hget(b("s"), b("f"), 0), Err(Sacrilege::IncorrectUsage(Command::HGET)));
    assert_eq!(soul.hmget(b("s"), bs(&["f"]), 0), Err(Sacrilege::IncorrectUsage(Command::HMGET)));
    assert_eq!(soul.hdel(b("s"), bs(&["f"]), 0), Err(Sacrilege::IncorrectUsage(Command::HDEL)));
    assert_eq!(soul.hexists(b("s"), b("f"), 0), Err(Sacrilege::IncorrectUsage(Command::HEXISTS)));
    assert_eq!(soul.hlen(b("s"), 0), Err(Sacrilege::IncorrectUsage(Command::HLEN)));
    assert_eq!(soul.hgetall(b("s"), 0), Err(Sacrilege::IncorrectUsage(Command::HGETALL)));
}

#[test]
fn lpush_then_lpop_gives_back_the_last_element() {
    let mut soul = Soul::new();
    assert_eq!(soul.lpush(b("l"), bs(&["a", "b", "c"]), 0), Ok(3));
    assert_eq!(soul.lrange(b("l"), 0, -1, 0), Ok(present(&["c", "b", "a"])));
    assert_eq!(soul.lpush(b("l"), bs(&["d"]), 0), Ok(4));
    assert_eq!(soul.lpop(b("l"), 0), Ok(Some(b("d"))));
    assert_eq!(soul.llen(b("l"), 0), Ok(3));
}

#[test]
fn rpush_then_rpop_gives_back_the_last_element() {
    let mut soul = Soul::new();
    assert_eq!(soul.rpush(b("l"), bs(&["a", "b"]), 0), Ok(2));
    assert_eq!(soul.rpush(b("l"), bs(&["c"]), 0), Ok(3));
    assert_eq!(soul.lrange(b("l"), 0, -1, 0), Ok(present(&["a", "b", "c"])));
    assert_eq!(soul.rpop(b("l"), 0), Ok(Some(b("c"))));
    assert_eq!(soul.rpop(b("l"), 0), Ok(Some(b("b"))));
    assert_eq!(soul.rpop(b("l"), 0), Ok(Some(b("a"))));
    assert_eq!(soul.rpop(b("l"), 0), Ok(None));
    assert_eq!(soul.llen(b("l"), 0), Ok(0));
    assert_eq!(soul.count_existing(bs(&["l"]), 0), 0);
}

#[test]
fn pop_with_count() {
    let mut soul = Soul::new();
    soul.rpush(b("l"), bs(&["a", "b", "c", "d"]), 0).unwrap();
    assert_eq!(soul.lpop_m(b("l"), 2, 0), Ok(present(&["a", "b"])));
    assert_eq!(soul.rpop_m(b("l"), 5, 0), Ok(present(&["d", "c"])));
    assert_eq!(soul.lpop_m(b("l"), 1, 0), Ok(None));
    assert_eq!(soul.lpop_m(b("missing"), 1, 0), Ok(None));
    soul.rpush(b("m"), bs(&["x"]), 0).unwrap();
    assert_eq!(soul.lpop_m(b("m"), 0, 0), Ok(Some(vec![])));
    soul.set(b("s"), (string("v"), None));
    assert_eq!(soul.lpop(b("s"), 0), Err(Sacrilege::IncorrectUsage(Command::LPOP)));
    assert_eq!(soul.rpop_m(b("s"), 1, 0), Err(Sacrilege::IncorrectUsage(Command::RPOP)));
}

#[test]
fn pop_of_expired_list_finds_nothing() {
    let mut soul = Soul::new();
    soul.set(b("l"), (Value::List(VecDeque::from(bs(&["a"]))), Some(5)));
    assert_eq!(soul.lpop(b("l"), 6), Ok(None));
    assert_eq!(soul.llen(b("l"), 6), Ok(0));
}

#[test]
fn lrange_selects_like_redis() {
    let mut soul = Soul::new();
    soul.rpush(b("l"), bs(&["a", "b", "c", "d", "e"]), 0).unwrap();
    assert_eq!(soul.lrange(b("l"), 1, 3, 0), Ok(present(&["b", "c", "d"])));
    assert_eq!(soul.lrange(b("l"), -2, -1, 0), Ok(present(&["d", "e"])));
    assert_eq!(soul.lrange(b("l"), -100, 1, 0), Ok(present(&["a", "b"])));
    assert_eq!(soul.lrange(b("l"), 3, 100, 0), Ok(present(&["d", "e"])));
    assert_eq!(soul.lrange(b("l"), 3, 1, 0), Ok(present(&[])));
    assert_eq!(soul.lrange(b("l"), 5, 10, 0), Ok(present(&[])));
    assert_eq!(soul.lrange(b("missing"), 0, -1, 0), Ok(present(&[])));
    soul.set(b("s"), (string("v"), None));
    assert_eq!(soul.lrange(b("s"), 0, -1, 0), Err(Sacrilege::IncorrectUsage(Command::LRANGE)));
}

#[test]
fn lindex_reads_what_lset_wrote() {
    let mut soul = Soul::new();
    soul.rpush(b("l"), bs(&["a", "b", "c"]), 0).unwrap();
    assert_eq!(soul.lindex(b("l"), -1, 0), Ok(Some(b("c"))));
    assert_eq!(soul.lset(b("l"), 1, b("B"), 0), Ok(()));
    assert_eq!(soul.lindex(b("l"), 1, 0), Ok(Some(b("B"))));
    assert_eq!(soul.lset(b("l"), -3, b("A"), 0), Ok(()));
    assert_eq!(soul.lindex(b("l"), 0, 0), Ok(Some(b("A"))));
    assert_eq!(soul.lindex(b("l"), 3, 0), Ok(None));
    assert_eq!(soul.lindex(b("l"), -4, 0), Ok(None));
    assert_eq!(soul.lset(b("l"), 3, b("x"), 0), Err(Sacrilege::IncorrectUsage(Command::LSET)));
    assert_eq!(soul.lset(b("missing"), 0, b("x"), 0), Err(Sacrilege::IncorrectUsage(Command::LSET)));
    assert_eq!(soul.lindex(b("missing"), 0, 0), Ok(None));
}

#[test]
fn lrem_by_direction() {
    let mut soul = Soul::new();
    soul.rpush(b("l"), bs(&["x", "a", "x", "b", "x"]), 0).unwrap();
    assert_eq!(soul.lrem(b("l"), 1, b("x"), 0), Ok(1));
    assert_eq!(soul.lrange(b("l"), 0, -1, 0), Ok(present(&["a", "x", "b", "x"])));
    assert_eq!(soul.lrem(b("l"), -1, b("x"), 0), Ok(1));
    assert_eq!(soul.lrange(b("l"), 0, -1, 0), Ok(present(&["a", "x", "b"])));
    soul.rpush(b("l"), bs(&["x", "x"]), 0).unwrap();
    assert_eq!(soul.lrem(b("l"), 0, b("x"), 0), Ok(3));
    assert_eq!(soul.lrange(b("l"), 0, -1, 0), Ok(present(&["a", "b"])));
    assert_eq!(soul.lrem(b("missing"), 0, b("x"), 0), Ok(0));
    soul.set(b("s"), (string("v"), None));
    assert_eq!(soul.lrem(b("s"), 0, b("x"), 0), Err(Sacrilege::IncorrectUsage(Command::LREM)));
}

#[test]
fn set_commands() {
    let mut soul = Soul::new();
    assert_eq!(soul.sadd(b("s"), bs(&["a", "b", "a"]), 0), Ok(2));
    assert_eq!(soul.sadd(b("s"), bs(&["a", "b"]), 0), Ok(0));
    assert_eq!(soul.sismember(b("s"), b("a"), 0), Ok(1));
    assert_eq!(soul.sismember(b("s"), b("z"), 0), Ok(0));
    let mut members: Vec<Vec<u8>> = soul
        .smembers(b("s"), 0)
        .unwrap()
        .unwrap()
        .into_iter()
        .map(|m| m.unwrap())
        .collect();
    members.sort();
    assert_eq!(members, bs(&["a", "b"]));
    assert_eq!(soul.srem(b("s"), bs(&["a", "z"]), 0), Ok(1));
    assert_eq!(soul.sismember(b("s"), b("a"), 0), Ok(0));
    assert_eq!(soul.srem(b("s"), bs(&["b"]), 0), Ok(1));
    assert_eq!(soul.count_existing(bs(&["s"]), 0), 0);
    assert_eq!(soul.smembers(b("missing"), 0), Ok(Some(vec![])));
    soul.set(b("t"), (string("v"), None));
    assert_eq!(soul.sadd(b("t"), bs(&["a"]), 0), Err(Sacrilege::IncorrectUsage(Command::SADD)));
    assert_eq!(soul.srem(b("t"), bs(&["a"]), 0), Err(Sacrilege::IncorrectUsage(Command::SREM)));
    assert_eq!(soul.sismember(b("t"), b("a"), 0), Err(Sacrilege::IncorrectUsage(Command::SREM)));
    assert_eq!(soul.smembers(b("t"), 0), Err(Sacrilege::IncorrectUsage(Command::SMEMBERS)));
}

#[test]
fn expire_then_ttl() {
    let mut soul = Soul::new();
    assert_eq!(soul.ttl(b("k"), 0, 0), -2);
    assert_eq!(soul.expire(b("k"), 100, 0), 0);
    soul.set(b("k"), (string("v"), None));
    assert_eq!(soul.ttl(b("k"), 0, 0), -1);
    assert_eq!(soul.expire(b("k"), 100, 40), 1);
    assert_eq!(soul.ttl(b("k"), 40, 0), 60);
    assert_eq!(soul.ttl(b("k"), 40, 1), 59);
    assert_eq!(soul.ttl(b("k"), 100, 0), 0);
    assert_eq!(soul.ttl(b("k"), 100, 1), -2);
    assert_eq!(soul.ttl(b("k"), 100, 0), -2);
    assert_eq!(soul.get(b("k"), 0), Ok(None));
}

#[test]
fn mset_then_mget() {
    let mut soul = Soul::new();
    soul.hset(b("h"), vec![(b("f"), b("v"))], 0).unwrap();
    soul.mset(bs(&["a", "1", "b", "2", "a", "3", "lone"]));
    assert_eq!(
        soul.mget(bs(&["a", "b", "h", "lone", "c"]), 0),
        Some(vec![Some(b("3")), Some(b("2")), None, None, None])
    );
}

#[test]
fn snapshot_round_trip() {
    let mut soul = Soul::new();
    soul.set(b("s"), (string("v"), Some(77)));
    soul.rpush(b("l"), bs(&["a", "b"]), 0).unwrap();
    soul.hset(b("h"), vec![(b("f"), b("1")), (b("g"), b("2"))], 0).unwrap();
    soul.sadd(b("m"), bs(&["x", "y"]), 0).unwrap();
    let entries = soul.export();
    assert_eq!(entries.len(), 4);
    let mut again = Soul::import(&entries);
    assert_eq!(again.get(b("s"), 0), Ok(Some(b("v"))));
    assert_eq!(again.ttl(b("s"), 7, 0), 70);
    assert_eq!(again.lrange(b("l"), 0, -1, 0), Ok(present(&["a", "b"])));
    assert_eq!(again.hget(b("h"), b("g"), 0), Ok(Some(b("2"))));
    assert_eq!(again.hlen(b("h"), 0), Ok(2));
    assert_eq!(again.sismember(b("m"), b("y"), 0), Ok(1));
}

#[test]
fn import_of_plain_entries() {
    let entries = vec![
        (b("k"), Plain::String(b("1")), None),
        (b("h"), Plain::Hash(vec![(b("f"), b("a")), (b("f"), b("b"))]), None),
        (b("m"), Plain::Members(bs(&["x", "x"])), Some(9)),
        (b("k"), Plain::List(bs(&["p", "q"])), None),
    ];
    let mut soul = Soul::import(&entries);
    assert_eq!(soul.hget(b("h"), b("f"), 0), Ok(Some(b("b"))));
    assert_eq!(soul.hlen(b("h"), 0), Ok(1));
    assert_eq!(soul.sismember(b("m"), b("x"), 0), Ok(1));
    assert_eq!(soul.lrange(b("k"), 0, -1, 0), Ok(present(&["p", "q"])));
    assert_eq!(soul.count_existing(bs(&["m"]), 10), 0);
}

#[test]
fn stored_collections_are_read_back() {
    let mut soul = Soul::new();
    let mut fields: ByteMap<Vec<u8>> = ByteMap::new();
    fields.insert(b("f"), b("v"));
    soul.set(b("h"), (Value::Hash(fields), None));
    let mut members: ByteMap<()> = ByteMap::new();
    members.insert(b("m"), ());
    soul.set(b("s"), (Value::Members(members), None));
    assert_eq!(soul.hget(b("h"), b("f"), 0), Ok(Some(b("v"))));
    assert_eq!(soul.sismember(b("s"), b("m"), 0), Ok(1));
}

#[test]
fn emptied_collections_go_away() {
    let mut soul = Soul::new();
    soul.rpush(b("l"), bs(&["x", "x"]), 0).unwrap();
    assert_eq!(soul.lrem(b("l"), 0, b("x"), 0), Ok(2));
    assert_eq!(soul.count_existing(bs(&["l"]), 0), 0);
    soul.hset(b("h"), vec![(b("f"), b("v"))], 0).unwrap();
    assert_eq!(soul.hdel(b("h"), bs(&["f"]), 0), Ok(1));
    assert_eq!(soul.count_existing(bs(&["h"]), 0), 0);
    soul.set(b("h"), (string("now a string"), None));
    assert_eq!(soul.get(b("h"), 0), Ok(Some(b("now a string"))));
}

#[test]
fn pop_of_expired_key_of_another_type_finds_nothing() {
    let mut soul = Soul::new();
    soul.set(b("s"), (string("v"), Some(5)));
    assert_eq!(soul.lpop(b("s"), 6), Ok(None));
    assert_eq!(soul.rpop_m(b("s"), 2, 6), Ok(None));
    soul.set(b("t"), (string("v"), Some(5)));
    assert_eq!(soul.rpop(b("t"), 5), Err(Sacrilege::IncorrectUsage(Command::RPOP)));
    assert_eq!(soul.get(b("t"), 5), Ok(Some(b("v"))));
}
