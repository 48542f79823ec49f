use vstd::prelude::*;
use vstd::string::StringSliceAdditionalSpecFns;

use crate::byte_map::{copy_bytes, key_views};
use crate::egress::text;
use crate::temple::soul::{pair_views, Value};
use crate::temple::{BroadcastCommand, ClientCommandType, DatabaseCommand};
use crate::wish::util::{bytes_to_i32, bytes_to_u64, bytes_to_usize, signed_reading, unsigned_reading};
use crate::wish::{Command, InfoType, Response, Sacrilege};

verus! {

broadcast use crate::byte_map::lemma_bytes_deep_view;

/// A reply addressed to one client.
pub struct Gift {
    pub token: usize,
    pub response: Response,
}

/// What the keeper of the keyspace sends back for a request.
pub enum Decree {
    /// Answer one client.
    Deliver(Gift),
    /// A message published by `.0` on the channel `.1`, to reach the
    /// subscribers `.3`.
    Broadcast(usize, Vec<u8>, Vec<u8>, Vec<usize>),
}

/// What a request of a client leads to: an answer straight away, or a
/// request for the keeper of the keyspace.
pub enum Rite {
    Answer(Response),
    Entrust(ClientCommandType),
}

/// The ASCII upper case of a byte.
pub open spec fn upper(b: u8) -> u8 {
    if 97 <= b <= 122 {
        (b - 32) as u8
    } else {
        b
    }
}

/// `term` is `name` up to ASCII case.
pub open spec fn names(term: Seq<u8>, name: &str) -> bool {
    &&& term.len() == text(name).len()
    &&& forall|i: int| 0 <= i < term.len() ==> upper(#[trigger] term[i]) == text(name)[i]
}

/// The answer is one error.
pub open spec fn refuses(rites: Seq<Rite>, s: Sacrilege) -> bool {
    &&& rites.len() == 1
    &&& rites[0] matches Rite::Answer(Response::Error(x))
    &&& x == s
}

/// The terms from position `from` on, taken pairwise.
pub open spec fn pairs_from(ts: Seq<Seq<u8>>, from: int) -> Seq<(Seq<u8>, Seq<u8>)> {
    Seq::new(((ts.len() - from) / 2) as nat, |i: int| (ts[from + 2 * i], ts[from + 2 * i + 1]))
}

/// `a` and `b`, when they are numbers of the given size.
pub open spec fn i32_of(s: Seq<u8>) -> Option<int> {
    signed_reading(s, i32::MAX as nat)
}

/// Whether `n` seconds from `now` still fit the clock.
pub open spec fn expiry_after(now: u64, s: Seq<u8>) -> Option<u64> {
    match unsigned_reading(s, u64::MAX as nat) {
        Some(secs) => if now + secs <= u64::MAX { Some((now + secs) as u64) } else { None },
        None => None,
    }
}

/// Compares a term with a name, up to ASCII case.
pub fn is_named(term: &Vec<u8>, name: &str) -> (same: bool)
    ensures
        same == names(term@, name),
{
    let b = name.as_bytes();
    if term.len() != b.len() {
        return false;
    }
    let mut i: usize = 0;
    while i < term.len()
        invariant
            i <= term@.len(),
            term@.len() == b@.len(),
            b@ == name.spec_bytes(),
            forall|j: int| 0 <= j < i ==> upper(#[trigger] term@[j]) == text(name)[j],
        decreases term@.len() - i,
    {
        let c = term[i];
        let u = if 97u8 <= c && c <= 122u8 { c - 32 } else { c };
        if u != b[i] {
            return false;
        }
        i += 1;
    }
    true
}

/// A copy of the term at `i`.
fn term_at(terms: &Vec<Vec<u8>>, i: usize) -> (term: Vec<u8>)
    requires
        i < terms@.len(),
    ensures
        term@ == key_views(terms@)[i as int],
{
    copy_bytes(&terms[i])
}

/// Copies of the terms from position `from` on.
fn terms_from(terms: &Vec<Vec<u8>>, from: usize) -> (rest: Vec<Vec<u8>>)
    requires
        from <= terms@.len(),
    ensures
        key_views(rest@) == key_views(terms@).skip(from as int),
{
    let mut rest: Vec<Vec<u8>> = Vec::new();
    let mut i: usize = from;
    assert(key_views(rest@) =~= key_views(terms@).subrange(from as int, from as int));
    while i < terms.len()
        invariant
            from <= i <= terms@.len(),
            key_views(rest@) == key_views(terms@).subrange(from as int, i as int),
        decreases terms@.len() - i,
    {
        let ghost before = key_views(rest@);
        rest.push(copy_bytes(&terms[i]));
        assert(key_views(rest@) =~= before.push(key_views(terms@)[i as int]));
        assert(key_views(rest@) =~= key_views(terms@).subrange(from as int, i + 1));
        i += 1;
    }
    assert(key_views(terms@).subrange(from as int, terms@.len() as int) =~= key_views(terms@).skip(from as int));
    rest
}

/// Copies of the terms from position `from` on, taken pairwise.
fn pairs_of(terms: &Vec<Vec<u8>>, from: usize) -> (pairs: Vec<(Vec<u8>, Vec<u8>)>)
    requires
        from <= terms@.len(),
    ensures
        pair_views(pairs@) == pairs_from(key_views(terms@), from as int),
{
    let ghost ts = key_views(terms@);
    let n = (terms.len() - from) / 2;
    let mut pairs: Vec<(Vec<u8>, Vec<u8>)> = Vec::new();
    let mut i: usize = 0;
    while i < n
        invariant
            ts == key_views(terms@),
            n == (terms.len() - from) / 2,
            from <= terms.len(),
            i <= n,
            pair_views(pairs@) == pairs_from(ts, from as int).take(i as int),
        decreases n - i,
    {
        let ghost before = pair_views(pairs@);
        let field = copy_bytes(&terms[from + 2 * i]);
        let value = copy_bytes(&terms[from + 2 * i + 1]);
        pairs.push((field, value));
        assert(pair_views(pairs@) =~= before.push((ts[from + 2 * i], ts[from + 2 * i + 1])));
        assert(pair_views(pairs@) =~= pairs_from(ts, from as int).take(i + 1));
        i += 1;
    }
    assert(pairs_from(ts, from as int).take(n as int) =~= pairs_from(ts, from as int));
    pairs
}

/// A single rite.
fn one(rite: Rite) -> (rites: Vec<Rite>)
    ensures
        rites@ == seq![rite],
{
    let mut rites: Vec<Rite> = Vec::new();
    rites.push(rite);
    assert(rites@ =~= seq![rite]);
    rites
}

/// A single error.
fn refuse(s: Sacrilege) -> (rites: Vec<Rite>)
    ensures
        refuses(rites@, s),
{
    one(Rite::Answer(Response::Error(s)))
}

/// A request for the keyspace.
fn entrust(command: DatabaseCommand) -> (rites: Vec<Rite>)
    ensures
        rites@ == seq![Rite::Entrust(ClientCommandType::Database(command))],
{
    one(Rite::Entrust(ClientCommandType::Database(command)))
}

/// What a GET request leads to.
pub open spec fn get_rites(ts: Seq<Seq<u8>>, now: u64, rites: Seq<Rite>) -> bool {
    if ts.len() != 2 {
        refuses(rites, Sacrilege::IncorrectNumberOfArguments(Command::GET))
    } else {
        &&& rites.len() == 1
        &&& rites[0] matches Rite::Entrust(ClientCommandType::Database(DatabaseCommand::Get { key, time }))
        &&& key@ == ts[1] && time == now
    }
}

/// Checks a GET request.
pub fn get(terms: Vec<Vec<u8>>, now: u64) -> (rites: Vec<Rite>)
    ensures
        get_rites(key_views(terms@), now, rites@),
{
    if terms.len() != 2 {
        return refuse(Sacrilege::IncorrectNumberOfArguments(Command::GET));
    }
    let key = term_at(&terms, 1);
    entrust(DatabaseCommand::Get { key, time: now })
}

/// What a INCR request leads to.
pub open spec fn incr_rites(ts: Seq<Seq<u8>>, now: u64, rites: Seq<Rite>) -> bool {
    if ts.len() != 2 {
        refuses(rites, Sacrilege::IncorrectNumberOfArguments(Command::INCR))
    } else {
        &&& rites.len() == 1
        &&& rites[0] matches Rite::Entrust(ClientCommandType::Database(DatabaseCommand::Incr { key, time }))
        &&& key@ == ts[1] && time == now
    }
}

/// Checks a INCR request.
pub fn incr(terms: Vec<Vec<u8>>, now: u64) -> (rites: Vec<Rite>)
    ensures
        incr_rites(key_views(terms@), now, rites@),
{
    if terms.len() != 2 {
        return refuse(Sacrilege::IncorrectNumberOfArguments(Command::INCR));
    }
    let key = term_at(&terms, 1);
    entrust(DatabaseCommand::Incr { key, time: now })
}

/// What a DECR request leads to.
pub open spec fn decr_rites(ts: Seq<Seq<u8>>, now: u64, rites: Seq<Rite>) -> bool {
    if ts.len() != 2 {
        refuses(rites, Sacrilege::IncorrectNumberOfArguments(Command::DECR))
    } else {
        &&& rites.len() == 1
        &&& rites[0] matches Rite::Entrust(ClientCommandType::Database(DatabaseCommand::Decr { key, time }))
        &&& key@ == ts[1] && time == now
    }
}

/// Checks a DECR request.
pub fn decr(terms: Vec<Vec<u8>>, now: u64) -> (rites: Vec<Rite>)
    ensures
        decr_rites(key_views(terms@), now, rites@),
{
    if terms.len() != 2 {
        return refuse(Sacrilege::IncorrectNumberOfArguments(Command::DECR));
    }
    let key = term_at(&terms, 1);
    entrust(DatabaseCommand::Decr { key, time: now })
}

/// What a STRLEN request leads to.
pub open spec fn strlen_rites(ts: Seq<Seq<u8>>, now: u64, rites: Seq<Rite>) -> bool {
    if ts.len() != 2 {
        refuses(rites, Sacrilege::IncorrectNumberOfArguments(Command::STRLEN))
    } else {
        &&& rites.len() == 1
        &&& rites[0] matches Rite::Entrust(ClientCommandType::Database(DatabaseCommand::Strlen { key, time }))
        &&& key@ == ts[1] && time == now
    }
}

/// Checks a STRLEN request.
pub fn strlen(terms: Vec<Vec<u8>>, now: u64) -> (rites: Vec<Rite>)
    ensures
        strlen_rites(key_views(terms@), now, rites@),
{
    if terms.len() != 2 {
        return refuse(Sacrilege::IncorrectNumberOfArguments(Command::STRLEN));
    }
    let key = term_at(&terms, 1);
    entrust(DatabaseCommand::Strlen { key, time: now })
}

/// What a HLEN request leads to.
pub open spec fn hlen_rites(ts: Seq<Seq<u8>>, now: u64, rites: Seq<Rite>) -> bool {
    if ts.len() != 2 {
        refuses(rites, Sacrilege::IncorrectNumberOfArguments(Command::HLEN))
    } else {
        &&& rites.len() == 1
        &&& rites[0] matches Rite::Entrust(ClientCommandType::Database(DatabaseCommand::Hlen { key, time }))
        &&& key@ == ts[1] && time == now
    }
}

/// Checks a HLEN request.
pub fn hlen(terms: Vec<Vec<u8>>, now: u64) -> (rites: Vec<Rite>)
    ensures
        hlen_rites(key_views(terms@), now, rites@),
{
    if terms.len() != 2 {
        return refuse(Sacrilege::IncorrectNumberOfArguments(Command::HLEN));
    }
    let key = term_at(&terms, 1);
    entrust(DatabaseCommand::Hlen { key, time: now })
}

/// What a LLEN request leads to.
pub open spec fn llen_rites(ts: Seq<Seq<u8>>, now: u64, rites: Seq<Rite>) -> bool {
    if ts.len() != 2 {
        refuses(rites, Sacrilege::IncorrectNumberOfArguments(Command::LLEN))
    } else {
        &&& rites.len() == 1
        &&& rites[0] matches Rite::Entrust(ClientCommandType::Database(DatabaseCommand::Llen { key, time }))
        &&& key@ == ts[1] && time == now
    }
}

/// Checks a LLEN request.
pub fn llen(terms: Vec<Vec<u8>>, now: u64) -> (rites: Vec<Rite>)
    ensures
        llen_rites(key_views(terms@), now, rites@),
{
    if terms.len() != 2 {
        return refuse(Sacrilege::IncorrectNumberOfArguments(Command::LLEN));
    }
    let key = term_at(&terms, 1);
    entrust(DatabaseCommand::Llen { key, time: now })
}

/// What a TTL request leads to.
pub open spec fn ttl_rites(ts: Seq<Seq<u8>>, now: u64, nanos: u32, rites: Seq<Rite>) -> bool {
    if ts.len() != 2 {
        refuses(rites, Sacrilege::IncorrectNumberOfArguments(Command::TTL))
    } else {
        &&& rites.len() == 1
        &&& rites[0] matches Rite::Entrust(ClientCommandType::Database(DatabaseCommand::Ttl { key, time, nanos: n }))
        &&& key@ == ts[1] && time == now && n == nanos
    }
}

/// Checks a TTL request made `nanos` nanoseconds after second `now`.
pub fn ttl(terms: Vec<Vec<u8>>, now: u64, nanos: u32) -> (rites: Vec<Rite>)
    ensures
        ttl_rites(key_views(terms@), now, nanos, rites@),
{
    if terms.len() != 2 {
        return refuse(Sacrilege::IncorrectNumberOfArguments(Command::TTL));
    }
    let key = term_at(&terms, 1);
    entrust(DatabaseCommand::Ttl { key, time: now, nanos })
}

/// What a HGETALL request leads to.
pub open spec fn hgetall_rites(ts: Seq<Seq<u8>>, now: u64, rites: Seq<Rite>) -> bool {
    if ts.len() != 2 {
        refuses(rites, Sacrilege::IncorrectNumberOfArguments(Command::HGETALL))
    } else {
        &&& rites.len() == 1
        &&& rites[0] matches Rite::Entrust(ClientCommandType::Database(DatabaseCommand::Hgetall { key, time }))
        &&& key@ == ts[1] && time == now
    }
}

/// Checks a HGETALL request.
pub fn hgetall(terms: Vec<Vec<u8>>, now: u64) -> (rites: Vec<Rite>)
    ensures
        hgetall_rites(key_views(terms@), now, rites@),
{
    if terms.len() != 2 {
        return refuse(Sacrilege::IncorrectNumberOfArguments(Command::HGETALL));
    }
    let key = term_at(&terms, 1);
    entrust(DatabaseCommand::Hgetall { key, time: now })
}

/// What a HGET request leads to.
pub open spec fn hget_rites(ts: Seq<Seq<u8>>, now: u64, rites: Seq<Rite>) -> bool {
    if ts.len() != 3 {
        refuses(rites, Sacrilege::IncorrectNumberOfArguments(Command::HGET))
    } else {
        &&& rites.len() == 1
        &&& rites[0] matches Rite::Entrust(ClientCommandType::Database(DatabaseCommand::Hget { key, field, time }))
        &&& key@ == ts[1] && field@ == ts[2] && time == now
    }
}

/// Checks a HGET request.
pub fn hget(terms: Vec<Vec<u8>>, now: u64) -> (rites: Vec<Rite>)
    ensures
        hget_rites(key_views(terms@), now, rites@),
{
    if terms.len() != 3 {
        return refuse(Sacrilege::IncorrectNumberOfArguments(Command::HGET));
    }
    let key = term_at(&terms, 1);
    let field = term_at(&terms, 2);
    entrust(DatabaseCommand::Hget { key, field, time: now })
}

/// What a SISMEMBER request leads to.
pub open spec fn sismember_rites(ts: Seq<Seq<u8>>, now: u64, rites: Seq<Rite>) -> bool {
    if ts.len() != 3 {
        refuses(rites, Sacrilege::IncorrectNumberOfArguments(Command::SISMEMBER))
    } else {
        &&& rites.len() == 1
        &&& rites[0] matches Rite::Entrust(ClientCommandType::Database(DatabaseCommand::Sismember { key, value, time }))
        &&& key@ == ts[1] && value@ == ts[2] && time == now
    }
}

/// Checks a SISMEMBER request.
pub fn sismember(terms: Vec<Vec<u8>>, now: u64) -> (rites: Vec<Rite>)
    ensures
        sismember_rites(key_views(terms@), now, rites@),
{
    if terms.len() != 3 {
        return refuse(Sacrilege::IncorrectNumberOfArguments(Command::SISMEMBER));
    }
    let key = term_at(&terms, 1);
    let value = term_at(&terms, 2);
    entrust(DatabaseCommand::Sismember { key, value, time: now })
}

/// What a APPEND request leads to.
pub open spec fn append_rites(ts: Seq<Seq<u8>>, now: u64, rites: Seq<Rite>) -> bool {
    if ts.len() != 3 {
        refuses(rites, Sacrilege::IncorrectNumberOfArguments(Command::APPEND))
    } else {
        &&& rites.len() == 1
        &&& rites[0] matches Rite::Entrust(ClientCommandType::Database(DatabaseCommand::Append { key, value, time }))
        &&& key@ == ts[1] && value@ == ts[2] && time == now
    }
}

/// Checks a APPEND request.
pub fn append(terms: Vec<Vec<u8>>, now: u64) -> (rites: Vec<Rite>)
    ensures
        append_rites(key_views(terms@), now, rites@),
{
    if terms.len() != 3 {
        return refuse(Sacrilege::IncorrectNumberOfArguments(Command::APPEND));
    }
    let key = term_at(&terms, 1);
    let value = term_at(&terms, 2);
    entrust(DatabaseCommand::Append { key, value, time: now })
}

/// What a DEL request leads to.
pub open spec fn del_rites(ts: Seq<Seq<u8>>, now: u64, rites: Seq<Rite>) -> bool {
    if ts.len() < 2 {
        refuses(rites, Sacrilege::IncorrectNumberOfArguments(Command::DEL))
    } else {
        &&& rites.len() == 1
        &&& rites[0] matches Rite::Entrust(ClientCommandType::Database(DatabaseCommand::Del { keys, time }))
        &&& key_views(keys@) == ts.skip(1) && time == now
    }
}

/// Checks a DEL request.
pub fn del(terms: Vec<Vec<u8>>, now: u64) -> (rites: Vec<Rite>)
    ensures
        del_rites(key_views(terms@), now, rites@),
{
    if terms.len() < 2 {
        return refuse(Sacrilege::IncorrectNumberOfArguments(Command::DEL));
    }
    let keys = terms_from(&terms, 1);
    entrust(DatabaseCommand::Del { keys, time: now })
}

/// What a EXISTS request leads to.
pub open spec fn exists_keys_rites(ts: Seq<Seq<u8>>, now: u64, rites: Seq<Rite>) -> bool {
    if ts.len() < 2 {
        refuses(rites, Sacrilege::IncorrectNumberOfArguments(Command::EXISTS))
    } else {
        &&& rites.len() == 1
        &&& rites[0] matches Rite::Entrust(ClientCommandType::Database(DatabaseCommand::Exists { keys, time }))
        &&& key_views(keys@) == ts.skip(1) && time == now
    }
}

/// Checks a EXISTS request.
pub fn exists_keys(terms: Vec<Vec<u8>>, now: u64) -> (rites: Vec<Rite>)
    ensures
        exists_keys_rites(key_views(terms@), now, rites@),
{
    if terms.len() < 2 {
        return refuse(Sacrilege::IncorrectNumberOfArguments(Command::EXISTS));
    }
    let keys = terms_from(&terms, 1);
    entrust(DatabaseCommand::Exists { keys, time: now })
}

/// What a MGET request leads to.
pub open spec fn mget_rites(ts: Seq<Seq<u8>>, now: u64, rites: Seq<Rite>) -> bool {
    if ts.len() < 2 {
        refuses(rites, Sacrilege::IncorrectNumberOfArguments(Command::MGET))
    } else {
        &&& rites.len() == 1
        &&& rites[0] matches Rite::Entrust(ClientCommandType::Database(DatabaseCommand::Mget { keys, time }))
        &&& key_views(keys@) == ts.skip(1) && time == now
    }
}

/// Checks a MGET request.
pub fn mget(terms: Vec<Vec<u8>>, now: u64) -> (rites: Vec<Rite>)
    ensures
        mget_rites(key_views(terms@), now, rites@),
{
    if terms.len() < 2 {
        return refuse(Sacrilege::IncorrectNumberOfArguments(Command::MGET));
    }
    let keys = terms_from(&terms, 1);
    entrust(DatabaseCommand::Mget { keys, time: now })
}

/// What a HDEL request leads to.
pub open spec fn hdel_rites(ts: Seq<Seq<u8>>, now: u64, rites: Seq<Rite>) -> bool {
    if ts.len() < 3 {
        refuses(rites, Sacrilege::IncorrectNumberOfArguments(Command::HDEL))
    } else {
        &&& rites.len() == 1
        &&& rites[0] matches Rite::Entrust(ClientCommandType::Database(DatabaseCommand::Hdel { key, fields, time }))
        &&& key@ == ts[1] && key_views(fields@) == ts.skip(2) && time == now
    }
}

/// Checks a HDEL request.
pub fn hdel(terms: Vec<Vec<u8>>, now: u64) -> (rites: Vec<Rite>)
    ensures
        hdel_rites(key_views(terms@), now, rites@),
{
    if terms.len() < 3 {
        return refuse(Sacrilege::IncorrectNumberOfArguments(Command::HDEL));
    }
    let key = term_at(&terms, 1);
    let fields = terms_from(&terms, 2);
    entrust(DatabaseCommand::Hdel { key, fields, time: now })
}

/// What a HMGET request leads to.
pub open spec fn hmget_rites(ts: Seq<Seq<u8>>, now: u64, rites: Seq<Rite>) -> bool {
    if ts.len() < 3 {
        refuses(rites, Sacrilege::IncorrectNumberOfArguments(Command::HMGET))
    } else {
        &&& rites.len() == 1
        &&& rites[0] matches Rite::Entrust(ClientCommandType::Database(DatabaseCommand::Hmget { key, fields, time }))
        &&& key@ == ts[1] && key_views(fields@) == ts.skip(2) && time == now
    }
}

/// Checks a HMGET request.
pub fn hmget(terms: Vec<Vec<u8>>, now: u64) -> (rites: Vec<Rite>)
    ensures
        hmget_rites(key_views(terms@), now, rites@),
{
    if terms.len() < 3 {
        return refuse(Sacrilege::IncorrectNumberOfArguments(Command::HMGET));
    }
    let key = term_at(&terms, 1);
    let fields = terms_from(&terms, 2);
    entrust(DatabaseCommand::Hmget { key, fields, time: now })
}

/// What a LPUSH request leads to.
pub open spec fn lpush_rites(ts: Seq<Seq<u8>>, now: u64, rites: Seq<Rite>) -> bool {
    if ts.len() < 3 {
        refuses(rites, Sacrilege::IncorrectNumberOfArguments(Command::LPUSH))
    } else {
        &&& rites.len() == 1
        &&& rites[0] matches Rite::Entrust(ClientCommandType::Database(DatabaseCommand::Lpush { key, elements, time }))
        &&& key@ == ts[1] && key_views(elements@) == ts.skip(2) && time == now
    }
}

/// Checks a LPUSH request.
pub fn lpush(terms: Vec<Vec<u8>>, now: u64) -> (rites: Vec<Rite>)
    ensures
        lpush_rites(key_views(terms@), now, rites@),
{
    if terms.len() < 3 {
        return refuse(Sacrilege::IncorrectNumberOfArguments(Command::LPUSH));
    }
    let key = term_at(&terms, 1);
    let elements = terms_from(&terms, 2);
    entrust(DatabaseCommand::Lpush { key, elements, time: now })
}

/// What a RPUSH request leads to.
pub open spec fn rpush_rites(ts: Seq<Seq<u8>>, now: u64, rites: Seq<Rite>) -> bool {
    if ts.len() < 3 {
        refuses(rites, Sacrilege::IncorrectNumberOfArguments(Command::RPUSH))
    } else {
        &&& rites.len() == 1
        &&& rites[0] matches Rite::Entrust(ClientCommandType::Database(DatabaseCommand::Rpush { key, elements, time }))
        &&& key@ == ts[1] && key_views(elements@) == ts.skip(2) && time == now
    }
}

/// Checks a RPUSH request.
pub fn rpush(terms: Vec<Vec<u8>>, now: u64) -> (rites: Vec<Rite>)
    ensures
        rpush_rites(key_views(terms@), now, rites@),
{
    if terms.len() < 3 {
        return refuse(Sacrilege::IncorrectNumberOfArguments(Command::RPUSH));
    }
    let key = term_at(&terms, 1);
    let elements = terms_from(&terms, 2);
    entrust(DatabaseCommand::Rpush { key, elements, time: now })
}

/// What a SADD request leads to.
pub open spec fn sadd_rites(ts: Seq<Seq<u8>>, now: u64, rites: Seq<Rite>) -> bool {
    if ts.len() < 3 {
        refuses(rites, Sacrilege::IncorrectNumberOfArguments(Command::SADD))
    } else {
        &&& rites.len() == 1
        &&& rites[0] matches Rite::Entrust(ClientCommandType::Database(DatabaseCommand::Sadd { key, values, time }))
        &&& key@ == ts[1] && key_views(values@) == ts.skip(2) && time == now
    }
}

/// Checks a SADD request.
pub fn sadd(terms: Vec<Vec<u8>>, now: u64) -> (rites: Vec<Rite>)
    ensures
        sadd_rites(key_views(terms@), now, rites@),
{
    if terms.len() < 3 {
        return refuse(Sacrilege::IncorrectNumberOfArguments(Command::SADD));
    }
    let key = term_at(&terms, 1);
    let values = terms_from(&terms, 2);
    entrust(DatabaseCommand::Sadd { key, values, time: now })
}

/// What a SREM request leads to.
pub open spec fn srem_rites(ts: Seq<Seq<u8>>, now: u64, rites: Seq<Rite>) -> bool {
    if ts.len() < 3 {
        refuses(rites, Sacrilege::IncorrectNumberOfArguments(Command::SREM))
    } else {
        &&& rites.len() == 1
        &&& rites[0] matches Rite::Entrust(ClientCommandType::Database(DatabaseCommand::Srem { key, values, time }))
        &&& key@ == ts[1] && key_views(values@) == ts.skip(2) && time == now
    }
}

/// Checks a SREM request.
pub fn srem(terms: Vec<Vec<u8>>, now: u64) -> (rites: Vec<Rite>)
    ensures
        srem_rites(key_views(terms@), now, rites@),
{
    if terms.len() < 3 {
        return refuse(Sacrilege::IncorrectNumberOfArguments(Command::SREM));
    }
    let key = term_at(&terms, 1);
    let values = terms_from(&terms, 2);
    entrust(DatabaseCommand::Srem { key, values, time: now })
}

/// What a SET request leads to: the value is stored as a string, with an
/// expiry when `EX` and a number of seconds follow.
pub open spec fn set_rites(ts: Seq<Seq<u8>>, now: u64, rites: Seq<Rite>) -> bool {
    if ts.len() > 5 || ts.len() < 3 {
        refuses(rites, Sacrilege::IncorrectNumberOfArguments(Command::SET))
    } else if ts.len() == 3 {
        &&& rites.len() == 1
        &&& rites[0] matches Rite::Entrust(ClientCommandType::Database(DatabaseCommand::Store { key, value }))
        &&& key@ == ts[1] && value.1 is None
        &&& value.0 matches Value::String(v)
        &&& v@ == ts[2]
    } else if !names(ts[3], "EX") {
        refuses(rites, Sacrilege::IncorrectNumberOfArguments(Command::SET))
    } else if ts.len() == 4 {
        refuses(rites, Sacrilege::IncorrectUsage(Command::SET))
    } else {
        match expiry_after(now, ts[4]) {
            Some(expiry) => {
                &&& rites.len() == 1
                &&& rites[0] matches Rite::Entrust(ClientCommandType::Database(DatabaseCommand::Store { key, value }))
                &&& key@ == ts[1] && value.1 == Some(expiry)
                &&& value.0 matches Value::String(v)
                &&& v@ == ts[2]
            },
            None => refuses(rites, Sacrilege::IncorrectUsage(Command::SET)),
        }
    }
}

/// Checks a SET request.
pub fn set(terms: Vec<Vec<u8>>, now: u64) -> (rites: Vec<Rite>)
    ensures
        set_rites(key_views(terms@), now, rites@),
{
    if terms.len() > 5 || terms.len() < 3 {
        return refuse(Sacrilege::IncorrectNumberOfArguments(Command::SET));
    }
    let key = term_at(&terms, 1);
    let value = term_at(&terms, 2);
    if terms.len() == 3 {
        return entrust(DatabaseCommand::Store { key, value: (Value::String(value), None) });
    }
    if !is_named(&terms[3], "EX") {
        return refuse(Sacrilege::IncorrectNumberOfArguments(Command::SET));
    }
    if terms.len() == 4 {
        return refuse(Sacrilege::IncorrectUsage(Command::SET));
    }
    match bytes_to_u64(terms[4].as_slice()) {
        Ok(seconds) => match now.checked_add(seconds) {
            Some(expiry) => entrust(DatabaseCommand::Store { key, value: (Value::String(value), Some(expiry)) }),
            None => refuse(Sacrilege::IncorrectUsage(Command::SET)),
        },
        Err(_) => refuse(Sacrilege::IncorrectUsage(Command::SET)),
    }
}

/// What an EXPIRE request leads to.
pub open spec fn expire_rites(ts: Seq<Seq<u8>>, now: u64, rites: Seq<Rite>) -> bool {
    if ts.len() != 3 {
        refuses(rites, Sacrilege::IncorrectNumberOfArguments(Command::EXPIRE))
    } else {
        match expiry_after(now, ts[2]) {
            Some(e) => {
                &&& rites.len() == 1
                &&& rites[0] matches Rite::Entrust(ClientCommandType::Database(DatabaseCommand::Expire { key, expiry, time }))
                &&& key@ == ts[1] && expiry == e && time == now
            },
            None => refuses(rites, Sacrilege::IncorrectUsage(Command::EXPIRE)),
        }
    }
}

/// Checks an EXPIRE request.
pub fn expire(terms: Vec<Vec<u8>>, now: u64) -> (rites: Vec<Rite>)
    ensures
        expire_rites(key_views(terms@), now, rites@),
{
    if terms.len() != 3 {
        return refuse(Sacrilege::IncorrectNumberOfArguments(Command::EXPIRE));
    }
    let key = term_at(&terms, 1);
    match bytes_to_u64(terms[2].as_slice()) {
        Ok(seconds) => match now.checked_add(seconds) {
            Some(expiry) => entrust(DatabaseCommand::Expire { key, expiry, time: now }),
            None => refuse(Sacrilege::IncorrectUsage(Command::EXPIRE)),
        },
        Err(_) => refuse(Sacrilege::IncorrectUsage(Command::EXPIRE)),
    }
}

/// What an HEXISTS request leads to.
pub open spec fn hexists_rites(ts: Seq<Seq<u8>>, now: u64, rites: Seq<Rite>) -> bool {
    if ts.len() < 3 {
        refuses(rites, Sacrilege::IncorrectNumberOfArguments(Command::HEXISTS))
    } else {
        &&& rites.len() == 1
        &&& rites[0] matches Rite::Entrust(ClientCommandType::Database(DatabaseCommand::Hexists { key, field, time }))
        &&& key@ == ts[1] && field@ == ts[2] && time == now
    }
}

/// Checks an HEXISTS request.
pub fn hexists(terms: Vec<Vec<u8>>, now: u64) -> (rites: Vec<Rite>)
    ensures
        hexists_rites(key_views(terms@), now, rites@),
{
    if terms.len() < 3 {
        return refuse(Sacrilege::IncorrectNumberOfArguments(Command::HEXISTS));
    }
    let key = term_at(&terms, 1);
    let field = term_at(&terms, 2);
    entrust(DatabaseCommand::Hexists { key, field, time: now })
}

/// What an HSET request leads to.
pub open spec fn hset_rites(ts: Seq<Seq<u8>>, now: u64, rites: Seq<Rite>) -> bool {
    if ts.len() < 4 || ts.len() % 2 == 1 {
        refuses(rites, Sacrilege::IncorrectNumberOfArguments(Command::HSET))
    } else {
        &&& rites.len() == 1
        &&& rites[0] matches Rite::Entrust(ClientCommandType::Database(DatabaseCommand::Hset { key, field_value_pairs, time }))
        &&& key@ == ts[1] && pair_views(field_value_pairs@) == pairs_from(ts, 2) && time == now
    }
}

/// Checks an HSET request.
pub fn hset(terms: Vec<Vec<u8>>, now: u64) -> (rites: Vec<Rite>)
    ensures
        hset_rites(key_views(terms@), now, rites@),
{
    if terms.len() < 4 || terms.len() % 2 == 1 {
        return refuse(Sacrilege::IncorrectNumberOfArguments(Command::HSET));
    }
    let key = term_at(&terms, 1);
    let field_value_pairs = pairs_of(&terms, 2);
    entrust(DatabaseCommand::Hset { key, field_value_pairs, time: now })
}

/// What an MSET request leads to.
pub open spec fn mset_rites(ts: Seq<Seq<u8>>, now: u64, rites: Seq<Rite>) -> bool {
    if ts.len() < 3 || ts.len() % 2 == 0 {
        refuses(rites, Sacrilege::IncorrectNumberOfArguments(Command::MSET))
    } else {
        &&& rites.len() == 1
        &&& rites[0] matches Rite::Entrust(ClientCommandType::Database(DatabaseCommand::Mset { terms }))
        &&& key_views(terms@) == ts.skip(1)
    }
}

/// Checks an MSET request.
pub fn mset(terms: Vec<Vec<u8>>, now: u64) -> (rites: Vec<Rite>)
    ensures
        mset_rites(key_views(terms@), now, rites@),
{
    if terms.len() < 3 || terms.len() % 2 == 0 {
        return refuse(Sacrilege::IncorrectNumberOfArguments(Command::MSET));
    }
    entrust(DatabaseCommand::Mset { terms: terms_from(&terms, 1) })
}

/// What an SMEMBERS request leads to.
pub open spec fn smembers_rites(ts: Seq<Seq<u8>>, now: u64, rites: Seq<Rite>) -> bool {
    if ts.len() < 2 {
        refuses(rites, Sacrilege::IncorrectNumberOfArguments(Command::SMEMBERS))
    } else {
        &&& rites.len() == 1
        &&& rites[0] matches Rite::Entrust(ClientCommandType::Database(DatabaseCommand::Smembers { key, time }))
        &&& key@ == ts[1] && time == now
    }
}

/// Checks an SMEMBERS request.
pub fn smembers(terms: Vec<Vec<u8>>, now: u64) -> (rites: Vec<Rite>)
    ensures
        smembers_rites(key_views(terms@), now, rites@),
{
    if terms.len() < 2 {
        return refuse(Sacrilege::IncorrectNumberOfArguments(Command::SMEMBERS));
    }
    let key = term_at(&terms, 1);
    entrust(DatabaseCommand::Smembers { key, time: now })
}

/// What an LRANGE request leads to.
pub open spec fn lrange_rites(ts: Seq<Seq<u8>>, now: u64, rites: Seq<Rite>) -> bool {
    if ts.len() < 4 {
        refuses(rites, Sacrilege::IncorrectNumberOfArguments(Command::LRANGE))
    } else {
        match (i32_of(ts[2]), i32_of(ts[3])) {
            (Some(s), Some(e)) => {
                &&& rites.len() == 1
                &&& rites[0] matches Rite::Entrust(ClientCommandType::Database(DatabaseCommand::Lrange { key, starting_index, ending_index, time }))
                &&& key@ == ts[1] && starting_index == s && ending_index == e && time == now
            },
            _ => refuses(rites, Sacrilege::IncorrectUsage(Command::LRANGE)),
        }
    }
}

/// Checks an LRANGE request.
pub fn lrange(terms: Vec<Vec<u8>>, now: u64) -> (rites: Vec<Rite>)
    ensures
        lrange_rites(key_views(terms@), now, rites@),
{
    if terms.len() < 4 {
        return refuse(Sacrilege::IncorrectNumberOfArguments(Command::LRANGE));
    }
    let key = term_at(&terms, 1);
    match (bytes_to_i32(terms[2].as_slice()), bytes_to_i32(terms[3].as_slice())) {
        (Ok(starting_index), Ok(ending_index)) => entrust(DatabaseCommand::Lrange { key, starting_index, ending_index, time: now }),
        _ => refuse(Sacrilege::IncorrectUsage(Command::LRANGE)),
    }
}

/// What an LSET request leads to.
pub open spec fn lset_rites(ts: Seq<Seq<u8>>, now: u64, rites: Seq<Rite>) -> bool {
    if ts.len() != 4 {
        refuses(rites, Sacrilege::IncorrectNumberOfArguments(Command::LSET))
    } else {
        match i32_of(ts[2]) {
            Some(i) => {
                &&& rites.len() == 1
                &&& rites[0] matches Rite::Entrust(ClientCommandType::Database(DatabaseCommand::Lset { key, index, element, time }))
                &&& key@ == ts[1] && index == i && element@ == ts[3] && time == now
            },
            None => refuses(rites, Sacrilege::IncorrectUsage(Command::LSET)),
        }
    }
}

/// Checks an LSET request.
pub fn lset(terms: Vec<Vec<u8>>, now: u64) -> (rites: Vec<Rite>)
    ensures
        lset_rites(key_views(terms@), now, rites@),
{
    if terms.len() != 4 {
        return refuse(Sacrilege::IncorrectNumberOfArguments(Command::LSET));
    }
    let key = term_at(&terms, 1);
    let element = term_at(&terms, 3);
    match bytes_to_i32(terms[2].as_slice()) {
        Ok(index) => entrust(DatabaseCommand::Lset { key, index, element, time: now }),
        Err(_) => refuse(Sacrilege::IncorrectUsage(Command::LSET)),
    }
}

/// What an LREM request leads to.
pub open spec fn lrem_rites(ts: Seq<Seq<u8>>, now: u64, rites: Seq<Rite>) -> bool {
    if ts.len() != 4 {
        refuses(rites, Sacrilege::IncorrectNumberOfArguments(Command::LREM))
    } else {
        match i32_of(ts[2]) {
            Some(c) => {
                &&& rites.len() == 1
                &&& rites[0] matches Rite::Entrust(ClientCommandType::Database(DatabaseCommand::Lrem { key, count, element, time }))
                &&& key@ == ts[1] && count == c && element@ == ts[3] && time == now
            },
            None => refuses(rites, Sacrilege::IncorrectUsage(Command::LREM)),
        }
    }
}

/// Checks an LREM request.
pub fn lrem(terms: Vec<Vec<u8>>, now: u64) -> (rites: Vec<Rite>)
    ensures
        lrem_rites(key_views(terms@), now, rites@),
{
    if terms.len() != 4 {
        return refuse(Sacrilege::IncorrectNumberOfArguments(Command::LREM));
    }
    let key = term_at(&terms, 1);
    let element = term_at(&terms, 3);
    match bytes_to_i32(terms[2].as_slice()) {
        Ok(count) => entrust(DatabaseCommand::Lrem { key, count, element, time: now }),
        Err(_) => refuse(Sacrilege::IncorrectUsage(Command::LREM)),
    }
}

/// What an LINDEX request leads to.
pub open spec fn lindex_rites(ts: Seq<Seq<u8>>, now: u64, rites: Seq<Rite>) -> bool {
    if ts.len() != 3 {
        refuses(rites, Sacrilege::IncorrectNumberOfArguments(Command::LINDEX))
    } else {
        match i32_of(ts[2]) {
            Some(i) => {
                &&& rites.len() == 1
                &&& rites[0] matches Rite::Entrust(ClientCommandType::Database(DatabaseCommand::Lindex { key, index, time }))
                &&& key@ == ts[1] && index == i && time == now
            },
            None => refuses(rites, Sacrilege::IncorrectUsage(Command::LINDEX)),
        }
    }
}

/// Checks an LINDEX request.
pub fn lindex(terms: Vec<Vec<u8>>, now: u64) -> (rites: Vec<Rite>)
    ensures
        lindex_rites(key_views(terms@), now, rites@),
{
    if terms.len() != 3 {
        return refuse(Sacrilege::IncorrectNumberOfArguments(Command::LINDEX));
    }
    let key = term_at(&terms, 1);
    match bytes_to_i32(terms[2].as_slice()) {
        Ok(index) => entrust(DatabaseCommand::Lindex { key, index, time: now }),
        Err(_) => refuse(Sacrilege::IncorrectUsage(Command::LINDEX)),
    }
}

/// What an LPOP or RPOP request leads to: a key, then at most a count.
pub open spec fn pop_rites(ts: Seq<Seq<u8>>, now: u64, from_back: bool, command: Command, rites: Seq<Rite>) -> bool {
    if ts.len() < 2 || ts.len() > 3 {
        refuses(rites, Sacrilege::IncorrectNumberOfArguments(command))
    } else if ts.len() == 3 {
        match unsigned_reading(ts[2], usize::MAX as nat) {
            Some(n) => {
                &&& rites.len() == 1
                &&& if from_back {
                    &&& rites[0] matches Rite::Entrust(ClientCommandType::Database(DatabaseCommand::RpopM { key, count, time }))
                    &&& key@ == ts[1] && count == n && time == now
                } else {
                    &&& rites[0] matches Rite::Entrust(ClientCommandType::Database(DatabaseCommand::LpopM { key, count, time }))
                    &&& key@ == ts[1] && count == n && time == now
                }
            },
            None => refuses(rites, Sacrilege::IncorrectUsage(command)),
        }
    } else {
        &&& rites.len() == 1
        &&& if from_back {
            &&& rites[0] matches Rite::Entrust(ClientCommandType::Database(DatabaseCommand::Rpop { key, time }))
            &&& key@ == ts[1] && time == now
        } else {
            &&& rites[0] matches Rite::Entrust(ClientCommandType::Database(DatabaseCommand::Lpop { key, time }))
            &&& key@ == ts[1] && time == now
        }
    }
}

/// Checks an LPOP or RPOP request.
fn pop(terms: Vec<Vec<u8>>, now: u64, from_back: bool, command: Command) -> (rites: Vec<Rite>)
    ensures
        pop_rites(key_views(terms@), now, from_back, command, rites@),
{
    if terms.len() < 2 || terms.len() > 3 {
        return refuse(Sacrilege::IncorrectNumberOfArguments(command));
    }
    let key = term_at(&terms, 1);
    if terms.len() == 3 {
        match bytes_to_usize(terms[2].as_slice()) {
            Ok(count) => if from_back {
                entrust(DatabaseCommand::RpopM { key, count, time: now })
            } else {
                entrust(DatabaseCommand::LpopM { key, count, time: now })
            },
            Err(_) => refuse(Sacrilege::IncorrectUsage(command)),
        }
    } else if from_back {
        entrust(DatabaseCommand::Rpop { key, time: now })
    } else {
        entrust(DatabaseCommand::Lpop { key, time: now })
    }
}

/// Checks an LPOP request.
pub fn lpop(terms: Vec<Vec<u8>>, now: u64) -> (rites: Vec<Rite>)
    ensures
        pop_rites(key_views(terms@), now, false, Command::LPOP, rites@),
{
    pop(terms, now, false, Command::LPOP)
}

/// Checks an RPOP request.
pub fn rpop(terms: Vec<Vec<u8>>, now: u64) -> (rites: Vec<Rite>)
    ensures
        pop_rites(key_views(terms@), now, true, Command::RPOP, rites@),
{
    pop(terms, now, true, Command::RPOP)
}

/// What a PING leads to: a pong, or the one message it carries, echoed
/// back.
pub open spec fn ping_rites(ts: Seq<Seq<u8>>, rites: Seq<Rite>) -> bool {
    if ts.len() == 1 {
        rites == seq![Rite::Answer(Response::Info(InfoType::Pong))]
    } else if ts.len() == 2 {
        &&& rites.len() == 1
        &&& rites[0] matches Rite::Answer(Response::BulkString(Some(message)))
        &&& message@ == ts[1]
    } else {
        refuses(rites, Sacrilege::IncorrectNumberOfArguments(Command::PING))
    }
}

/// Checks a PING.
pub fn ping(terms: Vec<Vec<u8>>) -> (rites: Vec<Rite>)
    ensures
        ping_rites(key_views(terms@), rites@),
{
    if terms.len() == 1 {
        one(Rite::Answer(Response::Info(InfoType::Pong)))
    } else if terms.len() == 2 {
        one(Rite::Answer(Response::BulkString(Some(term_at(&terms, 1)))))
    } else {
        refuse(Sacrilege::IncorrectNumberOfArguments(Command::PING))
    }
}

/// What a SUBSCRIBE request leads to.
pub open spec fn subscribe_rites(ts: Seq<Seq<u8>>, rites: Seq<Rite>) -> bool {
    if ts.len() < 2 {
        refuses(rites, Sacrilege::IncorrectNumberOfArguments(Command::SUBSCRIBE))
    } else {
        &&& rites.len() == 1
        &&& rites[0] matches Rite::Entrust(ClientCommandType::Broadcast(BroadcastCommand::Subscribe { events }))
        &&& key_views(events@) == ts.skip(1)
    }
}

/// Checks a SUBSCRIBE request.
pub fn subscribe(terms: Vec<Vec<u8>>) -> (rites: Vec<Rite>)
    ensures
        subscribe_rites(key_views(terms@), rites@),
{
    if terms.len() < 2 {
        return refuse(Sacrilege::IncorrectNumberOfArguments(Command::SUBSCRIBE));
    }
    let events = terms_from(&terms, 1);
    one(Rite::Entrust(ClientCommandType::Broadcast(BroadcastCommand::Subscribe { events })))
}

/// What an UNSUBSCRIBE request leads to.
pub open spec fn unsubscribe_rites(ts: Seq<Seq<u8>>, rites: Seq<Rite>) -> bool {
    &&& rites.len() == 1
    &&& rites[0] matches Rite::Entrust(ClientCommandType::Broadcast(BroadcastCommand::Unsubscribe { terms }))
    &&& key_views(terms@) == if ts.len() > 0 { ts.skip(1) } else { Seq::empty() }
}

/// Checks an UNSUBSCRIBE request.
pub fn unsubscribe(terms: Vec<Vec<u8>>) -> (rites: Vec<Rite>)
    ensures
        unsubscribe_rites(key_views(terms@), rites@),
{
    let rest = if terms.len() > 0 {
        terms_from(&terms, 1)
    } else {
        let none: Vec<Vec<u8>> = Vec::new();
        assert(key_views(none@) =~= Seq::<Seq<u8>>::empty());
        none
    };
    one(Rite::Entrust(ClientCommandType::Broadcast(BroadcastCommand::Unsubscribe { terms: rest })))
}

/// What a PUBLISH request leads to.
pub open spec fn publish_rites(ts: Seq<Seq<u8>>, rites: Seq<Rite>) -> bool {
    if ts.len() != 3 {
        refuses(rites, Sacrilege::IncorrectNumberOfArguments(Command::PUBLISH))
    } else {
        &&& rites.len() == 1
        &&& rites[0] matches Rite::Entrust(ClientCommandType::Broadcast(BroadcastCommand::Publish { event, message }))
        &&& event@ == ts[1] && message@ == ts[2]
    }
}

/// Checks a PUBLISH request.
pub fn publish(terms: Vec<Vec<u8>>) -> (rites: Vec<Rite>)
    ensures
        publish_rites(key_views(terms@), rites@),
{
    if terms.len() != 3 {
        return refuse(Sacrilege::IncorrectNumberOfArguments(Command::PUBLISH));
    }
    let event = term_at(&terms, 1);
    let message = term_at(&terms, 2);
    one(Rite::Entrust(ClientCommandType::Broadcast(BroadcastCommand::Publish { event, message })))
}

/// What a request leads to, by the name of its command, up to ASCII case.
pub open spec fn grant_rites(ts: Seq<Seq<u8>>, now: u64, nanos: u32, rites: Seq<Rite>) -> bool {
    if names(ts[0], "GET") {
        get_rites(ts, now, rites)
    } else if names(ts[0], "SET") {
        set_rites(ts, now, rites)
    } else if names(ts[0], "DEL") {
        del_rites(ts, now, rites)
    } else if names(ts[0], "EXISTS") {
        exists_keys_rites(ts, now, rites)
    } else if names(ts[0], "INCR") {
        incr_rites(ts, now, rites)
    } else if names(ts[0], "DECR") {
        decr_rites(ts, now, rites)
    } else if names(ts[0], "APPEND") {
        append_rites(ts, now, rites)
    } else if names(ts[0], "STRLEN") {
        strlen_rites(ts, now, rites)
    } else if names(ts[0], "HSET") {
        hset_rites(ts, now, rites)
    } else if names(ts[0], "HGET") {
        hget_rites(ts, now, rites)
    } else if names(ts[0], "HMGET") {
        hmget_rites(ts, now, rites)
    } else if names(ts[0], "HDEL") {
        hdel_rites(ts, now, rites)
    } else if names(ts[0], "HEXISTS") {
        hexists_rites(ts, now, rites)
    } else if names(ts[0], "HLEN") {
        hlen_rites(ts, now, rites)
    } else if names(ts[0], "HGETALL") {
        hgetall_rites(ts, now, rites)
    } else if names(ts[0], "LPUSH") {
        lpush_rites(ts, now, rites)
    } else if names(ts[0], "RPUSH") {
        rpush_rites(ts, now, rites)
    } else if names(ts[0], "LPOP") {
        pop_rites(ts, now, false, Command::LPOP, rites)
    } else if names(ts[0], "RPOP") {
        pop_rites(ts, now, true, Command::RPOP, rites)
    } else if names(ts[0], "LLEN") {
        llen_rites(ts, now, rites)
    } else if names(ts[0], "LRANGE") {
        lrange_rites(ts, now, rites)
    } else if names(ts[0], "LINDEX") {
        lindex_rites(ts, now, rites)
    } else if names(ts[0], "LSET") {
        lset_rites(ts, now, rites)
    } else if names(ts[0], "LREM") {
        lrem_rites(ts, now, rites)
    } else if names(ts[0], "EXPIRE") {
        expire_rites(ts, now, rites)
    } else if names(ts[0], "TTL") {
        ttl_rites(ts, now, nanos, rites)
    } else if names(ts[0], "MSET") {
        mset_rites(ts, now, rites)
    } else if names(ts[0], "MGET") {
        mget_rites(ts, now, rites)
    } else if names(ts[0], "SADD") {
        sadd_rites(ts, now, rites)
    } else if names(ts[0], "SREM") {
        srem_rites(ts, now, rites)
    } else if names(ts[0], "SISMEMBER") {
        sismember_rites(ts, now, rites)
    } else if names(ts[0], "SMEMBERS") {
        smembers_rites(ts, now, rites)
    } else if names(ts[0], "PING") {
        ping_rites(ts, rites)
    } else if names(ts[0], "SUBSCRIBE") {
        subscribe_rites(ts, rites)
    } else if names(ts[0], "UNSUBSCRIBE") {
        unsubscribe_rites(ts, rites)
    } else if names(ts[0], "PUBLISH") {
        publish_rites(ts, rites)
    } else if names(ts[0], "COMMAND") || names(ts[0], "CONFIG") {
        rites == seq![Rite::Answer(Response::Info(InfoType::OK))]
    } else {
        refuses(rites, Sacrilege::UnknownCommand)
    }
}

/// Checks a request of a client, by the name of its command, up to ASCII
/// case, made `nanos` nanoseconds after second `now` of the Unix epoch.
pub fn grant(terms: Vec<Vec<u8>>, now: u64, nanos: u32) -> (rites: Vec<Rite>)
    requires
        terms@.len() > 0,
    ensures
        grant_rites(key_views(terms@), now, nanos, rites@),
{
    let name = term_at(&terms, 0);
    if is_named(&name, "GET") {
        get(terms, now)
    } else if is_named(&name, "SET") {
        set(terms, now)
    } else if is_named(&name, "DEL") {
        del(terms, now)
    } else if is_named(&name, "EXISTS") {
        exists_keys(terms, now)
    } else if is_named(&name, "INCR") {
        incr(terms, now)
    } else if is_named(&name, "DECR") {
        decr(terms, now)
    } else if is_named(&name, "APPEND") {
        append(terms, now)
    } else if is_named(&name, "STRLEN") {
        strlen(terms, now)
    } else if is_named(&name, "HSET") {
        hset(terms, now)
    } else if is_named(&name, "HGET") {
        hget(terms, now)
    } else if is_named(&name, "HMGET") {
        hmget(terms, now)
    } else if is_named(&name, "HDEL") {
        hdel(terms, now)
    } else if is_named(&name, "HEXISTS") {
        hexists(terms, now)
    } else if is_named(&name, "HLEN") {
        hlen(terms, now)
    } else if is_named(&name, "HGETALL") {
        hgetall(terms, now)
    } else if is_named(&name, "LPUSH") {
        lpush(terms, now)
    } else if is_named(&name, "RPUSH") {
        rpush(terms, now)
    } else if is_named(&name, "LPOP") {
        lpop(terms, now)
    } else if is_named(&name, "RPOP") {
        rpop(terms, now)
    } else if is_named(&name, "LLEN") {
        llen(terms, now)
    } else if is_named(&name, "LRANGE") {
        lrange(terms, now)
    } else if is_named(&name, "LINDEX") {
        lindex(terms, now)
    } else if is_named(&name, "LSET") {
        lset(terms, now)
    } else if is_named(&name, "LREM") {
        lrem(terms, now)
    } else if is_named(&name, "EXPIRE") {
        expire(terms, now)
    } else if is_named(&name, "TTL") {
        ttl(terms, now, nanos)
    } else if is_named(&name, "MSET") {
        mset(terms, now)
    } else if is_named(&name, "MGET") {
        mget(terms, now)
    } else if is_named(&name, "SADD") {
        sadd(terms, now)
    } else if is_named(&name, "SREM") {
        srem(terms, now)
    } else if is_named(&name, "SISMEMBER") {
        sismember(terms, now)
    } else if is_named(&name, "SMEMBERS") {
        smembers(terms, now)
    } else if is_named(&name, "PING") {
        ping(terms)
    } else if is_named(&name, "SUBSCRIBE") {
        subscribe(terms)
    } else if is_named(&name, "UNSUBSCRIBE") {
        unsubscribe(terms)
    } else if is_named(&name, "PUBLISH") {
        publish(terms)
    } else if is_named(&name, "COMMAND") || is_named(&name, "CONFIG") {
        one(Rite::Answer(Response::Info(InfoType::OK)))
    } else {
        refuse(Sacrilege::UnknownCommand)
    }
}

} // verus!
