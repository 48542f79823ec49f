use vstd::prelude::*;

use crate::temple::soul::{
    add_members, drop_fields, live, put_fields, range_of, removal, spec_del, string_of, Datum, Keyspace,
};
use crate::temple::{fulfils, ClientCommandType};
use crate::wish::grant::{
    append_rites, del_rites, expire_rites, expiry_after, get_rites, hdel_rites, hexists_rites, hlen_rites,
    hmget_rites, hset_rites, i32_of, pairs_from, lindex_rites, llen_rites, lpush_rites, lrange_rites, lrem_rites, lset_rites, mget_rites,
    names, rpush_rites, sadd_rites, set_rites, sismember_rites, strlen_rites, ttl_rites, Rite,
};
use crate::wish::util::unsigned_reading;
use crate::wish::{Command, InfoType, Response, Sacrilege};

verus! {

/// The first rite hands the keyspace a request which, carried out on
/// `before`, leaves `after` and answers `response`.
pub open spec fn served(rites: Seq<Rite>, before: Keyspace, after: Keyspace, response: Response) -> bool {
    &&& rites.len() > 0
    &&& rites[0] matches Rite::Entrust(ClientCommandType::Database(c)) && fulfils(before, c, after, response)
}

/// A GET request answers the string stored under the key it names, nil for
/// an absent key, and changes nothing.
pub proof fn law_get_request_reads_the_named_key(ts: Seq<Seq<u8>>, now: u64, rites: Seq<Rite>, before: Keyspace, after: Keyspace, response: Response)
    requires
        get_rites(ts, now, rites),
        ts.len() == 2,
        served(rites, before, after, response),
    ensures
        after == before,
        live(before, ts[1], now) matches Some(Datum::Str(v)) ==> response matches Response::BulkString(b) && b.deep_view() == Some(v),
        live(before, ts[1], now) is None ==> response matches Response::BulkString(None),
        live(before, ts[1], now) matches Some(d) && !(d is Str) ==> response == Response::Error(Sacrilege::IncorrectUsage(Command::GET)),
{
}

/// A SET request stores its value under its key with no expiry, or with the
/// expiry that EX gives, counted from now, and answers OK.
pub proof fn law_set_request_stores_the_named_value(ts: Seq<Seq<u8>>, now: u64, rites: Seq<Rite>, before: Keyspace, after: Keyspace, response: Response)
    requires
        set_rites(ts, now, rites),
        served(rites, before, after, response),
    ensures
        ts.len() == 3 ==> response == Response::Info(InfoType::OK) && after == before.insert(ts[1], (Datum::Str(ts[2]), None)),
        ts.len() == 5 && names(ts[3], "EX") ==> match unsigned_reading(ts[4], u64::MAX as nat) {
            Some(secs) => now + secs <= u64::MAX ==> response == Response::Info(InfoType::OK)
                && after == before.insert(ts[1], (Datum::Str(ts[2]), Some((now + secs) as u64))),
            None => true,
        },
{
}

/// An APPEND request adds its value at the end of the string under its key
/// (a string of its own for an absent key) and answers the new length.
pub proof fn law_append_request_extends_the_named_string(ts: Seq<Seq<u8>>, now: u64, rites: Seq<Rite>, before: Keyspace, after: Keyspace, response: Response)
    requires
        append_rites(ts, now, rites),
        ts.len() == 3,
        served(rites, before, after, response),
    ensures
        match live(before, ts[1], now) {
            Some(Datum::Str(v)) => v.len() + ts[2].len() <= usize::MAX ==> {
                &&& string_of(after, ts[1], now) == Some(v + ts[2])
                &&& response matches Response::Length(n) && n == v.len() + ts[2].len()
            },
            None => ts[2].len() <= usize::MAX ==> {
                &&& string_of(after, ts[1], now) == Some(ts[2])
                &&& response matches Response::Length(n) && n == ts[2].len()
            },
            _ => after == before,
        },
{
}

proof fn lemma_del(ks: Keyspace, keys: Seq<Seq<u8>>, now: u64)
    ensures
        spec_del(ks, keys, now).0 == ks.remove_keys(keys.to_set()),
    decreases keys.len(),
{
    if keys.len() > 0 {
        lemma_del(ks, keys.drop_last(), now);
        assert(keys =~= keys.drop_last().push(keys.last()));
        keys.drop_last().lemma_push_to_set_commute(keys.last());
        assert(spec_del(ks, keys, now).0 =~= ks.remove_keys(keys.to_set()));
    } else {
        assert(ks.remove_keys(keys.to_set()) =~= ks);
    }
}

/// A DEL request removes every key it names and leaves every other key as
/// it was.
pub proof fn law_del_request_removes_the_named_keys(ts: Seq<Seq<u8>>, now: u64, rites: Seq<Rite>, before: Keyspace, after: Keyspace, response: Response)
    requires
        del_rites(ts, now, rites),
        ts.len() >= 2,
        served(rites, before, after, response),
    ensures
        forall|j: int| 1 <= j < ts.len() ==> !after.contains_key(#[trigger] ts[j]),
        forall|k: Seq<u8>| !ts.skip(1).contains(k) ==> (after.contains_key(k) <==> before.contains_key(k))
            && (before.contains_key(k) ==> #[trigger] after[k] == before[k]),
{
    lemma_del(before, ts.skip(1), now);
    assert forall|j: int| 1 <= j < ts.len() implies !after.contains_key(#[trigger] ts[j]) by {
        assert(ts.skip(1)[j - 1] == ts[j]);
        assert(ts.skip(1).to_set().contains(ts[j]));
    }
}

/// STRLEN, HLEN and LLEN answer the size of the value under the key they
/// name, zero for an absent key.
pub proof fn law_size_requests_measure_the_named_key(ts: Seq<Seq<u8>>, now: u64, rites: Seq<Rite>, before: Keyspace, after: Keyspace, response: Response)
    requires
        ts.len() == 2,
        served(rites, before, after, response),
    ensures
        strlen_rites(ts, now, rites) ==> match live(before, ts[1], now) {
            Some(Datum::Str(v)) => v.len() <= usize::MAX ==> (response matches Response::Length(n) && n == v.len()),
            None => response matches Response::Length(n) && n == 0,
            _ => response == Response::Error(Sacrilege::IncorrectUsage(Command::STRLEN)),
        },
        llen_rites(ts, now, rites) ==> match live(before, ts[1], now) {
            Some(Datum::List(l)) => l.len() <= usize::MAX ==> (response matches Response::Length(n) && n == l.len()),
            None => response matches Response::Length(n) && n == 0,
            _ => response == Response::Error(Sacrilege::IncorrectUsage(Command::LLEN)),
        },
        hlen_rites(ts, now, rites) ==> match live(before, ts[1], now) {
            Some(Datum::Hash(m)) => m.len() <= usize::MAX ==> (response matches Response::Length(n) && n == m.len()),
            None => response matches Response::Length(n) && n == 0,
            _ => response == Response::Error(Sacrilege::IncorrectUsage(Command::HLEN)),
        },
{
}

/// An HEXISTS request answers whether the hash under the key it names has
/// the field it names.
pub proof fn law_hexists_request_checks_the_named_field(ts: Seq<Seq<u8>>, now: u64, rites: Seq<Rite>, before: Keyspace, after: Keyspace, response: Response)
    requires
        hexists_rites(ts, now, rites),
        ts.len() >= 3,
        served(rites, before, after, response),
    ensures
        after == before,
        live(before, ts[1], now) matches Some(Datum::Hash(m)) ==> response == Response::Amount(if m.contains_key(ts[2]) { 1u32 } else { 0u32 }),
        live(before, ts[1], now) is None ==> response == Response::Amount(0),
{
}

/// An HMGET request answers, for each field it names in turn, its value in
/// the hash under the key it names, nil where there is none.
pub proof fn law_hmget_request_reads_each_named_field(ts: Seq<Seq<u8>>, now: u64, rites: Seq<Rite>, before: Keyspace, after: Keyspace, response: Response)
    requires
        hmget_rites(ts, now, rites),
        ts.len() >= 3,
        served(rites, before, after, response),
    ensures
        after == before,
        live(before, ts[1], now) matches Some(Datum::Hash(m)) ==> (response matches Response::BulkStringArray(Some(b)) && {
            let vs = b.deep_view();
            &&& vs.len() == ts.len() - 2
            &&& forall|i: int| 0 <= i < vs.len() ==> #[trigger] vs[i] == if m.contains_key(ts[i + 2]) { Some(m[ts[i + 2]]) } else { None }
        }),
        live(before, ts[1], now) is None ==> (response matches Response::BulkStringArray(Some(b)) && {
            let vs = b.deep_view();
            &&& vs.len() == ts.len() - 2
            &&& forall|i: int| 0 <= i < vs.len() ==> #[trigger] vs[i] is None
        }),
{
}

proof fn lemma_drop_fields(m: Map<Seq<u8>, Seq<u8>>, fields: Seq<Seq<u8>>)
    ensures
        drop_fields(m, fields).0 == m.remove_keys(fields.to_set()),
    decreases fields.len(),
{
    if fields.len() > 0 {
        lemma_drop_fields(m, fields.drop_last());
        assert(fields =~= fields.drop_last().push(fields.last()));
        fields.drop_last().lemma_push_to_set_commute(fields.last());
        assert(drop_fields(m, fields).0 =~= m.remove_keys(fields.to_set()));
    } else {
        assert(m.remove_keys(fields.to_set()) =~= m);
    }
}

/// After an HDEL request, the hash under the key it names has none of the
/// fields it names and keeps every other field.
pub proof fn law_hdel_request_removes_the_named_fields(ts: Seq<Seq<u8>>, now: u64, rites: Seq<Rite>, before: Keyspace, after: Keyspace, response: Response)
    requires
        hdel_rites(ts, now, rites),
        ts.len() >= 3,
        served(rites, before, after, response),
    ensures
        live(before, ts[1], now) matches Some(Datum::Hash(m)) ==> {
            let rest = m.remove_keys(ts.skip(2).to_set());
            &&& after == if rest == Map::<Seq<u8>, Seq<u8>>::empty() {
                before.remove(ts[1])
            } else {
                before.insert(ts[1], (Datum::Hash(rest), before[ts[1]].1))
            }
        },
        live(before, ts[1], now) is None ==> after == before && response == Response::Amount(0),
{
    if let Some(Datum::Hash(m)) = live(before, ts[1], now) {
        lemma_drop_fields(m, ts.skip(2));
    }
}

proof fn lemma_add_members(s: Set<Seq<u8>>, values: Seq<Seq<u8>>)
    ensures
        add_members(s, values).0 == s + values.to_set(),
    decreases values.len(),
{
    if values.len() > 0 {
        lemma_add_members(s, values.drop_last());
        assert(values =~= values.drop_last().push(values.last()));
        values.drop_last().lemma_push_to_set_commute(values.last());
        assert(add_members(s, values).0 =~= s + values.to_set());
    } else {
        assert(s + values.to_set() =~= s);
    }
}

/// After an SADD request, the set under the key it names holds what it held
/// (nothing, for an absent key) together with every member it names.
pub proof fn law_sadd_request_adds_the_named_members(ts: Seq<Seq<u8>>, now: u64, rites: Seq<Rite>, before: Keyspace, after: Keyspace, response: Response)
    requires
        sadd_rites(ts, now, rites),
        ts.len() >= 3,
        served(rites, before, after, response),
    ensures
        live(before, ts[1], now) matches Some(Datum::Members(s)) ==>
            after == before.insert(ts[1], (Datum::Members(s + ts.skip(2).to_set()), before[ts[1]].1)),
        live(before, ts[1], now) is None ==>
            after == before.insert(ts[1], (Datum::Members(ts.skip(2).to_set()), None)),
{
    if let Some(Datum::Members(s)) = live(before, ts[1], now) {
        lemma_add_members(s, ts.skip(2));
    } else {
        lemma_add_members(Set::<Seq<u8>>::empty(), ts.skip(2));
        assert(Set::<Seq<u8>>::empty() + ts.skip(2).to_set() =~= ts.skip(2).to_set());
    }
}

/// An SISMEMBER request answers whether the set under the key it names
/// holds the member it names.
pub proof fn law_sismember_request_checks_the_named_member(ts: Seq<Seq<u8>>, now: u64, rites: Seq<Rite>, before: Keyspace, after: Keyspace, response: Response)
    requires
        sismember_rites(ts, now, rites),
        ts.len() == 3,
        served(rites, before, after, response),
    ensures
        after == before,
        live(before, ts[1], now) matches Some(Datum::Members(s)) ==> (response matches Response::Length(n) && n == if s.contains(ts[2]) { 1int } else { 0int }),
        live(before, ts[1], now) is None ==> (response matches Response::Length(n) && n == 0),
{
}

/// LPUSH puts the elements it names at the head of the list under its key,
/// each in front of the one before, so the last named ends up first; RPUSH
/// puts them at the tail in the order named.
pub proof fn law_push_requests_add_the_named_elements(ts: Seq<Seq<u8>>, now: u64, rites: Seq<Rite>, before: Keyspace, after: Keyspace, response: Response)
    requires
        ts.len() >= 3,
        served(rites, before, after, response),
    ensures
        lpush_rites(ts, now, rites) ==> match live(before, ts[1], now) {
            Some(Datum::List(l)) => after == before.insert(ts[1], (Datum::List(ts.skip(2).reverse() + l), before[ts[1]].1)),
            None => after == before.insert(ts[1], (Datum::List(ts.skip(2).reverse()), None)),
            _ => after == before,
        },
        rpush_rites(ts, now, rites) ==> match live(before, ts[1], now) {
            Some(Datum::List(l)) => after == before.insert(ts[1], (Datum::List(l + ts.skip(2)), before[ts[1]].1)),
            None => after == before.insert(ts[1], (Datum::List(ts.skip(2)), None)),
            _ => after == before,
        },
{
}

/// The position in a list of `len` elements that an index names, counting
/// from the end when it is negative.
pub open spec fn position(index: int, len: int) -> int {
    if index < 0 { len + index } else { index }
}

/// LINDEX answers the element at the index it names in the list under its
/// key, nil past either end; LSET replaces that element with the one it
/// names and answers OK, and is refused past either end.
pub proof fn law_index_requests_use_the_named_position(ts: Seq<Seq<u8>>, now: u64, rites: Seq<Rite>, before: Keyspace, after: Keyspace, response: Response)
    requires
        ts.len() >= 3,
        served(rites, before, after, response),
    ensures
        lindex_rites(ts, now, rites) ==> match (live(before, ts[1], now), i32_of(ts[2])) {
            (Some(Datum::List(l)), Some(i)) => {
                let p = position(i, l.len() as int);
                &&& after == before
                &&& response matches Response::BulkString(b) && b.deep_view() == if 0 <= p < l.len() { Some(l[p]) } else { None }
            },
            _ => true,
        },
        lset_rites(ts, now, rites) && ts.len() == 4 ==> match (live(before, ts[1], now), i32_of(ts[2])) {
            (Some(Datum::List(l)), Some(i)) => {
                let p = position(i, l.len() as int);
                if 0 <= p < l.len() {
                    &&& response == Response::Info(InfoType::OK)
                    &&& after == before.insert(ts[1], (Datum::List(l.update(p, ts[3])), before[ts[1]].1))
                } else {
                    &&& response == Response::Error(Sacrilege::IncorrectUsage(Command::LSET))
                    &&& after == before
                }
            },
            _ => true,
        },
{
}

/// LRANGE answers the elements of the list under its key between the
/// positions it names; LREM takes out of that list occurrences of the
/// element it names, as many as its count says, and answers how many went.
pub proof fn law_list_requests_use_the_named_terms(ts: Seq<Seq<u8>>, now: u64, rites: Seq<Rite>, before: Keyspace, after: Keyspace, response: Response)
    requires
        ts.len() >= 4,
        served(rites, before, after, response),
    ensures
        lrange_rites(ts, now, rites) ==> match (live(before, ts[1], now), i32_of(ts[2]), i32_of(ts[3])) {
            (Some(Datum::List(l)), Some(s), Some(e)) => {
                &&& after == before
                &&& response matches Response::BulkStringArray(Some(b))
                    && b.deep_view() == range_of(l, s, e).map_values(|x: Seq<u8>| Some(x))
            },
            _ => true,
        },
        lrem_rites(ts, now, rites) && ts.len() == 4 ==> match (live(before, ts[1], now), i32_of(ts[2])) {
            (Some(Datum::List(l)), Some(c)) => {
                let rest = removal(l, c, ts[3]);
                &&& l.len() <= usize::MAX ==> (response matches Response::Length(n) && n == l.len() - rest.len())
                &&& after == if rest.len() == 0 {
                    before.remove(ts[1])
                } else {
                    before.insert(ts[1], (Datum::List(rest), before[ts[1]].1))
                }
            },
            _ => true,
        },
{
    if lrem_rites(ts, now, rites) && ts.len() == 4 {
        if let (Some(Datum::List(l)), Some(c)) = (live(before, ts[1], now), i32_of(ts[2])) {
            crate::temple::soul::lemma_removal_shrinks(l, c, ts[3]);
        }
    }
}

/// An MGET request answers, for each key it names in turn, the string under
/// it, nil where there is none.
pub proof fn law_mget_request_reads_each_named_key(ts: Seq<Seq<u8>>, now: u64, rites: Seq<Rite>, before: Keyspace, after: Keyspace, response: Response)
    requires
        mget_rites(ts, now, rites),
        ts.len() >= 2,
        served(rites, before, after, response),
    ensures
        after == before,
        response matches Response::BulkStringArray(Some(b)) && {
            let vs = b.deep_view();
            &&& vs.len() == ts.len() - 1
            &&& forall|i: int| 0 <= i < vs.len() ==> #[trigger] vs[i] == string_of(before, ts[i + 1], now)
        },
{
}

/// An EXPIRE request gives the key it names the expiry that its number of
/// seconds from now makes, keeping what the key holds, and answers 1; an
/// absent key is answered 0.
pub proof fn law_expire_request_sets_the_named_expiry(ts: Seq<Seq<u8>>, now: u64, rites: Seq<Rite>, before: Keyspace, after: Keyspace, response: Response)
    requires
        expire_rites(ts, now, rites),
        ts.len() == 3,
        served(rites, before, after, response),
    ensures
        match expiry_after(now, ts[2]) {
            Some(e) => {
                &&& live(before, ts[1], now) is Some ==> response == Response::Amount(1)
                    && after == before.insert(ts[1], (before[ts[1]].0, Some(e)))
                &&& !before.contains_key(ts[1]) ==> response == Response::Amount(0) && after == before
            },
            None => true,
        },
{
}

/// A TTL request answers -1 for a key it names that never expires and -2
/// for one that is absent.
pub proof fn law_ttl_request_reads_the_named_key(ts: Seq<Seq<u8>>, now: u64, nanos: u32, rites: Seq<Rite>, before: Keyspace, after: Keyspace, response: Response)
    requires
        ttl_rites(ts, now, nanos, rites),
        ts.len() == 2,
        served(rites, before, after, response),
    ensures
        before.contains_key(ts[1]) && before[ts[1]].1 is None ==> response == Response::Number(-1i64) && after == before,
        !before.contains_key(ts[1]) ==> response == Response::Number(-2i64) && after == before,
        before.contains_key(ts[1]) ==> match before[ts[1]].1 {
            Some(e) => now < e ==> response == Response::Number((e - now - if nanos > 0 { 1int } else { 0int }) as i64),
            None => true,
        },
{
}

/// The hash that setting each pair in turn makes of `m`.
pub open spec fn hash_after(m: Map<Seq<u8>, Seq<u8>>, pairs: Seq<(Seq<u8>, Seq<u8>)>) -> Map<Seq<u8>, Seq<u8>> {
    put_fields(m, pairs).0
}

/// Pair `i` is the last of `pairs` that names field `f`.
pub open spec fn last_naming(pairs: Seq<(Seq<u8>, Seq<u8>)>, i: int, f: Seq<u8>) -> bool {
    &&& 0 <= i < pairs.len()
    &&& pairs[i].0 == f
    &&& forall|j: int| i < j < pairs.len() ==> (#[trigger] pairs[j]).0 != f
}

proof fn lemma_put_fields(m: Map<Seq<u8>, Seq<u8>>, pairs: Seq<(Seq<u8>, Seq<u8>)>, f: Seq<u8>)
    ensures
        hash_after(m, pairs).contains_key(f) <==> m.contains_key(f) || exists|i: int| 0 <= i < pairs.len() && (#[trigger] pairs[i]).0 == f,
        forall|i: int| last_naming(pairs, i, f) ==> hash_after(m, pairs)[f] == pairs[i].1,
        (forall|i: int| 0 <= i < pairs.len() ==> (#[trigger] pairs[i]).0 != f) && m.contains_key(f) ==> hash_after(m, pairs)[f] == m[f],
    decreases pairs.len(),
{
    if pairs.len() > 0 {
        let init = pairs.drop_last();
        let last = pairs.last();
        lemma_put_fields(m, init, f);
        assert forall|i: int| last_naming(pairs, i, f) implies hash_after(m, pairs)[f] == pairs[i].1 by {
            if i < pairs.len() - 1 {
                assert(pairs[pairs.len() - 1].0 != f);
                assert(last_naming(init, i, f)) by {
                    assert forall|j: int| i < j < init.len() implies (#[trigger] init[j]).0 != f by {
                        assert(init[j] == pairs[j]);
                    }
                }
            }
        }
        if last.0 != f {
            if exists|i: int| 0 <= i < pairs.len() && (#[trigger] pairs[i]).0 == f {
                let i = choose|i: int| 0 <= i < pairs.len() && (#[trigger] pairs[i]).0 == f;
                assert(i < pairs.len() - 1);
                assert(init[i] == pairs[i]);
            }
            if exists|i: int| 0 <= i < init.len() && (#[trigger] init[i]).0 == f {
                let i = choose|i: int| 0 <= i < init.len() && (#[trigger] init[i]).0 == f;
                assert(pairs[i] == init[i]);
            }
            if forall|i: int| 0 <= i < pairs.len() ==> (#[trigger] pairs[i]).0 != f {
                assert forall|i: int| 0 <= i < init.len() implies (#[trigger] init[i]).0 != f by {
                    assert(pairs[i] == init[i]);
                }
            }
        } else {
            assert(pairs[pairs.len() - 1].0 == f);
        }
    }
}

/// After an HSET request, the hash under the key it names (a new one for an
/// absent key) holds every field it names, each with the value of the last
/// pair naming it, and keeps every other field as it was.
pub proof fn law_hset_request_sets_the_named_fields(ts: Seq<Seq<u8>>, now: u64, rites: Seq<Rite>, before: Keyspace, after: Keyspace, response: Response, f: Seq<u8>)
    requires
        hset_rites(ts, now, rites),
        ts.len() >= 4,
        served(rites, before, after, response),
    ensures
        ({
            let pairs = pairs_from(ts, 2);
            let m = match live(before, ts[1], now) {
                Some(Datum::Hash(m)) => m,
                _ => Map::<Seq<u8>, Seq<u8>>::empty(),
            };
            live(before, ts[1], now) matches Some(d) && !(d is Hash) || {
                &&& after.contains_key(ts[1])
                &&& after[ts[1]].0 matches Datum::Hash(h) && {
                    &&& h.contains_key(f) <==> m.contains_key(f) || exists|i: int| 0 <= i < pairs.len() && (#[trigger] pairs[i]).0 == f
                    &&& forall|i: int| last_naming(pairs, i, f) ==> h[f] == pairs[i].1
                    &&& (forall|i: int| 0 <= i < pairs.len() ==> (#[trigger] pairs[i]).0 != f) && m.contains_key(f) ==> h[f] == m[f]
                }
            }
        }),
{
    let m = match live(before, ts[1], now) {
        Some(Datum::Hash(m)) => m,
        _ => Map::<Seq<u8>, Seq<u8>>::empty(),
    };
    lemma_put_fields(m, pairs_from(ts, 2), f);
}

} // verus!
