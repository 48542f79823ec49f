use vstd::prelude::*;

use crate::temple::soul::{
    add_members, first_popped, is_expired, live, range_of, removal, spec_add_to, spec_append, spec_del,
    spec_exists, spec_expire, spec_get, spec_hdel, spec_hexists, spec_hget, spec_hset, spec_lindex,
    spec_lpush, spec_lset, spec_mset, spec_mset_pairs, spec_pop, spec_rpush, spec_sismember,
    spec_srem, spec_strlen, spec_ttl, without, Datum, Keyspace, put_fields, plain_datum, plain_holds,
    restored, entry_keys, Plain, pair_views, snapshot_of, drop_first_matches, drop_last_matches,
    remove_members,
};
use crate::byte_map::key_views;
use crate::temple::{
    clients_after_all, lemma_leave_each, ChannelChange, events_after, events_after_all, events_after_unsubscribe, follows, heard_by, join_each, lemma_join_each,
    lemma_subscribe_each, lemma_unsubscribe_each, recipients, unsubscribe_each, Move,
};
use crate::temple::{fulfils, ClientCommandType};
use crate::wish::grant::{decr_rites, exists_keys_rites, hget_rites, incr_rites, srem_rites, Rite};
use crate::wish::util::{lemma_signed_spelling_reads_back, signed_decimal, signed_reading};
use crate::wish::{Command, Response, Sacrilege};

verus! {

/// A value that was just stored reads back, as long as it has not expired.
pub proof fn law_get_reads_what_set_wrote(ks: Keyspace, key: Seq<u8>, value: Seq<u8>, expiry: Option<u64>, now: u64)
    requires
        !is_expired(expiry, now),
    ensures
        spec_get(ks.insert(key, (Datum::Str(value), expiry)), key, now) == Ok::<Option<Seq<u8>>, crate::wish::Sacrilege>(Some(value)),
{
}

/// Storing under one key leaves every other key as it was.
pub proof fn law_set_leaves_other_keys(ks: Keyspace, key: Seq<u8>, entry: (Datum, Option<u64>), other: Seq<u8>, now: u64)
    requires
        other != key,
    ensures
        live(ks.insert(key, entry), other, now) == live(ks, other, now),
{
}

/// A key that has expired reads as absent.
pub proof fn law_expired_key_reads_as_absent(ks: Keyspace, key: Seq<u8>, now: u64)
    requires
        ks.contains_key(key),
        is_expired(ks[key].1, now),
    ensures
        spec_get(ks, key, now) == Ok::<Option<Seq<u8>>, crate::wish::Sacrilege>(None),
        spec_exists(ks, seq![key], now) == 0,
{
    assert(seq![key].drop_last() =~= Seq::<Seq<u8>>::empty());
    assert(spec_exists(ks, Seq::<Seq<u8>>::empty(), now) == 0);
}

/// After a key is deleted it no longer exists, and deleting it counted one
/// exactly when it was live.
pub proof fn law_del_removes(ks: Keyspace, key: Seq<u8>, now: u64)
    ensures
        !spec_del(ks, seq![key], now).0.contains_key(key),
        spec_del(ks, seq![key], now).1 == if live(ks, key, now) is Some { 1nat } else { 0nat },
        spec_exists(spec_del(ks, seq![key], now).0, seq![key], now) == 0,
{
    assert(seq![key].drop_last() =~= Seq::<Seq<u8>>::empty());
    assert(spec_del(ks, Seq::<Seq<u8>>::empty(), now) == (ks, 0nat));
    let after = spec_del(ks, seq![key], now).0;
    assert(spec_exists(after, Seq::<Seq<u8>>::empty(), now) == 0);
    assert(spec_exists(after, seq![key], now) == spec_exists(after, Seq::<Seq<u8>>::empty(), now) + 0);
}

/// Incrementing a number stored as a string yields the next number, and
/// decrementing the result gives back the number.
pub proof fn law_incr_then_decr(ks: Keyspace, key: Seq<u8>, n: int, now: u64)
    requires
        i64::MIN <= n < i64::MAX,
    ensures
        ({
            let stored = ks.insert(key, (Datum::Str(signed_decimal(n)), None));
            let (after_incr, incremented) = spec_add_to(stored, key, 1, Command::INCR, now);
            let (after_decr, decremented) = spec_add_to(after_incr, key, -1, Command::DECR, now);
            &&& incremented == Ok::<i64, crate::wish::Sacrilege>((n + 1) as i64)
            &&& decremented == Ok::<i64, crate::wish::Sacrilege>(n as i64)
            &&& after_decr == stored
        }),
{
    lemma_signed_spelling_reads_back(n, i64::MAX as nat);
    lemma_signed_spelling_reads_back(n + 1, i64::MAX as nat);
    let stored = ks.insert(key, (Datum::Str(signed_decimal(n)), None));
    let after_incr = spec_add_to(stored, key, 1, Command::INCR, now).0;
    assert(after_incr == stored.insert(key, (Datum::Str(signed_decimal(n + 1)), None)));
    let after_decr = spec_add_to(after_incr, key, -1, Command::DECR, now).0;
    assert(after_decr =~= stored);
}

/// An absent key counts as zero: incrementing it yields one.
pub proof fn law_incr_of_absent_key(ks: Keyspace, key: Seq<u8>, now: u64)
    requires
        live(ks, key, now) is None,
    ensures
        spec_add_to(ks, key, 1, Command::INCR, now).1 == Ok::<i64, crate::wish::Sacrilege>(1),
        spec_get(spec_add_to(ks, key, 1, Command::INCR, now).0, key, now) == Ok::<Option<Seq<u8>>, crate::wish::Sacrilege>(Some(signed_decimal(1))),
{
}

/// The length that an append reports is the length that the key then has.
pub proof fn law_append_reports_new_length(ks: Keyspace, key: Seq<u8>, value: Seq<u8>, now: u64)
    requires
        value.len() <= usize::MAX,
        live(ks, key, now) matches Some(Datum::Str(v)) ==> v.len() + value.len() <= usize::MAX,
    ensures
        spec_append(ks, key, value, now).1 matches Ok(n) ==> spec_strlen(spec_append(ks, key, value, now).0, key, now) == Ok::<usize, crate::wish::Sacrilege>(n),
{
}

/// What is pushed onto the front of a list is what is popped from its front.
pub proof fn law_lpush_then_lpop(ks: Keyspace, key: Seq<u8>, elements: Seq<Seq<u8>>, now: u64)
    requires
        elements.len() > 0,
        live(ks, key, now) matches Some(d) ==> d is List,
    ensures
        first_popped(spec_pop(spec_lpush(ks, key, elements, now).0, key, false, None, Command::LPOP, now).1)
            == Ok::<Option<Seq<u8>>, crate::wish::Sacrilege>(Some(elements.last())),
{
    let pushed = spec_lpush(ks, key, elements, now).0;
    let l = match pushed[key].0 { Datum::List(l) => l, _ => Seq::empty() };
    assert(l[0] == elements.reverse()[0]);
    assert(l.take(1) =~= seq![elements.last()]);
}

/// What is pushed onto the back of a list is what is popped from its back.
pub proof fn law_rpush_then_rpop(ks: Keyspace, key: Seq<u8>, elements: Seq<Seq<u8>>, now: u64)
    requires
        elements.len() > 0,
        live(ks, key, now) matches Some(d) ==> d is List,
    ensures
        first_popped(spec_pop(spec_rpush(ks, key, elements, now).0, key, true, None, Command::RPOP, now).1)
            == Ok::<Option<Seq<u8>>, crate::wish::Sacrilege>(Some(elements.last())),
{
    let pushed = spec_rpush(ks, key, elements, now).0;
    let l = match pushed[key].0 { Datum::List(l) => l, _ => Seq::empty() };
    assert(l.skip(l.len() - 1).reverse() =~= seq![elements.last()]);
}

/// The whole of a non-empty list is the range from its first to its last
/// element.
pub proof fn law_full_range_is_the_list(l: Seq<Seq<u8>>)
    requires
        l.len() > 0,
    ensures
        range_of(l, 0, -1) == l,
{
    assert(l.subrange(0, l.len() as int) =~= l);
}

/// An element set at a position is the element found there.
pub proof fn law_lindex_reads_what_lset_wrote(ks: Keyspace, key: Seq<u8>, index: int, element: Seq<u8>, now: u64)
    requires
        spec_lset(ks, key, index, element, now).1 is Ok,
    ensures
        spec_lindex(spec_lset(ks, key, index, element, now).0, key, index, now) == Ok::<Option<Seq<u8>>, crate::wish::Sacrilege>(Some(element)),
{
}

/// Removing with a count of zero leaves no occurrence of the element.
pub proof fn law_lrem_all_leaves_none(l: Seq<Seq<u8>>, element: Seq<u8>)
    ensures
        !removal(l, 0, element).contains(element),
    decreases l.len(),
{
    if l.len() > 0 {
        law_lrem_all_leaves_none(l.drop_last(), element);
        let w = without(l.drop_last(), element);
        if l.last() != element {
            assert forall|i: int| 0 <= i < w.push(l.last()).len() implies w.push(l.last())[i] != element by {
                if i < w.len() {
                    assert(w.push(l.last())[i] == w[i]);
                }
            }
        }
    }
}

/// A field that was just set reads back.
pub proof fn law_hget_reads_what_hset_wrote(ks: Keyspace, key: Seq<u8>, field: Seq<u8>, value: Seq<u8>, now: u64)
    requires
        live(ks, key, now) matches Some(d) ==> d is Hash,
    ensures
        spec_hget(spec_hset(ks, key, seq![(field, value)], now).0, key, field, now)
            == Ok::<Option<Seq<u8>>, crate::wish::Sacrilege>(Some(value)),
{
    assert(seq![(field, value)].drop_last() =~= Seq::<(Seq<u8>, Seq<u8>)>::empty());
}

/// A field that was just deleted no longer exists.
pub proof fn law_hdel_then_hexists(ks: Keyspace, key: Seq<u8>, field: Seq<u8>, now: u64)
    requires
        live(ks, key, now) matches Some(d) ==> d is Hash,
    ensures
        spec_hexists(spec_hdel(ks, key, seq![field], now).0, key, field, now) == Ok::<u32, crate::wish::Sacrilege>(0),
{
    assert(seq![field].drop_last() =~= Seq::<Seq<u8>>::empty());
}

/// Adding members that are already there adds nothing.
pub proof fn law_sadd_twice_adds_nothing(s: Set<Seq<u8>>, values: Seq<Seq<u8>>)
    ensures
        add_members(add_members(s, values).0, values).1 == 0,
        add_members(add_members(s, values).0, values).0 == add_members(s, values).0,
{
    lemma_add_members_contains(s, values);
    lemma_add_members_of_present(add_members(s, values).0, values);
}

proof fn lemma_add_members_contains(s: Set<Seq<u8>>, values: Seq<Seq<u8>>)
    ensures
        forall|i: int| 0 <= i < values.len() ==> add_members(s, values).0.contains(#[trigger] values[i]),
        add_members(s, values).0 == s + values.to_set(),
    decreases values.len(),
{
    if values.len() > 0 {
        lemma_add_members_contains(s, values.drop_last());
        assert(values =~= values.drop_last().push(values.last()));
        values.drop_last().lemma_push_to_set_commute(values.last());
        assert forall|i: int| 0 <= i < values.len() implies add_members(s, values).0.contains(#[trigger] values[i]) by {
            if i < values.len() - 1 {
                assert(values.drop_last()[i] == values[i]);
            }
        }
        assert(add_members(s, values).0 =~= s + values.to_set());
    } else {
        assert(values.to_set() =~= Set::<Seq<u8>>::empty());
        assert(s + values.to_set() =~= s);
    }
}

proof fn lemma_add_members_of_present(s: Set<Seq<u8>>, values: Seq<Seq<u8>>)
    requires
        forall|i: int| 0 <= i < values.len() ==> s.contains(#[trigger] values[i]),
    ensures
        add_members(s, values).1 == 0,
        add_members(s, values).0 == s,
    decreases values.len(),
{
    if values.len() > 0 {
        assert forall|i: int| 0 <= i < values.drop_last().len() implies s.contains(#[trigger] values.drop_last()[i]) by {
            assert(values.drop_last()[i] == values[i]);
        }
        lemma_add_members_of_present(s, values.drop_last());
        assert(s.contains(values[values.len() - 1]));
        assert(s.insert(values.last()) =~= s);
    }
}

/// A member that was just removed is no longer a member.
pub proof fn law_srem_then_sismember(ks: Keyspace, key: Seq<u8>, value: Seq<u8>, now: u64)
    requires
        live(ks, key, now) matches Some(d) ==> d is Members,
    ensures
        spec_sismember(spec_srem(ks, key, seq![value], now).0, key, value, now) == Ok::<usize, crate::wish::Sacrilege>(0),
{
    assert(seq![value].drop_last() =~= Seq::<Seq<u8>>::empty());
}

/// A live key given an expiry `seconds` from second `now` has `seconds`
/// whole seconds left at that second, one fewer once part of it has passed,
/// and has expired once the last second has begun to pass.
pub proof fn law_expire_then_ttl(ks: Keyspace, key: Seq<u8>, seconds: u64, now: u64, nanos: u32)
    requires
        live(ks, key, now) is Some,
        now + seconds <= u64::MAX,
        seconds <= i64::MAX,
    ensures
        spec_expire(ks, key, (now + seconds) as u64, now).1 == 1,
        spec_ttl(spec_expire(ks, key, (now + seconds) as u64, now).0, key, now, nanos).1 == if nanos == 0 {
            seconds as i64
        } else if seconds == 0 {
            -2i64
        } else {
            (seconds - 1) as i64
        },
{
}

/// A key that never expires reports -1, an absent one -2.
pub proof fn law_ttl_without_expiry(ks: Keyspace, key: Seq<u8>, now: u64, nanos: u32)
    ensures
        ks.contains_key(key) && ks[key].1 is None ==> spec_ttl(ks, key, now, nanos) == (ks, -1i64),
        !ks.contains_key(key) ==> spec_ttl(ks, key, now, nanos) == (ks, -2i64),
{
}

/// The key of the `j`-th key-value pair of `terms`.
pub open spec fn pair_key(terms: Seq<Seq<u8>>, j: int) -> Seq<u8> {
    terms[2 * j]
}

/// Every pair stored at once reads back, the last pair winning when a key
/// repeats.
pub proof fn law_mset_then_get(ks: Keyspace, terms: Seq<Seq<u8>>, i: int, now: u64)
    requires
        0 <= i < terms.len() / 2,
        forall|j: int| i < j < terms.len() / 2 ==> #[trigger] pair_key(terms, j) != terms[2 * i],
    ensures
        spec_get(spec_mset(ks, terms), terms[2 * i], now) == Ok::<Option<Seq<u8>>, crate::wish::Sacrilege>(Some(terms[2 * i + 1])),
{
    lemma_mset_pairs_holds(ks, terms, i, (terms.len() / 2) as nat);
}

proof fn lemma_mset_pairs_holds(ks: Keyspace, terms: Seq<Seq<u8>>, i: int, n: nat)
    requires
        0 <= i < n,
        n <= terms.len() / 2,
        forall|j: int| i < j < n ==> #[trigger] pair_key(terms, j) != terms[2 * i],
    ensures
        spec_mset_pairs(ks, terms, n).contains_key(terms[2 * i]),
        spec_mset_pairs(ks, terms, n)[terms[2 * i]] == (Datum::Str(terms[2 * i + 1]), None::<u64>),
    decreases n,
{
    if n - 1 > i {
        lemma_mset_pairs_holds(ks, terms, i, (n - 1) as nat);
        assert(pair_key(terms, n - 1) != terms[2 * i]);
    }
}

proof fn lemma_put_fields_of_distinct(ps: Seq<(Seq<u8>, Seq<u8>)>)
    requires
        ps.map_values(|f: (Seq<u8>, Seq<u8>)| f.0).no_duplicates(),
    ensures
        put_fields(Map::empty(), ps).0.dom() == ps.map_values(|f: (Seq<u8>, Seq<u8>)| f.0).to_set(),
        forall|i: int| 0 <= i < ps.len() ==> put_fields(Map::empty(), ps).0[#[trigger] ps[i].0] == ps[i].1,
    decreases ps.len(),
{
    let fs = ps.map_values(|f: (Seq<u8>, Seq<u8>)| f.0);
    if ps.len() > 0 {
        let front = ps.drop_last();
        let ffs = front.map_values(|f: (Seq<u8>, Seq<u8>)| f.0);
        assert(ffs =~= fs.drop_last());
        assert(ffs.no_duplicates());
        lemma_put_fields_of_distinct(front);
        assert(fs =~= ffs.push(ps.last().0));
        ffs.lemma_push_to_set_commute(ps.last().0);
        let m = put_fields(Map::empty(), ps).0;
        assert(m.dom() =~= fs.to_set());
        assert forall|i: int| 0 <= i < ps.len() implies m[#[trigger] ps[i].0] == ps[i].1 by {
            if i < ps.len() - 1 {
                assert(front[i] == ps[i]);
                assert(fs[i] != fs[ps.len() - 1]);
            }
        }
    } else {
        assert(fs.to_set() =~= Set::<Seq<u8>>::empty());
        assert(put_fields(Map::empty(), ps).0 =~= Map::<Seq<u8>, Seq<u8>>::empty());
    }
}

proof fn lemma_plain_datum(p: Plain, d: Datum)
    requires
        plain_holds(p, d),
    ensures
        plain_datum(p) == d,
{
    match (p, d) {
        (Plain::Hash(ps), Datum::Hash(m)) => {
            let pv = pair_views(ps@);
            lemma_put_fields_of_distinct(pv);
            let built = put_fields(Map::empty(), pv).0;
            assert forall|k: Seq<u8>| #[trigger] built.contains_key(k) implies built[k] == m[k] by {
                let fs = pv.map_values(|f: (Seq<u8>, Seq<u8>)| f.0);
                let i = choose|i: int| 0 <= i < fs.len() && fs[i] == k;
                assert(pv[i].0 == k);
            }
            assert(built =~= m);
        },
        (Plain::Members(ms), Datum::Members(s)) => {
            lemma_add_members_contains(Set::empty(), key_views(ms@));
            assert(Set::<Seq<u8>>::empty() + key_views(ms@).to_set() =~= s);
        },
        _ => {},
    }
}

proof fn lemma_restored_of_distinct(entries: Seq<(Vec<u8>, Plain, Option<u64>)>)
    requires
        entry_keys(entries).no_duplicates(),
    ensures
        restored(entries).dom() == entry_keys(entries).to_set(),
        forall|i: int| 0 <= i < entries.len() ==> restored(entries)[#[trigger] entries[i].0@] == (plain_datum(entries[i].1), entries[i].2),
    decreases entries.len(),
{
    let ks = entry_keys(entries);
    if entries.len() > 0 {
        let front = entries.drop_last();
        assert(entry_keys(front) =~= ks.drop_last());
        lemma_restored_of_distinct(front);
        assert(ks =~= entry_keys(front).push(entries.last().0@));
        entry_keys(front).lemma_push_to_set_commute(entries.last().0@);
        assert(restored(entries).dom() =~= ks.to_set());
        assert forall|i: int| 0 <= i < entries.len() implies restored(entries)[#[trigger] entries[i].0@] == (plain_datum(entries[i].1), entries[i].2) by {
            if i < entries.len() - 1 {
                assert(front[i] == entries[i]);
                assert(ks[i] != ks[entries.len() - 1]);
            }
        }
    } else {
        assert(ks.to_set() =~= Set::<Seq<u8>>::empty());
    }
}

/// Restoring the entries of a snapshot of a keyspace gives back that
/// keyspace: `Soul::export` gives a snapshot of the keyspace and
/// `Soul::import` restores entries, so importing what was exported gives
/// back the keyspace.
pub proof fn law_snapshot_round_trip(ks: Keyspace, entries: Seq<(Vec<u8>, Plain, Option<u64>)>)
    requires
        snapshot_of(entries, ks),
    ensures
        restored(entries) == ks,
{
    lemma_restored_of_distinct(entries);
    let r = restored(entries);
    assert forall|k: Seq<u8>| #[trigger] r.contains_key(k) implies r[k] == ks[k] by {
        let i = choose|i: int| 0 <= i < entry_keys(entries).len() && entry_keys(entries)[i] == k;
        assert(entries[i].0@ == k);
        lemma_plain_datum(entries[i].1, ks[k].0);
    }
    assert(r =~= ks);
}

/// Once a client subscribes to a list of channels, a message published on
/// any of them reaches it, and every client that a channel reached before
/// it still reaches.
pub proof fn law_subscriber_hears_publish(clients: Map<Seq<u8>, Set<usize>>, token: usize, events: Seq<Seq<u8>>, c: Seq<u8>, u: usize)
    ensures
        events.contains(c) ==> recipients(join_each(clients, token, events), c).contains(token),
        recipients(clients, c).contains(u) ==> recipients(join_each(clients, token, events), c).contains(u),
{
    lemma_join_each(clients, token, events);
    assert(heard_by(join_each(clients, token, events), c, token) <==> heard_by(clients, c, token) || events.contains(c));
    assert(heard_by(join_each(clients, token, events), c, u) <==> heard_by(clients, c, u) || (u == token && events.contains(c)));
}

/// A client no longer follows a channel it unsubscribed from.
pub proof fn law_unsubscribed_channel_is_not_followed(events: Map<usize, Set<Seq<u8>>>, token: usize, terms: Seq<Seq<u8>>, c: Seq<u8>)
    requires
        terms.contains(c),
    ensures
        !follows(events_after_unsubscribe(events, token, terms), token, c),
{
    if events.contains_key(token) {
        lemma_unsubscribe_each(events[token], terms);
        assert(terms.to_set().contains(c));
    }
}

/// Unsubscribing from every channel takes a client out of subscriber mode,
/// and leaves the channels of every other client as they were.
pub proof fn law_unsubscribe_all_ends_subscriber_mode(events: Map<usize, Set<Seq<u8>>>, token: usize, other: usize)
    requires
        other != token,
    ensures
        !events_after_unsubscribe(events, token, Seq::empty()).contains_key(token),
        events_after_unsubscribe(events, token, Seq::empty()).contains_key(other) == events.contains_key(other),
        events.contains_key(other) ==> events_after_unsubscribe(events, token, Seq::empty())[other] == events[other],
{
}

/// What one move does to who follows which channel: a subscribe adds the
/// channels it names, an unsubscribe takes away those it names (all of them
/// when it names none), and a client with no channel left drops out; other
/// clients are left alone.
proof fn lemma_move(events: Map<usize, Set<Seq<u8>>>, m: Move, u: usize, c: Seq<u8>)
    ensures
        match m {
            Move::Subscribe(t, es) => {
                &&& follows(events_after(events, m), u, c) <==> follows(events, u, c) || (u == t && es.contains(c))
                &&& events_after(events, m).contains_key(u) <==> events.contains_key(u) || u == t
            },
            Move::Unsubscribe(t, ts) => {
                &&& follows(events_after(events, m), u, c) <==> follows(events, u, c)
                    && !(u == t && (ts.len() == 0 || ts.contains(c)))
                &&& u != t ==> (events_after(events, m).contains_key(u) <==> events.contains_key(u))
            },
        },
{
    match m {
        Move::Subscribe(t, es) => {
            let start = if events.contains_key(t) { events[t] } else { Set::<Seq<u8>>::empty() };
            lemma_subscribe_each(start, es);
            let after = events_after(events, m);
            assert(after == events.insert(t, start + es.to_set()));
            assert(es.contains(c) <==> es.to_set().contains(c));
            if u == t {
                assert(follows(events, u, c) <==> start.contains(c));
                assert(follows(after, u, c) <==> (start + es.to_set()).contains(c));
            } else {
                assert(after.contains_key(u) <==> events.contains_key(u));
                if events.contains_key(u) {
                    assert(after[u] == events[u]);
                }
            }
        },
        Move::Unsubscribe(t, ts) => {
            let after = events_after(events, m);
            assert(after == events_after_unsubscribe(events, t, ts));
            if events.contains_key(t) {
                let rest = if ts.len() > 0 { unsubscribe_each(events[t], ts).0 } else { Set::<Seq<u8>>::empty() };
                if ts.len() > 0 {
                    lemma_unsubscribe_each(events[t], ts);
                    assert(ts.contains(c) <==> ts.to_set().contains(c));
                    assert(rest.contains(c) <==> events[t].contains(c) && !ts.contains(c));
                }
                if u == t {
                    if rest == Set::<Seq<u8>>::empty() {
                        assert(!after.contains_key(t));
                        assert(!rest.contains(c));
                    } else {
                        assert(after[t] == rest);
                    }
                } else if events.contains_key(u) {
                    assert(after.contains_key(u));
                    assert(after[u] == events[u]);
                } else {
                    assert(!after.contains_key(u));
                }
            }
        },
    }
}

/// The moves up to `n` and one more are the moves up to `n` followed by it.
proof fn lemma_one_more(events: Map<usize, Set<Seq<u8>>>, moves: Seq<Move>, n: int)
    requires
        0 <= n < moves.len(),
    ensures
        events_after_all(events, moves.take(n + 1)) == events_after(events_after_all(events, moves.take(n)), moves[n]),
{
    assert(moves.take(n + 1).drop_last() =~= moves.take(n));
}

/// A client stays subscribed, and so may only handle channels, through any
/// series of moves in which none of its unsubscribes leaves it without a
/// channel.
pub proof fn law_subscriber_mode_lasts(events: Map<usize, Set<Seq<u8>>>, moves: Seq<Move>, t: usize, i: int)
    requires
        0 <= i <= moves.len(),
        events_after_all(events, moves.take(i)).contains_key(t),
        forall|j: int| i <= j < moves.len() && (#[trigger] moves[j] matches Move::Unsubscribe(u, _) && u == t)
            ==> events_after_all(events, moves.take(j + 1)).contains_key(t),
    ensures
        events_after_all(events, moves).contains_key(t),
    decreases moves.len() - i,
{
    if i < moves.len() {
        lemma_one_more(events, moves, i);
        lemma_move(events_after_all(events, moves.take(i)), moves[i], t, Seq::empty());
        law_subscriber_mode_lasts(events, moves, t, i + 1);
    } else {
        assert(moves.take(i) =~= moves);
    }
}

/// Once a client subscribes to a channel, every later publish on it reaches
/// the client until it unsubscribes from that channel or from everything.
pub proof fn law_publish_reaches_current_subscribers(events: Map<usize, Set<Seq<u8>>>, moves: Seq<Move>, t: usize, c: Seq<u8>, i: int, n: int)
    requires
        0 <= i < n <= moves.len(),
        moves[i] matches Move::Subscribe(u, es) && u == t && es.contains(c),
        forall|j: int| i < j < moves.len() ==> !(#[trigger] moves[j] matches Move::Unsubscribe(u, ts) && u == t && (ts.len() == 0 || ts.contains(c))),
    ensures
        follows(events_after_all(events, moves.take(n)), t, c),
    decreases n - i,
{
    lemma_one_more(events, moves, n - 1);
    lemma_move(events_after_all(events, moves.take(n - 1)), moves[n - 1], t, c);
    if n - 1 > i {
        law_publish_reaches_current_subscribers(events, moves, t, c, i, n - 1);
    }
}

/// Once a client unsubscribes from a channel, no later publish on it
/// reaches the client until it subscribes to that channel again.
pub proof fn law_unsubscribed_client_stays_unreached(events: Map<usize, Set<Seq<u8>>>, moves: Seq<Move>, t: usize, c: Seq<u8>, i: int, n: int)
    requires
        0 <= i < n <= moves.len(),
        moves[i] matches Move::Unsubscribe(u, ts) && u == t && (ts.len() == 0 || ts.contains(c)),
        forall|j: int| i < j < moves.len() ==> !(#[trigger] moves[j] matches Move::Subscribe(u, es) && u == t && es.contains(c)),
    ensures
        !follows(events_after_all(events, moves.take(n)), t, c),
    decreases n - i,
{
    lemma_one_more(events, moves, n - 1);
    lemma_move(events_after_all(events, moves.take(n - 1)), moves[n - 1], t, c);
    if n - 1 > i {
        law_unsubscribed_client_stays_unreached(events, moves, t, c, i, n - 1);
    }
}

/// One more change is the changes so far followed by it, and what it does
/// to whether client `u` hears channel `c`.
proof fn lemma_one_more_change(clients: Map<Seq<u8>, Set<usize>>, changes: Seq<ChannelChange>, n: int, u: usize, c: Seq<u8>)
    requires
        0 <= n < changes.len(),
    ensures
        ({
            let before = clients_after_all(clients, changes.take(n));
            let after = clients_after_all(clients, changes.take(n + 1));
            match changes[n] {
                ChannelChange::Join(t, es) => heard_by(after, c, u) <==> heard_by(before, c, u) || (u == t && es.contains(c)),
                ChannelChange::Leave(t, es) => heard_by(after, c, u) <==> heard_by(before, c, u) && !(u == t && es.contains(c)),
            }
        }),
{
    assert(changes.take(n + 1).drop_last() =~= changes.take(n));
    let before = clients_after_all(clients, changes.take(n));
    match changes[n] {
        ChannelChange::Join(t, es) => lemma_join_each(before, t, es),
        ChannelChange::Leave(t, es) => lemma_leave_each(before, t, es),
    }
}

/// Once a client joins a channel, every later publish on it reaches the
/// client until it leaves that channel.
pub proof fn law_joined_client_is_reached(clients: Map<Seq<u8>, Set<usize>>, changes: Seq<ChannelChange>, t: usize, c: Seq<u8>, i: int, n: int)
    requires
        0 <= i < n <= changes.len(),
        changes[i] matches ChannelChange::Join(u, es) && u == t && es.contains(c),
        forall|j: int| i < j < changes.len() ==> !(#[trigger] changes[j] matches ChannelChange::Leave(u, es) && u == t && es.contains(c)),
    ensures
        recipients(clients_after_all(clients, changes.take(n)), c).contains(t),
    decreases n - i,
{
    lemma_one_more_change(clients, changes, n - 1, t, c);
    if n - 1 > i {
        law_joined_client_is_reached(clients, changes, t, c, i, n - 1);
    }
}

/// Once a client leaves a channel, no later publish on it reaches the
/// client until it joins that channel again.
pub proof fn law_departed_client_is_not_reached(clients: Map<Seq<u8>, Set<usize>>, changes: Seq<ChannelChange>, t: usize, c: Seq<u8>, i: int, n: int)
    requires
        0 <= i < n <= changes.len(),
        changes[i] matches ChannelChange::Leave(u, es) && u == t && es.contains(c),
        forall|j: int| i < j < changes.len() ==> !(#[trigger] changes[j] matches ChannelChange::Join(u, es) && u == t && es.contains(c)),
    ensures
        !recipients(clients_after_all(clients, changes.take(n)), c).contains(t),
    decreases n - i,
{
    lemma_one_more_change(clients, changes, n - 1, t, c);
    if n - 1 > i {
        law_departed_client_is_not_reached(clients, changes, t, c, i, n - 1);
    }
}

/// The elements of `s` other than `e`, in order.
pub open spec fn kept(s: Seq<Seq<u8>>, e: Seq<u8>) -> Seq<Seq<u8>> {
    s.filter(|x: Seq<u8>| x != e)
}

/// How many times `e` occurs in `s`.
pub open spec fn occurrences(s: Seq<Seq<u8>>, e: Seq<u8>) -> nat {
    s.filter(|x: Seq<u8>| x == e).len()
}

/// The smaller of two numbers.
pub open spec fn least(a: int, b: int) -> int {
    if a < b { a } else { b }
}

proof fn lemma_filter_back(rest: Seq<Seq<u8>>, a: Seq<u8>, e: Seq<u8>)
    ensures
        kept(rest.push(a), e) == if a == e { kept(rest, e) } else { kept(rest, e).push(a) },
        occurrences(rest.push(a), e) == occurrences(rest, e) + if a == e { 1nat } else { 0nat },
{
    reveal(Seq::filter);
    assert(rest.push(a).drop_last() =~= rest);
    assert(rest.push(a).last() == a);
}

proof fn lemma_filter_front(a: Seq<u8>, rest: Seq<Seq<u8>>, e: Seq<u8>)
    ensures
        kept(seq![a] + rest, e) == if a == e { kept(rest, e) } else { seq![a] + kept(rest, e) },
        occurrences(seq![a] + rest, e) == occurrences(rest, e) + if a == e { 1nat } else { 0nat },
    decreases rest.len(),
{
    reveal(Seq::filter);
    let empty = Seq::<Seq<u8>>::empty();
    assert(kept(empty, e) == empty);
    assert(occurrences(empty, e) == 0);
    if rest.len() == 0 {
        assert(seq![a] + rest =~= empty.push(a));
        lemma_filter_back(empty, a, e);
        assert(seq![a] + kept(rest, e) =~= empty.push(a));
    } else {
        let init = rest.drop_last();
        let b = rest.last();
        assert(rest =~= init.push(b));
        assert(seq![a] + rest =~= (seq![a] + init).push(b));
        lemma_filter_front(a, init, e);
        lemma_filter_back(seq![a] + init, b, e);
        lemma_filter_back(init, b, e);
        if a != e && b != e {
            assert((seq![a] + kept(init, e)).push(b) =~= seq![a] + kept(init, e).push(b));
        }
    }
}

/// Taking out the first `k` occurrences of `e` keeps a prefix whose
/// occurrences are all gone and leaves the rest as it was.
proof fn lemma_head_removal(l: Seq<Seq<u8>>, e: Seq<u8>, k: nat) -> (p: int)
    ensures
        0 <= p <= l.len(),
        occurrences(l.take(p), e) == least(k as int, occurrences(l, e) as int),
        drop_first_matches(l, e, k) == kept(l.take(p), e) + l.skip(p),
    decreases l.len(),
{
    reveal(Seq::filter);
    if l.len() == 0 || k == 0 {
        assert(l.take(0) =~= Seq::<Seq<u8>>::empty());
        assert(l.skip(0) =~= l);
        assert(kept(l.take(0), e) =~= Seq::<Seq<u8>>::empty());
        assert(occurrences(l.take(0), e) == 0);
        if l.len() == 0 {
            assert(occurrences(l, e) == 0);
        }
        assert(Seq::<Seq<u8>>::empty() + l =~= l);
        0
    } else {
        let a = l[0];
        let rest = l.drop_first();
        assert(l =~= seq![a] + rest);
        lemma_filter_front(a, rest, e);
        let k2: nat = if a == e { (k - 1) as nat } else { k };
        let q = lemma_head_removal(rest, e, k2);
        let p = q + 1;
        assert(l.take(p) =~= seq![a] + rest.take(q));
        assert(l.skip(p) =~= rest.skip(q));
        lemma_filter_front(a, rest.take(q), e);
        if a == e {
            assert(drop_first_matches(l, e, k) == drop_first_matches(rest, e, k2));
        } else {
            assert(drop_first_matches(l, e, k) == seq![a] + drop_first_matches(rest, e, k));
            assert(seq![a] + (kept(rest.take(q), e) + rest.skip(q)) =~= (seq![a] + kept(rest.take(q), e)) + rest.skip(q));
        }
        p
    }
}

/// Taking out the last `k` occurrences of `e` keeps a suffix whose
/// occurrences are all gone and leaves what comes before it as it was.
proof fn lemma_tail_removal(l: Seq<Seq<u8>>, e: Seq<u8>, k: nat) -> (p: int)
    ensures
        0 <= p <= l.len(),
        occurrences(l.skip(p), e) == least(k as int, occurrences(l, e) as int),
        drop_last_matches(l, e, k) == l.take(p) + kept(l.skip(p), e),
    decreases l.len(),
{
    reveal(Seq::filter);
    if l.len() == 0 || k == 0 {
        let p = l.len() as int;
        assert(l.take(p) =~= l);
        assert(l.skip(p) =~= Seq::<Seq<u8>>::empty());
        assert(kept(l.skip(p), e) =~= Seq::<Seq<u8>>::empty());
        assert(occurrences(l.skip(p), e) == 0);
        if l.len() == 0 {
            assert(occurrences(l, e) == 0);
        }
        assert(l + Seq::<Seq<u8>>::empty() =~= l);
        p
    } else {
        let a = l.last();
        let rest = l.drop_last();
        assert(l =~= rest.push(a));
        lemma_filter_back(rest, a, e);
        let k2: nat = if a == e { (k - 1) as nat } else { k };
        let p = lemma_tail_removal(rest, e, k2);
        assert(l.take(p) =~= rest.take(p));
        assert(l.skip(p) =~= rest.skip(p).push(a));
        lemma_filter_back(rest.skip(p), a, e);
        if a == e {
            assert(drop_last_matches(l, e, k) == drop_last_matches(rest, e, k2));
        } else {
            assert(drop_last_matches(l, e, k) == drop_last_matches(rest, e, k).push(a));
            assert((rest.take(p) + kept(rest.skip(p), e)).push(a) =~= rest.take(p) + kept(rest.skip(p), e).push(a));
        }
        p
    }
}

/// Taking out every occurrence of `e` keeps the other elements in order.
proof fn lemma_everywhere_removal(l: Seq<Seq<u8>>, e: Seq<u8>)
    ensures
        without(l, e) == kept(l, e),
    decreases l.len(),
{
    if l.len() > 0 {
        lemma_everywhere_removal(l.drop_last(), e);
        assert(l =~= l.drop_last().push(l.last()));
        lemma_filter_back(l.drop_last(), l.last(), e);
    }
}

/// Whatever is kept of `s` and how often `e` occurs in it make up all of it.
proof fn lemma_kept_and_occurrences(s: Seq<Seq<u8>>, e: Seq<u8>)
    ensures
        kept(s, e).len() + occurrences(s, e) == s.len(),
    decreases s.len(),
{
    if s.len() > 0 {
        lemma_kept_and_occurrences(s.drop_last(), e);
        assert(s =~= s.drop_last().push(s.last()));
        lemma_filter_back(s.drop_last(), s.last(), e);
    }
}

/// LREM with a positive count takes out that many occurrences of the
/// element from the head of the list (all of them if there are fewer), with
/// a negative count as many from the tail, with zero every occurrence; the
/// other elements stay in order, and the number removed is what is reported.
pub proof fn law_lrem_removes_from_the_named_end(l: Seq<Seq<u8>>, count: int, e: Seq<u8>)
    ensures
        count > 0 ==> exists|p: int|
            0 <= p <= l.len()
            && occurrences(#[trigger] l.take(p), e) == least(count, occurrences(l, e) as int)
            && removal(l, count, e) == kept(l.take(p), e) + l.skip(p),
        count < 0 ==> exists|p: int|
            0 <= p <= l.len()
            && occurrences(#[trigger] l.skip(p), e) == least(-count, occurrences(l, e) as int)
            && removal(l, count, e) == l.take(p) + kept(l.skip(p), e),
        count == 0 ==> removal(l, count, e) == kept(l, e),
        l.len() - removal(l, count, e).len() == if count > 0 {
            least(count, occurrences(l, e) as int)
        } else if count < 0 {
            least(-count, occurrences(l, e) as int)
        } else {
            occurrences(l, e) as int
        },
{
    if count > 0 {
        let p = lemma_head_removal(l, e, count as nat);
        lemma_kept_and_occurrences(l.take(p), e);
        assert(l.take(p).len() + l.skip(p).len() == l.len());
    } else if count < 0 {
        let p = lemma_tail_removal(l, e, (-count) as nat);
        lemma_kept_and_occurrences(l.skip(p), e);
        assert(l.take(p).len() + l.skip(p).len() == l.len());
    } else {
        lemma_everywhere_removal(l, e);
        lemma_kept_and_occurrences(l, e);
    }
}

/// An INCR request, carried out on any keyspace, counts the key up by one:
/// an absent key reads 1 afterwards, a key holding the number `n` reads
/// `n + 1`, and the answer is that number.
pub proof fn law_incr_request_counts_up(ts: Seq<Seq<u8>>, now: u64, rites: Seq<Rite>, before: Keyspace, after: Keyspace, response: Response)
    requires
        incr_rites(ts, now, rites),
        ts.len() == 2,
        rites[0] matches Rite::Entrust(ClientCommandType::Database(c)) && fulfils(before, c, after, response),
    ensures
        live(before, ts[1], now) is None ==> {
            &&& response == Response::Number(1)
            &&& spec_get(after, ts[1], now) == Ok::<Option<Seq<u8>>, Sacrilege>(Some(signed_decimal(1)))
        },
        match live(before, ts[1], now) {
            Some(Datum::Str(v)) => match signed_reading(v, i64::MAX as nat) {
                Some(n) => n < i64::MAX ==> {
                    &&& response == Response::Number((n + 1) as i64)
                    &&& spec_get(after, ts[1], now) == Ok::<Option<Seq<u8>>, Sacrilege>(Some(signed_decimal(n + 1)))
                },
                None => true,
            },
            _ => true,
        },
{
}

/// A DECR request, carried out on any keyspace, counts the key down by one:
/// an absent key reads -1 afterwards, a key holding the number `n` reads
/// `n - 1`, and the answer is that number.
pub proof fn law_decr_request_counts_down(ts: Seq<Seq<u8>>, now: u64, rites: Seq<Rite>, before: Keyspace, after: Keyspace, response: Response)
    requires
        decr_rites(ts, now, rites),
        ts.len() == 2,
        rites[0] matches Rite::Entrust(ClientCommandType::Database(c)) && fulfils(before, c, after, response),
    ensures
        live(before, ts[1], now) is None ==> {
            &&& response == Response::Number(-1i64)
            &&& spec_get(after, ts[1], now) == Ok::<Option<Seq<u8>>, Sacrilege>(Some(signed_decimal(-1)))
        },
        match live(before, ts[1], now) {
            Some(Datum::Str(v)) => match signed_reading(v, i64::MAX as nat) {
                Some(n) => n > i64::MIN ==> {
                    &&& response == Response::Number((n - 1) as i64)
                    &&& spec_get(after, ts[1], now) == Ok::<Option<Seq<u8>>, Sacrilege>(Some(signed_decimal(n - 1)))
                },
                None => true,
            },
            _ => true,
        },
{
}

/// An HGET request answers the value of the field named by its third term
/// in the hash named by its second, nil when the hash lacks that field or
/// is absent, and changes nothing.
pub proof fn law_hget_request_reads_the_named_field(ts: Seq<Seq<u8>>, now: u64, rites: Seq<Rite>, before: Keyspace, after: Keyspace, response: Response)
    requires
        hget_rites(ts, now, rites),
        ts.len() == 3,
        rites[0] matches Rite::Entrust(ClientCommandType::Database(c)) && fulfils(before, c, after, response),
    ensures
        after == before,
        live(before, ts[1], now) matches Some(Datum::Hash(m)) ==> response matches Response::BulkString(b)
            && b.deep_view() == if m.contains_key(ts[2]) { Some(m[ts[2]]) } else { None },
        live(before, ts[1], now) is None ==> response matches Response::BulkString(None),
{
}

proof fn lemma_remove_members(s: Set<Seq<u8>>, values: Seq<Seq<u8>>)
    ensures
        remove_members(s, values).0 == s.difference(values.to_set()),
        remove_members(s, values).1 == s.intersect(values.to_set()).len(),
        s.intersect(values.to_set()).finite(),
    decreases values.len(),
{
    if values.len() == 0 {
        assert(s.difference(values.to_set()) =~= s);
        assert(s.intersect(values.to_set()) =~= Set::<Seq<u8>>::empty());
    } else {
        let init = values.drop_last();
        let v = values.last();
        lemma_remove_members(s, init);
        assert(values =~= init.push(v));
        init.lemma_push_to_set_commute(v);
        let before = s.intersect(init.to_set());
        let now_ = s.intersect(values.to_set());
        assert(remove_members(s, values).0 =~= s.difference(values.to_set()));
        if s.contains(v) && !init.to_set().contains(v) {
            assert(now_ =~= before.insert(v));
        } else {
            assert(now_ =~= before);
        }
    }
}

/// An SREM request takes out of the set named by its second term exactly
/// the members named by the terms after it, drops a set left empty, and
/// answers how many of those were members.
pub proof fn law_srem_request_removes_the_named_members(ts: Seq<Seq<u8>>, now: u64, rites: Seq<Rite>, before: Keyspace, after: Keyspace, response: Response)
    requires
        srem_rites(ts, now, rites),
        ts.len() >= 3,
        rites[0] matches Rite::Entrust(ClientCommandType::Database(c)) && fulfils(before, c, after, response),
    ensures
        live(before, ts[1], now) matches Some(Datum::Members(s)) ==> {
            let rest = s.difference(ts.skip(2).to_set());
            &&& after == if rest == Set::<Seq<u8>>::empty() {
                before.remove(ts[1])
            } else {
                before.insert(ts[1], (Datum::Members(rest), before[ts[1]].1))
            }
            &&& response matches Response::Length(n) && n == s.intersect(ts.skip(2).to_set()).len()
        },
        live(before, ts[1], now) is None ==> after == before && response matches Response::Length(0),
{
    if let Some(Datum::Members(s)) = live(before, ts[1], now) {
        let vs = ts.skip(2);
        lemma_remove_members(s, vs);
        vs.lemma_cardinality_of_set();
        vstd::set_lib::lemma_len_intersect(vs.to_set(), s);
        assert(s.intersect(vs.to_set()) =~= vs.to_set().intersect(s));
        if let Rite::Entrust(ClientCommandType::Database(crate::temple::DatabaseCommand::Srem { values, .. })) = rites[0] {
            assert(key_views(values@).len() == vs.len());
            assert(values.len() == values@.len());
        }
    }
}

proof fn lemma_exists_counts(ks: Keyspace, keys: Seq<Seq<u8>>, now: u64)
    ensures
        spec_exists(ks, keys, now) == keys.filter(|k: Seq<u8>| live(ks, k, now) is Some).len(),
    decreases keys.len(),
{
    reveal(Seq::filter);
    if keys.len() > 0 {
        lemma_exists_counts(ks, keys.drop_last(), now);
    }
}

/// An EXISTS request counts, among every term after the command name, those
/// that name a live key (a key named twice counts twice), and changes
/// nothing.
pub proof fn law_exists_request_counts_every_named_key(ts: Seq<Seq<u8>>, now: u64, rites: Seq<Rite>, before: Keyspace, after: Keyspace, response: Response)
    requires
        exists_keys_rites(ts, now, rites),
        ts.len() >= 2,
        rites[0] matches Rite::Entrust(ClientCommandType::Database(c)) && fulfils(before, c, after, response),
    ensures
        after == before,
        response matches Response::Amount(n) && n == ts.skip(1).filter(|k: Seq<u8>| live(before, k, now) is Some).len(),
{
    lemma_exists_counts(before, ts.skip(1), now);
}

/// LRANGE selects, in order, the elements from the start position to the
/// stop position, both included, where a negative position counts from the
/// end, a start before the head counts from the head and a stop past the
/// tail counts to the tail.
pub proof fn law_lrange_selects_between_the_positions(l: Seq<Seq<u8>>, start: int, stop: int)
    ensures
        ({
            let first = if start < 0 { if start + l.len() < 0 { 0 } else { start + l.len() } } else { start };
            let last = if stop < 0 { stop + l.len() } else if stop >= l.len() { l.len() - 1 } else { stop };
            let r = range_of(l, start, stop);
            &&& r.len() == if first <= last && first < l.len() { last - first + 1 } else { 0 }
            &&& forall|k: int| 0 <= k < r.len() ==> #[trigger] r[k] == l[first + k]
        }),
{
}

} // verus!
