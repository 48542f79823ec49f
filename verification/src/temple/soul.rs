use std::collections::VecDeque;
use vstd::prelude::*;

use crate::byte_map::{copy_bytes, key_views, ByteMap};
use crate::wish::util::{bytes_to_i64, signed_decimal, signed_reading, spell_signed};
use crate::wish::{Command, Sacrilege};

verus! {

broadcast use {crate::byte_map::lemma_bytes_deep_view, vstd::std_specs::vecdeque::group_vec_dequeue_axioms};

/// A stored value.
pub enum Value {
    String(Vec<u8>),
    List(VecDeque<Vec<u8>>),
    Hash(ByteMap<Vec<u8>>),
    Members(ByteMap<()>),
}

/// What a stored value holds.
pub enum Datum {
    Str(Seq<u8>),
    List(Seq<Seq<u8>>),
    Hash(Map<Seq<u8>, Seq<u8>>),
    Members(Set<Seq<u8>>),
}

/// The fields of a hash, each value taken by its bytes.
pub open spec fn hash_view(m: Map<Seq<u8>, Vec<u8>>) -> Map<Seq<u8>, Seq<u8>> {
    m.map_values(|v: Vec<u8>| v@)
}

impl View for Value {
    type V = Datum;

    open spec fn view(&self) -> Datum {
        match self {
            Value::String(v) => Datum::Str(v@),
            Value::List(l) => Datum::List(l.deep_view()),
            Value::Hash(m) => Datum::Hash(hash_view(m@)),
            Value::Members(s) => Datum::Members(s@.dom()),
        }
    }
}

impl Value {
    /// The collections inside are well formed.
    pub open spec fn wf(&self) -> bool {
        match self {
            Value::Hash(m) => m.wf(),
            Value::Members(s) => s.wf(),
            _ => true,
        }
    }
}

/// An entry of the keyspace: what is stored and when it expires, in
/// seconds since the Unix epoch.
pub type Entry = (Value, Option<u64>);

/// What the keyspace holds, key by key.
pub type Keyspace = Map<Seq<u8>, (Datum, Option<u64>)>;

/// An expiry time has passed at `now`.
pub open spec fn is_expired(expiry: Option<u64>, now: u64) -> bool {
    match expiry {
        Some(e) => e < now,
        None => false,
    }
}

/// What `key` holds at `now`, unless it is absent or has expired.
pub open spec fn live(ks: Keyspace, key: Seq<u8>, now: u64) -> Option<Datum> {
    if ks.contains_key(key) && !is_expired(ks[key].1, now) {
        Some(ks[key].0)
    } else {
        None
    }
}

/// An operation's result agrees with the one that the specification gives.
pub open spec fn agrees<T: DeepView>(r: Result<T, Sacrilege>, s: Result<T::V, Sacrilege>) -> bool {
    match (r, s) {
        (Ok(a), Ok(b)) => a.deep_view() == b,
        (Err(x), Err(y)) => x == y,
        _ => false,
    }
}

// ----- what each operation does to the keyspace -----

pub open spec fn spec_get(ks: Keyspace, key: Seq<u8>, now: u64) -> Result<Option<Seq<u8>>, Sacrilege> {
    match live(ks, key, now) {
        Some(Datum::Str(v)) => Ok(Some(v)),
        Some(_) => Err(Sacrilege::IncorrectUsage(Command::GET)),
        None => Ok(None),
    }
}

pub open spec fn spec_append(ks: Keyspace, key: Seq<u8>, incoming: Seq<u8>, now: u64) -> (Keyspace, Result<usize, Sacrilege>) {
    match live(ks, key, now) {
        Some(Datum::Str(v)) => (
            ks.insert(key, (Datum::Str(v + incoming), ks[key].1)),
            Ok((v.len() + incoming.len()) as usize),
        ),
        Some(_) => (ks, Err(Sacrilege::IncorrectUsage(Command::APPEND))),
        None => (ks.insert(key, (Datum::Str(incoming), None)), Ok(incoming.len() as usize)),
    }
}

/// Adds `delta` to the number that `key` holds as a string; an absent key
/// counts as zero.
pub open spec fn spec_add_to(ks: Keyspace, key: Seq<u8>, delta: int, command: Command, now: u64) -> (Keyspace, Result<i64, Sacrilege>) {
    match live(ks, key, now) {
        Some(Datum::Str(v)) => match signed_reading(v, i64::MAX as nat) {
            Some(n) if i64::MIN <= n + delta <= i64::MAX => (
                ks.insert(key, (Datum::Str(signed_decimal(n + delta)), ks[key].1)),
                Ok((n + delta) as i64),
            ),
            _ => (ks, Err(Sacrilege::IncorrectUsage(command))),
        },
        Some(_) => (ks, Err(Sacrilege::IncorrectUsage(command))),
        None => (ks.insert(key, (Datum::Str(signed_decimal(delta)), None)), Ok(delta as i64)),
    }
}

pub open spec fn spec_strlen(ks: Keyspace, key: Seq<u8>, now: u64) -> Result<usize, Sacrilege> {
    match live(ks, key, now) {
        Some(Datum::Str(v)) => Ok(v.len() as usize),
        Some(_) => Err(Sacrilege::IncorrectUsage(Command::STRLEN)),
        None => Ok(0),
    }
}

/// Removes each key in turn, counting the ones that were live.
pub open spec fn spec_del(ks: Keyspace, keys: Seq<Seq<u8>>, now: u64) -> (Keyspace, nat)
    decreases keys.len(),
{
    if keys.len() == 0 {
        (ks, 0)
    } else {
        let (before, count) = spec_del(ks, keys.drop_last(), now);
        let key = keys.last();
        (before.remove(key), count + if live(before, key, now) is Some { 1nat } else { 0nat })
    }
}

/// How many of `keys` are live, a key that occurs twice counting twice.
pub open spec fn spec_exists(ks: Keyspace, keys: Seq<Seq<u8>>, now: u64) -> nat
    decreases keys.len(),
{
    if keys.len() == 0 {
        0
    } else {
        spec_exists(ks, keys.drop_last(), now) + if live(ks, keys.last(), now) is Some { 1nat } else { 0nat }
    }
}

/// The field-value pairs, each taken by its bytes.
pub open spec fn pair_views(pairs: Seq<(Vec<u8>, Vec<u8>)>) -> Seq<(Seq<u8>, Seq<u8>)> {
    pairs.map_values(|p: (Vec<u8>, Vec<u8>)| (p.0@, p.1@))
}

/// The value of `field` in `m`, if it has one.
pub open spec fn field_of(m: Map<Seq<u8>, Seq<u8>>, field: Seq<u8>) -> Option<Seq<u8>> {
    if m.contains_key(field) {
        Some(m[field])
    } else {
        None
    }
}

/// Sets each field in turn, counting the fields that were new.
pub open spec fn put_fields(m: Map<Seq<u8>, Seq<u8>>, pairs: Seq<(Seq<u8>, Seq<u8>)>) -> (Map<Seq<u8>, Seq<u8>>, nat)
    decreases pairs.len(),
{
    if pairs.len() == 0 {
        (m, 0)
    } else {
        let (before, count) = put_fields(m, pairs.drop_last());
        let (field, value) = pairs.last();
        (before.insert(field, value), count + if before.contains_key(field) { 0nat } else { 1nat })
    }
}

/// Removes each field in turn, counting the fields that were there.
pub open spec fn drop_fields(m: Map<Seq<u8>, Seq<u8>>, fields: Seq<Seq<u8>>) -> (Map<Seq<u8>, Seq<u8>>, nat)
    decreases fields.len(),
{
    if fields.len() == 0 {
        (m, 0)
    } else {
        let (before, count) = drop_fields(m, fields.drop_last());
        let field = fields.last();
        (before.remove(field), count + if before.contains_key(field) { 1nat } else { 0nat })
    }
}

/// `listing` names every field of `m` once, each followed by its value, in
/// some order.
pub open spec fn enumerates_fields(listing: Seq<Option<Seq<u8>>>, m: Map<Seq<u8>, Seq<u8>>) -> bool {
    exists|order: Seq<Seq<u8>>|
        {
            &&& order.no_duplicates()
            &&& order.to_set() == m.dom()
            &&& listing.len() == 2 * order.len()
            &&& forall|i: int|
                0 <= i < order.len() ==> listing[2 * i] == Some(#[trigger] order[i])
                    && listing[2 * i + 1] == Some(m[order[i]])
        }
}

/// Sets fields of the hash under `key`, counting the fields that were new.
pub open spec fn spec_hset(ks: Keyspace, key: Seq<u8>, pairs: Seq<(Seq<u8>, Seq<u8>)>, now: u64) -> (Keyspace, Result<u32, Sacrilege>) {
    match live(ks, key, now) {
        Some(Datum::Hash(m)) => (
            ks.insert(key, (Datum::Hash(put_fields(m, pairs).0), ks[key].1)),
            Ok(put_fields(m, pairs).1 as u32),
        ),
        Some(_) => (ks, Err(Sacrilege::IncorrectUsage(Command::HSET))),
        None => (
            ks.insert(key, (Datum::Hash(put_fields(Map::empty(), pairs).0), None)),
            Ok(put_fields(Map::empty(), pairs).1 as u32),
        ),
    }
}

pub open spec fn spec_hget(ks: Keyspace, key: Seq<u8>, field: Seq<u8>, now: u64) -> Result<Option<Seq<u8>>, Sacrilege> {
    match live(ks, key, now) {
        Some(Datum::Hash(m)) => Ok(field_of(m, field)),
        Some(_) => Err(Sacrilege::IncorrectUsage(Command::HGET)),
        None => Ok(None),
    }
}

/// The values of `fields` in the hash under `key`; an absent key has none
/// of them.
pub open spec fn spec_hmget(ks: Keyspace, key: Seq<u8>, fields: Seq<Seq<u8>>, now: u64) -> Result<Option<Seq<Option<Seq<u8>>>>, Sacrilege> {
    match live(ks, key, now) {
        Some(Datum::Hash(m)) => Ok(Some(fields.map_values(|f: Seq<u8>| field_of(m, f)))),
        Some(_) => Err(Sacrilege::IncorrectUsage(Command::HMGET)),
        None => Ok(Some(fields.map_values(|f: Seq<u8>| None::<Seq<u8>>))),
    }
}

/// Removes fields from the hash under `key`, counting those that were
/// there; a hash left empty goes away.
pub open spec fn spec_hdel(ks: Keyspace, key: Seq<u8>, fields: Seq<Seq<u8>>, now: u64) -> (Keyspace, Result<u32, Sacrilege>) {
    match live(ks, key, now) {
        Some(Datum::Hash(m)) => {
            let (rest, count) = drop_fields(m, fields);
            (
                if rest == Map::<Seq<u8>, Seq<u8>>::empty() { ks.remove(key) } else { ks.insert(key, (Datum::Hash(rest), ks[key].1)) },
                Ok(count as u32),
            )
        },
        Some(_) => (ks, Err(Sacrilege::IncorrectUsage(Command::HDEL))),
        None => (ks, Ok(0)),
    }
}

pub open spec fn spec_hexists(ks: Keyspace, key: Seq<u8>, field: Seq<u8>, now: u64) -> Result<u32, Sacrilege> {
    match live(ks, key, now) {
        Some(Datum::Hash(m)) => Ok(if m.contains_key(field) { 1 } else { 0 }),
        Some(_) => Err(Sacrilege::IncorrectUsage(Command::HEXISTS)),
        None => Ok(0),
    }
}

pub open spec fn spec_hlen(ks: Keyspace, key: Seq<u8>, now: u64) -> Result<usize, Sacrilege> {
    match live(ks, key, now) {
        Some(Datum::Hash(m)) => Ok(m.len() as usize),
        Some(_) => Err(Sacrilege::IncorrectUsage(Command::HLEN)),
        None => Ok(0),
    }
}

/// Each element, wrapped as a present bulk string.
pub open spec fn present(s: Seq<Seq<u8>>) -> Seq<Option<Seq<u8>>> {
    s.map_values(|e: Seq<u8>| Some(e))
}

/// The keyspace after a pop left `rest` in the list under `key`: a list
/// left empty goes away.
pub open spec fn after_pop(ks: Keyspace, key: Seq<u8>, rest: Seq<Seq<u8>>) -> Keyspace {
    if rest.len() == 0 {
        ks.remove(key)
    } else {
        ks.insert(key, (Datum::List(rest), ks[key].1))
    }
}

pub open spec fn spec_lpush(ks: Keyspace, key: Seq<u8>, elements: Seq<Seq<u8>>, now: u64) -> (Keyspace, Result<usize, Sacrilege>) {
    match live(ks, key, now) {
        Some(Datum::List(l)) => (
            ks.insert(key, (Datum::List(elements.reverse() + l), ks[key].1)),
            Ok((elements.len() + l.len()) as usize),
        ),
        Some(_) => (ks, Err(Sacrilege::IncorrectUsage(Command::LPUSH))),
        None => (ks.insert(key, (Datum::List(elements.reverse()), None)), Ok(elements.len() as usize)),
    }
}

pub open spec fn spec_rpush(ks: Keyspace, key: Seq<u8>, elements: Seq<Seq<u8>>, now: u64) -> (Keyspace, Result<usize, Sacrilege>) {
    match live(ks, key, now) {
        Some(Datum::List(l)) => (
            ks.insert(key, (Datum::List(l + elements), ks[key].1)),
            Ok((l.len() + elements.len()) as usize),
        ),
        Some(_) => (ks, Err(Sacrilege::IncorrectUsage(Command::RPUSH))),
        None => (ks.insert(key, (Datum::List(elements), None)), Ok(elements.len() as usize)),
    }
}

/// Pops from the front of the list under `key` (from the back when
/// `from_back`): `None` pops one element, `Some(n)` up to `n` of them. A
/// key that has expired goes away and nothing is popped; a live key of
/// another type is refused; a list left empty goes away.
pub open spec fn spec_pop(ks: Keyspace, key: Seq<u8>, from_back: bool, count: Option<nat>, command: Command, now: u64) -> (Keyspace, Result<Option<Seq<Option<Seq<u8>>>>, Sacrilege>) {
    if !ks.contains_key(key) {
        (ks, Ok(None))
    } else if is_expired(ks[key].1, now) {
        (ks.remove(key), Ok(None))
    } else {
        match ks[key].0 {
            Datum::List(l) => {
                let k: nat = match count {
                    Some(n) => if n < l.len() { n } else { l.len() },
                    None => if l.len() > 0 { 1nat } else { 0nat },
                };
                let popped = if from_back { l.skip(l.len() - k).reverse() } else { l.take(k as int) };
                let rest = if from_back { l.take(l.len() - k) } else { l.skip(k as int) };
                (after_pop(ks, key, rest), Ok(if count is None && k == 0 { None } else { Some(present(popped)) }))
            },
            _ => (ks, Err(Sacrilege::IncorrectUsage(command))),
        }
    }
}

/// A single popped element, if any.
pub open spec fn first_popped(r: Result<Option<Seq<Option<Seq<u8>>>>, Sacrilege>) -> Result<Option<Seq<u8>>, Sacrilege> {
    match r {
        Ok(Some(p)) => Ok(p[0]),
        Ok(None) => Ok(None),
        Err(e) => Err(e),
    }
}

pub open spec fn spec_llen(ks: Keyspace, key: Seq<u8>, now: u64) -> Result<usize, Sacrilege> {
    match live(ks, key, now) {
        Some(Datum::List(l)) => Ok(l.len() as usize),
        Some(_) => Err(Sacrilege::IncorrectUsage(Command::LLEN)),
        None => Ok(0),
    }
}

/// A possibly negative position counted from the end when negative.
pub open spec fn from_end(index: int, len: int) -> int {
    if index < 0 {
        index + len
    } else {
        index
    }
}

/// The first and last positions that a range selects in a list of `len`
/// elements: negative positions count from the end, the start is clamped to
/// the first element and the stop to the last.
pub open spec fn range_bounds(len: int, start: int, stop: int) -> (int, int) {
    let s = from_end(start, len);
    let e = from_end(stop, len);
    (if s < 0 { 0 } else { s }, if e >= len { len - 1 } else { e })
}

/// The elements of `l` that a range selects.
pub open spec fn range_of(l: Seq<Seq<u8>>, start: int, stop: int) -> Seq<Seq<u8>> {
    let (s, e) = range_bounds(l.len() as int, start, stop);
    if s <= e && s < l.len() {
        l.subrange(s, e + 1)
    } else {
        Seq::empty()
    }
}

pub open spec fn spec_lrange(ks: Keyspace, key: Seq<u8>, start: int, stop: int, now: u64) -> Result<Option<Seq<Option<Seq<u8>>>>, Sacrilege> {
    match live(ks, key, now) {
        Some(Datum::List(l)) => Ok(Some(present(range_of(l, start, stop)))),
        Some(_) => Err(Sacrilege::IncorrectUsage(Command::LRANGE)),
        None => Ok(Some(Seq::empty())),
    }
}

pub open spec fn spec_lindex(ks: Keyspace, key: Seq<u8>, index: int, now: u64) -> Result<Option<Seq<u8>>, Sacrilege> {
    match live(ks, key, now) {
        Some(Datum::List(l)) => {
            let i = from_end(index, l.len() as int);
            Ok(if 0 <= i < l.len() { Some(l[i]) } else { None })
        },
        Some(_) => Err(Sacrilege::IncorrectUsage(Command::LINDEX)),
        None => Ok(None),
    }
}

pub open spec fn spec_lset(ks: Keyspace, key: Seq<u8>, index: int, element: Seq<u8>, now: u64) -> (Keyspace, Result<(), Sacrilege>) {
    match live(ks, key, now) {
        Some(Datum::List(l)) => {
            let i = from_end(index, l.len() as int);
            if 0 <= i < l.len() {
                (ks.insert(key, (Datum::List(l.update(i, element)), ks[key].1)), Ok(()))
            } else {
                (ks, Err(Sacrilege::IncorrectUsage(Command::LSET)))
            }
        },
        _ => (ks, Err(Sacrilege::IncorrectUsage(Command::LSET))),
    }
}

/// `l` without its first `k` occurrences of `e`.
pub open spec fn drop_first_matches(l: Seq<Seq<u8>>, e: Seq<u8>, k: nat) -> Seq<Seq<u8>>
    decreases l.len(),
{
    if l.len() == 0 || k == 0 {
        l
    } else if l[0] == e {
        drop_first_matches(l.drop_first(), e, (k - 1) as nat)
    } else {
        seq![l[0]] + drop_first_matches(l.drop_first(), e, k)
    }
}

/// `l` without its last `k` occurrences of `e`.
pub open spec fn drop_last_matches(l: Seq<Seq<u8>>, e: Seq<u8>, k: nat) -> Seq<Seq<u8>>
    decreases l.len(),
{
    if l.len() == 0 || k == 0 {
        l
    } else if l.last() == e {
        drop_last_matches(l.drop_last(), e, (k - 1) as nat)
    } else {
        drop_last_matches(l.drop_last(), e, k).push(l.last())
    }
}

/// `l` without any occurrence of `e`.
pub open spec fn without(l: Seq<Seq<u8>>, e: Seq<u8>) -> Seq<Seq<u8>>
    decreases l.len(),
{
    if l.len() == 0 {
        l
    } else if l.last() == e {
        without(l.drop_last(), e)
    } else {
        without(l.drop_last(), e).push(l.last())
    }
}

/// What a removal of `element` with the given count leaves of `l`: a
/// positive count removes that many from the head, a negative one from the
/// tail, zero removes them all.
pub open spec fn removal(l: Seq<Seq<u8>>, count: int, element: Seq<u8>) -> Seq<Seq<u8>> {
    if count > 0 {
        drop_first_matches(l, element, count as nat)
    } else if count < 0 {
        drop_last_matches(l, element, (-count) as nat)
    } else {
        without(l, element)
    }
}

/// Removes occurrences of `element` from the list under `key`, counting
/// them; a list left empty goes away.
pub open spec fn spec_lrem(ks: Keyspace, key: Seq<u8>, count: int, element: Seq<u8>, now: u64) -> (Keyspace, Result<usize, Sacrilege>) {
    match live(ks, key, now) {
        Some(Datum::List(l)) => {
            let rest = removal(l, count, element);
            (
                if rest.len() == 0 { ks.remove(key) } else { ks.insert(key, (Datum::List(rest), ks[key].1)) },
                Ok((l.len() - rest.len()) as usize),
            )
        },
        Some(_) => (ks, Err(Sacrilege::IncorrectUsage(Command::LREM))),
        None => (ks, Ok(0)),
    }
}

pub proof fn lemma_drop_first_matches_shrinks(l: Seq<Seq<u8>>, e: Seq<u8>, k: nat)
    ensures
        drop_first_matches(l, e, k).len() <= l.len(),
    decreases l.len(),
{
    if l.len() > 0 && k > 0 {
        if l[0] == e {
            lemma_drop_first_matches_shrinks(l.drop_first(), e, (k - 1) as nat);
        } else {
            lemma_drop_first_matches_shrinks(l.drop_first(), e, k);
        }
    }
}

pub proof fn lemma_drop_last_matches_shrinks(l: Seq<Seq<u8>>, e: Seq<u8>, k: nat)
    ensures
        drop_last_matches(l, e, k).len() <= l.len(),
    decreases l.len(),
{
    if l.len() > 0 && k > 0 {
        if l.last() == e {
            lemma_drop_last_matches_shrinks(l.drop_last(), e, (k - 1) as nat);
        } else {
            lemma_drop_last_matches_shrinks(l.drop_last(), e, k);
        }
    }
}

pub proof fn lemma_without_shrinks(l: Seq<Seq<u8>>, e: Seq<u8>)
    ensures
        without(l, e).len() <= l.len(),
    decreases l.len(),
{
    if l.len() > 0 {
        lemma_without_shrinks(l.drop_last(), e);
    }
}

/// A removal never lengthens a list.
pub proof fn lemma_removal_shrinks(l: Seq<Seq<u8>>, count: int, element: Seq<u8>)
    ensures
        removal(l, count, element).len() <= l.len(),
{
    lemma_drop_first_matches_shrinks(l, element, if count > 0 { count as nat } else { 0 });
    lemma_drop_last_matches_shrinks(l, element, if count < 0 { (-count) as nat } else { 0 });
    lemma_without_shrinks(l, element);
}

/// Adds each member in turn, counting the ones that were new.
pub open spec fn add_members(s: Set<Seq<u8>>, values: Seq<Seq<u8>>) -> (Set<Seq<u8>>, nat)
    decreases values.len(),
{
    if values.len() == 0 {
        (s, 0)
    } else {
        let (before, count) = add_members(s, values.drop_last());
        let v = values.last();
        (before.insert(v), count + if before.contains(v) { 0nat } else { 1nat })
    }
}

/// Removes each member in turn, counting the ones that were there.
pub open spec fn remove_members(s: Set<Seq<u8>>, values: Seq<Seq<u8>>) -> (Set<Seq<u8>>, nat)
    decreases values.len(),
{
    if values.len() == 0 {
        (s, 0)
    } else {
        let (before, count) = remove_members(s, values.drop_last());
        let v = values.last();
        (before.remove(v), count + if before.contains(v) { 1nat } else { 0nat })
    }
}

/// `listing` names every member of `s` once, in some order.
pub open spec fn enumerates_members(listing: Seq<Option<Seq<u8>>>, s: Set<Seq<u8>>) -> bool {
    exists|order: Seq<Seq<u8>>| order.no_duplicates() && order.to_set() == s && listing == present(order)
}

pub open spec fn spec_sadd(ks: Keyspace, key: Seq<u8>, values: Seq<Seq<u8>>, now: u64) -> (Keyspace, Result<usize, Sacrilege>) {
    match live(ks, key, now) {
        Some(Datum::Members(s)) => (
            ks.insert(key, (Datum::Members(add_members(s, values).0), ks[key].1)),
            Ok(add_members(s, values).1 as usize),
        ),
        Some(_) => (ks, Err(Sacrilege::IncorrectUsage(Command::SADD))),
        None => (
            ks.insert(key, (Datum::Members(add_members(Set::empty(), values).0), None)),
            Ok(add_members(Set::empty(), values).1 as usize),
        ),
    }
}

pub open spec fn spec_srem(ks: Keyspace, key: Seq<u8>, values: Seq<Seq<u8>>, now: u64) -> (Keyspace, Result<usize, Sacrilege>) {
    match live(ks, key, now) {
        Some(Datum::Members(s)) => {
            let (rest, count) = remove_members(s, values);
            (
                if rest == Set::<Seq<u8>>::empty() { ks.remove(key) } else { ks.insert(key, (Datum::Members(rest), ks[key].1)) },
                Ok(count as usize),
            )
        },
        Some(_) => (ks, Err(Sacrilege::IncorrectUsage(Command::SREM))),
        None => (ks, Ok(0)),
    }
}

pub open spec fn spec_sismember(ks: Keyspace, key: Seq<u8>, value: Seq<u8>, now: u64) -> Result<usize, Sacrilege> {
    match live(ks, key, now) {
        Some(Datum::Members(s)) => Ok(if s.contains(value) { 1 } else { 0 }),
        Some(_) => Err(Sacrilege::IncorrectUsage(Command::SREM)),
        None => Ok(0),
    }
}

/// Sets when `key` expires, unless it is absent or has expired already (an
/// expired key goes away).
pub open spec fn spec_expire(ks: Keyspace, key: Seq<u8>, expiry: u64, now: u64) -> (Keyspace, u32) {
    if !ks.contains_key(key) {
        (ks, 0)
    } else if is_expired(ks[key].1, now) {
        (ks.remove(key), 0)
    } else {
        (ks.insert(key, (ks[key].0, Some(expiry))), 1)
    }
}

/// The moment `nanos` nanoseconds after second `now` is later than second
/// `e`.
pub open spec fn is_past(e: u64, now: u64, nanos: u32) -> bool {
    e < now || (e == now && nanos > 0)
}

/// The whole seconds that `key` has left at the moment `nanos` nanoseconds
/// after second `now`: -2 when it is absent or has expired (an expired key
/// goes away), -1 when it never expires.
pub open spec fn spec_ttl(ks: Keyspace, key: Seq<u8>, now: u64, nanos: u32) -> (Keyspace, i64) {
    if !ks.contains_key(key) {
        (ks, -2i64)
    } else {
        match ks[key].1 {
            Some(e) => if is_past(e, now, nanos) {
                (ks.remove(key), -2i64)
            } else {
                (ks, (e - now - if nanos > 0 { 1int } else { 0int }) as i64)
            },
            None => (ks, -1i64),
        }
    }
}

/// Stores the first `n` key-value pairs of `terms` as strings, in order.
pub open spec fn spec_mset_pairs(ks: Keyspace, terms: Seq<Seq<u8>>, n: nat) -> Keyspace
    decreases n,
{
    if n == 0 {
        ks
    } else {
        spec_mset_pairs(ks, terms, (n - 1) as nat).insert(terms[2 * n - 2], (Datum::Str(terms[2 * n - 1]), None))
    }
}

/// Stores the key-value pairs of `terms` as strings; a lone last term is
/// ignored.
pub open spec fn spec_mset(ks: Keyspace, terms: Seq<Seq<u8>>) -> Keyspace {
    spec_mset_pairs(ks, terms, terms.len() / 2)
}

/// The string under `key`, if it is live and holds a string.
pub open spec fn string_of(ks: Keyspace, key: Seq<u8>, now: u64) -> Option<Seq<u8>> {
    match live(ks, key, now) {
        Some(Datum::Str(v)) => Some(v),
        _ => None,
    }
}

pub open spec fn spec_mget(ks: Keyspace, keys: Seq<Seq<u8>>, now: u64) -> Seq<Option<Seq<u8>>> {
    keys.map_values(|k: Seq<u8>| string_of(ks, k, now))
}

/// A stored value in plain collections, as a snapshot holds it.
pub enum Plain {
    String(Vec<u8>),
    List(Vec<Vec<u8>>),
    Hash(Vec<(Vec<u8>, Vec<u8>)>),
    Members(Vec<Vec<u8>>),
}

/// What a plain value holds once it is stored.
pub open spec fn plain_datum(p: Plain) -> Datum {
    match p {
        Plain::String(v) => Datum::Str(v@),
        Plain::List(l) => Datum::List(key_views(l@)),
        Plain::Hash(ps) => Datum::Hash(put_fields(Map::empty(), pair_views(ps@)).0),
        Plain::Members(ms) => Datum::Members(add_members(Set::empty(), key_views(ms@)).0),
    }
}

/// `p` holds exactly what `d` holds, each field or member once.
pub open spec fn plain_holds(p: Plain, d: Datum) -> bool {
    match (p, d) {
        (Plain::String(v), Datum::Str(s)) => v@ == s,
        (Plain::List(l), Datum::List(s)) => key_views(l@) == s,
        (Plain::Hash(ps), Datum::Hash(m)) => {
            let fs = pair_views(ps@).map_values(|f: (Seq<u8>, Seq<u8>)| f.0);
            &&& fs.no_duplicates()
            &&& fs.to_set() == m.dom()
            &&& forall|i: int| 0 <= i < ps@.len() ==> #[trigger] pair_views(ps@)[i].1 == m[pair_views(ps@)[i].0]
        },
        (Plain::Members(ms), Datum::Members(s)) => key_views(ms@).no_duplicates() && key_views(ms@).to_set() == s,
        _ => false,
    }
}

/// The keys of snapshot entries.
pub open spec fn entry_keys(entries: Seq<(Vec<u8>, Plain, Option<u64>)>) -> Seq<Seq<u8>> {
    entries.map_values(|e: (Vec<u8>, Plain, Option<u64>)| e.0@)
}

/// `entries` hold every key of `ks` once, each with what it holds and when
/// it expires.
pub open spec fn snapshot_of(entries: Seq<(Vec<u8>, Plain, Option<u64>)>, ks: Keyspace) -> bool {
    &&& entry_keys(entries).no_duplicates()
    &&& entry_keys(entries).to_set() == ks.dom()
    &&& forall|i: int| 0 <= i < entries.len() ==> {
        let e = #[trigger] entries[i];
        &&& plain_holds(e.1, ks[e.0@].0)
        &&& e.2 == ks[e.0@].1
    }
}

/// The keyspace that storing each snapshot entry in turn builds.
pub open spec fn restored(entries: Seq<(Vec<u8>, Plain, Option<u64>)>) -> Keyspace
    decreases entries.len(),
{
    if entries.len() == 0 {
        Keyspace::empty()
    } else {
        let e = entries.last();
        restored(entries.drop_last()).insert(e.0@, (plain_datum(e.1), e.2))
    }
}

/// The keyspace, stored as entries keyed by their bytes.
pub struct Soul {
    entries: ByteMap<Entry>,
}

impl View for Soul {
    type V = Keyspace;

    closed spec fn view(&self) -> Keyspace {
        self.entries@.map_values(|e: Entry| (e.0@, e.1))
    }
}

impl Default for Soul {
    fn default() -> (soul: Self)
        ensures
            soul.wf(),
            soul@ == Keyspace::empty(),
    {
        Soul::new()
    }
}

impl Soul {
    /// The entries are keyed uniquely and every stored collection is well formed.
    pub closed spec fn wf(&self) -> bool {
        &&& self.entries.wf()
        &&& forall|k: Seq<u8>| #[trigger] self.entries@.contains_key(k) ==> self.entries@[k].0.wf()
    }

    pub fn new() -> (soul: Self)
        ensures
            soul.wf(),
            soul@ == Keyspace::empty(),
    {
        let soul = Soul { entries: ByteMap::new() };
        assert(soul@ =~= Keyspace::empty());
        soul
    }

    /// Where the entry of `key` stands, if it is live at `now`.
    fn get_mut_valid_value(&self, key: &Vec<u8>, now: u64) -> (at: Option<usize>)
        requires
            self.wf(),
        ensures
            match at {
                Some(i) => i < self.entries.key_seq().len() && self.entries.key_seq()[i as int] == key@
                    && live(self@, key@, now) == Some(self.entries.val_seq()[i as int].0@)
                    && self.entries@[key@] == self.entries.val_seq()[i as int],
                None => live(self@, key@, now) is None,
            },
    {
        match self.entries.find(key) {
            Some(i) => {
                let expiry = self.entries.value_at(i).1;
                match expiry {
                    Some(e) => {
                        if e < now {
                            None
                        } else {
                            Some(i)
                        }
                    },
                    None => Some(i),
                }
            },
            None => None,
        }
    }

    /// The value of `key`, if it is live at `now`.
    fn get_valid_value(&self, key: &Vec<u8>, now: u64) -> (value: Option<&Value>)
        requires
            self.wf(),
        ensures
            match value {
                Some(v) => live(self@, key@, now) == Some(v@) && v.wf(),
                None => live(self@, key@, now) is None,
            },
    {
        match self.get_mut_valid_value(key, now) {
            Some(i) => Some(&self.entries.value_at(i).0),
            None => None,
        }
    }

    /// Takes out the entry at `i`, leaving an empty string in its place.
    fn take_at(&mut self, i: usize) -> (entry: Entry)
        requires
            old(self).wf(),
            i < old(self).entries.key_seq().len(),
        ensures
            final(self).wf(),
            entry == old(self).entries.val_seq()[i as int],
            entry.0.wf(),
            final(self).entries.key_seq() == old(self).entries.key_seq(),
            final(self)@ == old(self)@.insert(
                old(self).entries.key_seq()[i as int],
                (Datum::Str(Seq::empty()), None),
            ),
    {
        proof {
            self.entries.lemma_layout();
            assert(self.entries@.contains_key(self.entries.key_seq()[i as int]));
        }
        let blank: Vec<u8> = Vec::new();
        let entry = self.entries.replace_at(i, (Value::String(blank), None));
        proof {
            let k = old(self).entries.key_seq()[i as int];
            assert(self@ =~= old(self)@.insert(k, (Datum::Str(Seq::empty()), None)));
        }
        entry
    }

    /// Puts `entry` at `i`.
    fn put_at(&mut self, i: usize, entry: Entry)
        requires
            old(self).wf(),
            entry.0.wf(),
            i < old(self).entries.key_seq().len(),
        ensures
            final(self).wf(),
            final(self).entries.key_seq() == old(self).entries.key_seq(),
            final(self)@ == old(self)@.insert(old(self).entries.key_seq()[i as int], (entry.0@, entry.1)),
    {
        let ghost e = entry;
        let _ = self.entries.replace_at(i, entry);
        proof {
            let k = old(self).entries.key_seq()[i as int];
            assert(self@ =~= old(self)@.insert(k, (e.0@, e.1)));
        }
    }

    /// Stores `entry` under `key`.
    fn put(&mut self, key: Vec<u8>, entry: Entry)
        requires
            old(self).wf(),
            entry.0.wf(),
        ensures
            final(self).wf(),
            final(self)@ == old(self)@.insert(key@, (entry.0@, entry.1)),
    {
        let ghost e = entry;
        let ghost k = key@;
        let _ = self.entries.insert(key, entry);
        proof {
            assert(self@ =~= old(self)@.insert(k, (e.0@, e.1)));
        }
    }

    pub fn get(&mut self, key: Vec<u8>, now: u64) -> (result: Result<Option<Vec<u8>>, Sacrilege>)
        requires
            old(self).wf(),
        ensures
            final(self).wf(),
            final(self)@ == old(self)@,
            agrees(result, spec_get(old(self)@, key@, now)),
    {
        match self.get_valid_value(&key, now) {
            Some(Value::String(value)) => Ok(Some(copy_bytes(value))),
            Some(_) => Err(Sacrilege::IncorrectUsage(Command::GET)),
            None => Ok(None),
        }
    }

    pub fn set(&mut self, key: Vec<u8>, val: Entry)
        requires
            old(self).wf(),
            val.0.wf(),
        ensures
            final(self).wf(),
            final(self)@ == old(self)@.insert(key@, (val.0@, val.1)),
    {
        self.put(key, val);
    }

    pub fn append(&mut self, key: Vec<u8>, incoming_value: Vec<u8>, now: u64) -> (result: Result<usize, Sacrilege>)
        requires
            old(self).wf(),
        ensures
            final(self).wf(),
            (final(self)@, result) == spec_append(old(self)@, key@, incoming_value@, now),
    {
        let mut incoming_value = incoming_value;
        let ghost incoming = incoming_value@;
        match self.get_mut_valid_value(&key, now) {
            Some(i) => {
                let (value, expiry) = self.take_at(i);
                match value {
                    Value::String(mut v) => {
                        let ghost before = v@;
                        v.append(&mut incoming_value);
                        let n = v.len();
                        self.put_at(i, (Value::String(v), expiry));
                        proof {
                            assert(self@ =~= old(self)@.insert(key@, (Datum::Str(before + incoming), expiry)));
                        }
                        Ok(n)
                    },
                    other => {
                        self.put_at(i, (other, expiry));
                        assert(self@ =~= old(self)@);
                        Err(Sacrilege::IncorrectUsage(Command::APPEND))
                    },
                }
            },
            None => {
                let n = incoming_value.len();
                self.put(key, (Value::String(incoming_value), None));
                Ok(n)
            },
        }
    }

    /// Adds `delta` to the number that `key` holds.
    fn add_to(&mut self, key: Vec<u8>, delta: i64, command: Command, now: u64) -> (result: Result<i64, Sacrilege>)
        requires
            old(self).wf(),
        ensures
            final(self).wf(),
            (final(self)@, result) == spec_add_to(old(self)@, key@, delta as int, command, now),
    {
        match self.get_mut_valid_value(&key, now) {
            Some(i) => {
                let (value, expiry) = self.take_at(i);
                match value {
                    Value::String(v) => {
                        match bytes_to_i64(v.as_slice()) {
                            Ok(number) => match number.checked_add(delta) {
                                Some(n) => {
                                    self.put_at(i, (Value::String(spell_signed(n)), expiry));
                                    proof {
                                        assert(self@ =~= old(self)@.insert(key@, (Datum::Str(signed_decimal(n as int)), expiry)));
                                    }
                                    Ok(n)
                                },
                                None => {
                                    self.put_at(i, (Value::String(v), expiry));
                                    assert(self@ =~= old(self)@);
                                    Err(Sacrilege::IncorrectUsage(command))
                                },
                            },
                            Err(_) => {
                                self.put_at(i, (Value::String(v), expiry));
                                assert(self@ =~= old(self)@);
                                Err(Sacrilege::IncorrectUsage(command))
                            },
                        }
                    },
                    other => {
                        self.put_at(i, (other, expiry));
                        assert(self@ =~= old(self)@);
                        Err(Sacrilege::IncorrectUsage(command))
                    },
                }
            },
            None => {
                self.put(key, (Value::String(spell_signed(delta)), None));
                Ok(delta)
            },
        }
    }

    pub fn incr(&mut self, key: Vec<u8>, now: u64) -> (result: Result<i64, Sacrilege>)
        requires
            old(self).wf(),
        ensures
            final(self).wf(),
            (final(self)@, result) == spec_add_to(old(self)@, key@, 1, Command::INCR, now),
    {
        self.add_to(key, 1, Command::INCR, now)
    }

    pub fn decr(&mut self, key: Vec<u8>, now: u64) -> (result: Result<i64, Sacrilege>)
        requires
            old(self).wf(),
        ensures
            final(self).wf(),
            (final(self)@, result) == spec_add_to(old(self)@, key@, -1, Command::DECR, now),
    {
        self.add_to(key, -1, Command::DECR, now)
    }

    pub fn strlen(&self, key: Vec<u8>, now: u64) -> (result: Result<usize, Sacrilege>)
        requires
            self.wf(),
        ensures
            result == spec_strlen(self@, key@, now),
    {
        match self.get_valid_value(&key, now) {
            Some(Value::String(value)) => Ok(value.len()),
            Some(_) => Err(Sacrilege::IncorrectUsage(Command::STRLEN)),
            None => Ok(0),
        }
    }

    /// Removes `key`, handing back its value if it was live at `now`.
    pub fn remove_valid_value(&mut self, key: &Vec<u8>, now: u64) -> (removed: Option<Value>)
        requires
            old(self).wf(),
        ensures
            final(self).wf(),
            final(self)@ == old(self)@.remove(key@),
            match removed {
                Some(v) => live(old(self)@, key@, now) == Some(v@) && v.wf(),
                None => live(old(self)@, key@, now) is None,
            },
    {
        let taken = self.entries.remove(key);
        proof {
            assert(self@ =~= old(self)@.remove(key@));
        }
        match taken {
            Some((value, Some(expiry))) => {
                if expiry < now {
                    None
                } else {
                    Some(value)
                }
            },
            Some((value, None)) => Some(value),
            None => None,
        }
    }

    pub fn del(&mut self, keys: Vec<Vec<u8>>, now: u64) -> (deleted: u32)
        requires
            old(self).wf(),
            keys@.len() <= u32::MAX,
        ensures
            final(self).wf(),
            (final(self)@, deleted as nat) == spec_del(old(self)@, key_views(keys@), now),
    {
        let ghost ks = key_views(keys@);
        let mut number_of_entries_deleted: u32 = 0;
        let mut i: usize = 0;
        assert(ks.take(0) =~= Seq::<Seq<u8>>::empty());
        while i < keys.len()
            invariant
                self.wf(),
                i <= keys@.len(),
                keys@.len() <= u32::MAX,
                ks == key_views(keys@),
                number_of_entries_deleted <= i,
                (self@, number_of_entries_deleted as nat) == spec_del(old(self)@, ks.take(i as int), now),
            decreases keys@.len() - i,
        {
            assert(ks.take(i + 1).drop_last() =~= ks.take(i as int));
            if self.remove_valid_value(&keys[i], now).is_some() {
                number_of_entries_deleted += 1;
            }
            i += 1;
        }
        assert(ks.take(keys@.len() as int) =~= ks);
        number_of_entries_deleted
    }

    pub fn count_existing(&self, keys: Vec<Vec<u8>>, now: u64) -> (existing: u32)
        requires
            self.wf(),
            keys@.len() <= u32::MAX,
        ensures
            existing as nat == spec_exists(self@, key_views(keys@), now),
    {
        let ghost ks = key_views(keys@);
        let mut number_of_entries_that_exist: u32 = 0;
        let mut i: usize = 0;
        assert(ks.take(0) =~= Seq::<Seq<u8>>::empty());
        while i < keys.len()
            invariant
                self.wf(),
                i <= keys@.len(),
                keys@.len() <= u32::MAX,
                ks == key_views(keys@),
                number_of_entries_that_exist <= i,
                number_of_entries_that_exist as nat == spec_exists(self@, ks.take(i as int), now),
            decreases keys@.len() - i,
        {
            assert(ks.take(i + 1).drop_last() =~= ks.take(i as int));
            if self.get_valid_value(&keys[i], now).is_some() {
                number_of_entries_that_exist += 1;
            }
            i += 1;
        }
        assert(ks.take(keys@.len() as int) =~= ks);
        number_of_entries_that_exist
    }

    /// Sets each field of `pairs` in `map`, counting the new ones.
    fn put_fields_into(map: &mut ByteMap<Vec<u8>>, pairs: &Vec<(Vec<u8>, Vec<u8>)>) -> (added: u32)
        requires
            old(map).wf(),
            pairs@.len() <= u32::MAX,
        ensures
            final(map).wf(),
            (hash_view(final(map)@), added as nat) == put_fields(hash_view(old(map)@), pair_views(pairs@)),
    {
        let ghost ps = pair_views(pairs@);
        let mut added: u32 = 0;
        let mut i: usize = 0;
        assert(ps.take(0) =~= Seq::<(Seq<u8>, Seq<u8>)>::empty());
        while i < pairs.len()
            invariant
                map.wf(),
                i <= pairs@.len(),
                pairs@.len() <= u32::MAX,
                ps == pair_views(pairs@),
                added <= i,
                (hash_view(map@), added as nat) == put_fields(hash_view(old(map)@), ps.take(i as int)),
            decreases pairs@.len() - i,
        {
            assert(ps.take(i + 1).drop_last() =~= ps.take(i as int));
            let field = copy_bytes(&pairs[i].0);
            let value = copy_bytes(&pairs[i].1);
            let ghost before = map@;
            let previous = map.insert(field, value);
            proof {
                assert(hash_view(map@) =~= hash_view(before).insert(ps[i as int].0, ps[i as int].1));
            }
            if previous.is_none() {
                added += 1;
            }
            i += 1;
        }
        assert(ps.take(pairs@.len() as int) =~= ps);
        added
    }

    pub fn hset(&mut self, key: Vec<u8>, field_value_pairs: Vec<(Vec<u8>, Vec<u8>)>, now: u64) -> (result: Result<u32, Sacrilege>)
        requires
            old(self).wf(),
            field_value_pairs@.len() <= u32::MAX,
        ensures
            final(self).wf(),
            (final(self)@, result) == spec_hset(old(self)@, key@, pair_views(field_value_pairs@), now),
    {
        match self.get_mut_valid_value(&key, now) {
            Some(i) => {
                let (value, expiry) = self.take_at(i);
                match value {
                    Value::Hash(mut map) => {
                        let added = Self::put_fields_into(&mut map, &field_value_pairs);
                        let ghost m = map@;
                        self.put_at(i, (Value::Hash(map), expiry));
                        proof {
                            assert(self@ =~= old(self)@.insert(key@, (Datum::Hash(hash_view(m)), expiry)));
                        }
                        Ok(added)
                    },
                    other => {
                        self.put_at(i, (other, expiry));
                        assert(self@ =~= old(self)@);
                        Err(Sacrilege::IncorrectUsage(Command::HSET))
                    },
                }
            },
            None => {
                let mut map: ByteMap<Vec<u8>> = ByteMap::new();
                assert(hash_view(map@) =~= Map::<Seq<u8>, Seq<u8>>::empty());
                let added = Self::put_fields_into(&mut map, &field_value_pairs);
                self.put(key, (Value::Hash(map), None));
                Ok(added)
            },
        }
    }

    pub fn hget(&mut self, key: Vec<u8>, field: Vec<u8>, now: u64) -> (result: Result<Option<Vec<u8>>, Sacrilege>)
        requires
            old(self).wf(),
        ensures
            final(self).wf(),
            final(self)@ == old(self)@,
            agrees(result, spec_hget(old(self)@, key@, field@, now)),
    {
        match self.get_valid_value(&key, now) {
            Some(Value::Hash(map)) => match map.get(&field) {
                Some(v) => Ok(Some(copy_bytes(v))),
                None => Ok(None),
            },
            Some(_) => Err(Sacrilege::IncorrectUsage(Command::HGET)),
            None => Ok(None),
        }
    }

    pub fn hmget(&mut self, key: Vec<u8>, fields: Vec<Vec<u8>>, now: u64) -> (result: Result<Option<Vec<Option<Vec<u8>>>>, Sacrilege>)
        requires
            old(self).wf(),
        ensures
            final(self).wf(),
            final(self)@ == old(self)@,
            agrees(result, spec_hmget(old(self)@, key@, key_views(fields@), now)),
    {
        match self.get_valid_value(&key, now) {
            Some(Value::Hash(map)) => {
                let ghost m = hash_view(map@);
                let ghost fs = key_views(fields@);
                let mut values: Vec<Option<Vec<u8>>> = Vec::new();
                let mut i: usize = 0;
                while i < fields.len()
                    invariant
                        map.wf(),
                        m == hash_view(map@),
                        fs == key_views(fields@),
                        i <= fields@.len(),
                        values@.len() == i,
                        forall|j: int| 0 <= j < i ==> (#[trigger] values@[j]).deep_view() == field_of(m, fs[j]),
                    decreases fields@.len() - i,
                {
                    let found = match map.get(&fields[i]) {
                        Some(v) => Some(copy_bytes(v)),
                        None => None,
                    };
                    values.push(found);
                    i += 1;
                }
                assert(values.deep_view() =~= fs.map_values(|f: Seq<u8>| field_of(m, f)));
                Ok(Some(values))
            },
            Some(_) => Err(Sacrilege::IncorrectUsage(Command::HMGET)),
            None => {
                let ghost fs = key_views(fields@);
                let mut values: Vec<Option<Vec<u8>>> = Vec::new();
                let mut i: usize = 0;
                while i < fields.len()
                    invariant
                        fs == key_views(fields@),
                        i <= fields@.len(),
                        values@.len() == i,
                        forall|j: int| 0 <= j < i ==> (#[trigger] values@[j]) is None,
                    decreases fields@.len() - i,
                {
                    values.push(None);
                    i += 1;
                }
                assert(values.deep_view() =~= fs.map_values(|f: Seq<u8>| None::<Seq<u8>>));
                Ok(Some(values))
            },
        }
    }

    pub fn hdel(&mut self, key: Vec<u8>, fields: Vec<Vec<u8>>, now: u64) -> (result: Result<u32, Sacrilege>)
        requires
            old(self).wf(),
            fields@.len() <= u32::MAX,
        ensures
            final(self).wf(),
            (final(self)@, result) == spec_hdel(old(self)@, key@, key_views(fields@), now),
    {
        match self.get_mut_valid_value(&key, now) {
            Some(at) => {
                let (value, expiry) = self.take_at(at);
                match value {
                    Value::Hash(mut map) => {
                        let ghost fs = key_views(fields@);
                        let ghost m0 = hash_view(map@);
                        let mut amount_of_deleted_values: u32 = 0;
                        let mut i: usize = 0;
                        assert(fs.take(0) =~= Seq::<Seq<u8>>::empty());
                        while i < fields.len()
                            invariant
                                map.wf(),
                                i <= fields@.len(),
                                fields@.len() <= u32::MAX,
                                fs == key_views(fields@),
                                amount_of_deleted_values <= i,
                                (hash_view(map@), amount_of_deleted_values as nat) == drop_fields(m0, fs.take(i as int)),
                            decreases fields@.len() - i,
                        {
                            assert(fs.take(i + 1).drop_last() =~= fs.take(i as int));
                            let ghost before = map@;
                            if map.remove(&fields[i]).is_some() {
                                amount_of_deleted_values += 1;
                            }
                            assert(hash_view(map@) =~= hash_view(before).remove(fs[i as int]));
                            i += 1;
                        }
                        assert(fs.take(fields@.len() as int) =~= fs);
                        let ghost rest = hash_view(map@);
                        if map.len() == 0 {
                            proof {
                                map.lemma_layout();
                                assert(rest =~= Map::<Seq<u8>, Seq<u8>>::empty());
                            }
                            self.discard_at(at);
                            assert(self@ =~= old(self)@.remove(key@));
                        } else {
                            proof {
                                map.lemma_layout();
                                let k0 = map.key_seq()[0];
                                assert(rest.contains_key(k0));
                                assert(rest != Map::<Seq<u8>, Seq<u8>>::empty());
                            }
                            self.put_at(at, (Value::Hash(map), expiry));
                            assert(self@ =~= old(self)@.insert(key@, (Datum::Hash(rest), expiry)));
                        }
                        Ok(amount_of_deleted_values)
                    },
                    other => {
                        self.put_at(at, (other, expiry));
                        assert(self@ =~= old(self)@);
                        Err(Sacrilege::IncorrectUsage(Command::HDEL))
                    },
                }
            },
            None => Ok(0),
        }
    }

    pub fn hexists(&mut self, key: Vec<u8>, field: Vec<u8>, now: u64) -> (result: Result<u32, Sacrilege>)
        requires
            old(self).wf(),
        ensures
            final(self).wf(),
            final(self)@ == old(self)@,
            result == spec_hexists(old(self)@, key@, field@, now),
    {
        match self.get_valid_value(&key, now) {
            Some(Value::Hash(map)) => {
                if map.get(&field).is_some() {
                    Ok(1)
                } else {
                    Ok(0)
                }
            },
            Some(_) => Err(Sacrilege::IncorrectUsage(Command::HEXISTS)),
            None => Ok(0),
        }
    }

    pub fn hlen(&mut self, key: Vec<u8>, now: u64) -> (result: Result<usize, Sacrilege>)
        requires
            old(self).wf(),
        ensures
            final(self).wf(),
            final(self)@ == old(self)@,
            result == spec_hlen(old(self)@, key@, now),
    {
        match self.get_valid_value(&key, now) {
            Some(Value::Hash(map)) => {
                assert(hash_view(map@).dom() =~= map@.dom());
                Ok(map.len())
            },
            Some(_) => Err(Sacrilege::IncorrectUsage(Command::HLEN)),
            None => Ok(0),
        }
    }

    pub fn hgetall(&mut self, key: Vec<u8>, now: u64) -> (result: Result<Option<Vec<Option<Vec<u8>>>>, Sacrilege>)
        requires
            old(self).wf(),
        ensures
            final(self).wf(),
            final(self)@ == old(self)@,
            match live(old(self)@, key@, now) {
                Some(Datum::Hash(m)) => result matches Ok(Some(listing)) && enumerates_fields(listing.deep_view(), m),
                Some(_) => result == Err::<Option<Vec<Option<Vec<u8>>>>, Sacrilege>(Sacrilege::IncorrectUsage(Command::HGETALL)),
                None => result matches Ok(Some(listing)) && listing@.len() == 0,
            },
    {
        match self.get_valid_value(&key, now) {
            Some(Value::Hash(map)) => {
                let ghost m = hash_view(map@);
                proof {
                    map.lemma_layout();
                }
                let mut result: Vec<Option<Vec<u8>>> = Vec::new();
                let n = map.len();
                let mut i: usize = 0;
                while i < n
                    invariant
                        map.wf(),
                        m == hash_view(map@),
                        n == map.key_seq().len(),
                        i <= n,
                        result@.len() == 2 * i,
                        forall|j: int| 0 <= j < i ==> (#[trigger] result@[2 * j]).deep_view() == Some(map.key_seq()[j])
                            && result@[2 * j + 1].deep_view() == Some(m[map.key_seq()[j]]),
                    decreases n - i,
                {
                    proof {
                        map.lemma_layout();
                    }
                    let field = copy_bytes(map.key_at(i));
                    let value = copy_bytes(map.value_at(i));
                    result.push(Some(field));
                    result.push(Some(value));
                    proof {
                        assert(result@[2 * i as int].deep_view() == Some(map.key_seq()[i as int]));
                        assert(map@.contains_key(map.key_seq()[i as int]));
                        assert(map.val_seq()[i as int]@ == m[map.key_seq()[i as int]]);
                    }
                    i += 1;
                }
                proof {
                    map.lemma_layout();
                    let order = map.key_seq();
                    let listing = result.deep_view();
                    assert(order.to_set() == m.dom());
                    assert forall|j: int| 0 <= j < order.len() implies listing[2 * j] == Some(#[trigger] order[j])
                        && listing[2 * j + 1] == Some(m[order[j]]) by {
                        assert(result@[2 * j].deep_view() == Some(order[j]));
                    }
                }
                Ok(Some(result))
            },
            Some(_) => Err(Sacrilege::IncorrectUsage(Command::HGETALL)),
            None => Ok(Some(Vec::new())),
        }
    }

    /// Removes the entry at `i`.
    fn discard_at(&mut self, i: usize)
        requires
            old(self).wf(),
            i < old(self).entries.key_seq().len(),
        ensures
            final(self).wf(),
            final(self)@ == old(self)@.remove(old(self).entries.key_seq()[i as int]),
    {
        let _ = self.entries.remove_at(i);
        proof {
            assert(self@ =~= old(self)@.remove(old(self).entries.key_seq()[i as int]));
        }
    }

    /// Pushes copies of `elements`, in order, onto the front of `list`.
    fn push_all_front(list: &mut VecDeque<Vec<u8>>, elements: &Vec<Vec<u8>>)
        ensures
            final(list).deep_view() == key_views(elements@).reverse() + old(list).deep_view(),
    {
        let ghost es = key_views(elements@);
        let mut j: usize = 0;
        assert(es.take(0).reverse() + old(list).deep_view() =~= old(list).deep_view());
        while j < elements.len()
            invariant
                j <= elements@.len(),
                es == key_views(elements@),
                list.deep_view() == es.take(j as int).reverse() + old(list).deep_view(),
            decreases elements@.len() - j,
        {
            let ghost before = list.deep_view();
            list.push_front(copy_bytes(&elements[j]));
            assert(list.deep_view() =~= seq![es[j as int]] + before);
            assert(es.take(j + 1).reverse() =~= seq![es[j as int]] + es.take(j as int).reverse());
            j += 1;
        }
        assert(es.take(elements@.len() as int) =~= es);
    }

    /// Pushes copies of `elements`, in order, onto the back of `list`.
    fn push_all_back(list: &mut VecDeque<Vec<u8>>, elements: &Vec<Vec<u8>>)
        ensures
            final(list).deep_view() == old(list).deep_view() + key_views(elements@),
    {
        let ghost es = key_views(elements@);
        let mut j: usize = 0;
        assert(old(list).deep_view() + es.take(0) =~= old(list).deep_view());
        while j < elements.len()
            invariant
                j <= elements@.len(),
                es == key_views(elements@),
                list.deep_view() == old(list).deep_view() + es.take(j as int),
            decreases elements@.len() - j,
        {
            let ghost before = list.deep_view();
            list.push_back(copy_bytes(&elements[j]));
            assert(list.deep_view() =~= before.push(es[j as int]));
            assert(old(list).deep_view() + es.take(j + 1) =~= (old(list).deep_view() + es.take(j as int)).push(es[j as int]));
            j += 1;
        }
        assert(es.take(elements@.len() as int) =~= es);
    }

    pub fn lpush(&mut self, key: Vec<u8>, elements: Vec<Vec<u8>>, now: u64) -> (result: Result<usize, Sacrilege>)
        requires
            old(self).wf(),
        ensures
            final(self).wf(),
            (final(self)@, result) == spec_lpush(old(self)@, key@, key_views(elements@), now),
    {
        match self.get_mut_valid_value(&key, now) {
            Some(i) => {
                let (value, expiry) = self.take_at(i);
                match value {
                    Value::List(mut list) => {
                        let ghost l0 = list.deep_view();
                        Self::push_all_front(&mut list, &elements);
                        let n = list.len();
                        let ghost l = list.deep_view();
                        assert(l.len() == list@.len());
                        assert(n == l.len());
                        assert(l.len() == key_views(elements@).len() + l0.len());
                        assert(live(old(self)@, key@, now) == Some(Datum::List(l0)));
                        assert(old(self)@[key@].1 == expiry);
                        self.put_at(i, (Value::List(list), expiry));
                        proof {
                            assert(self@ =~= old(self)@.insert(key@, (Datum::List(l), expiry)));
                        }
                        Ok(n)
                    },
                    other => {
                        self.put_at(i, (other, expiry));
                        assert(self@ =~= old(self)@);
                        Err(Sacrilege::IncorrectUsage(Command::LPUSH))
                    },
                }
            },
            None => {
                let elements_len = elements.len();
                let mut list: VecDeque<Vec<u8>> = VecDeque::new();
                assert(list.deep_view() =~= Seq::<Seq<u8>>::empty());
                Self::push_all_front(&mut list, &elements);
                assert(list.deep_view() =~= key_views(elements@).reverse());
                self.put(key, (Value::List(list), None));
                Ok(elements_len)
            },
        }
    }

    pub fn rpush(&mut self, key: Vec<u8>, elements: Vec<Vec<u8>>, now: u64) -> (result: Result<usize, Sacrilege>)
        requires
            old(self).wf(),
        ensures
            final(self).wf(),
            (final(self)@, result) == spec_rpush(old(self)@, key@, key_views(elements@), now),
    {
        match self.get_mut_valid_value(&key, now) {
            Some(i) => {
                let (value, expiry) = self.take_at(i);
                match value {
                    Value::List(mut list) => {
                        let ghost l0 = list.deep_view();
                        Self::push_all_back(&mut list, &elements);
                        let n = list.len();
                        let ghost l = list.deep_view();
                        assert(l.len() == list@.len());
                        assert(n == l.len());
                        assert(l.len() == key_views(elements@).len() + l0.len());
                        assert(live(old(self)@, key@, now) == Some(Datum::List(l0)));
                        assert(old(self)@[key@].1 == expiry);
                        self.put_at(i, (Value::List(list), expiry));
                        proof {
                            assert(self@ =~= old(self)@.insert(key@, (Datum::List(l), expiry)));
                        }
                        Ok(n)
                    },
                    other => {
                        self.put_at(i, (other, expiry));
                        assert(self@ =~= old(self)@);
                        Err(Sacrilege::IncorrectUsage(Command::RPUSH))
                    },
                }
            },
            None => {
                let elements_len = elements.len();
                let mut list: VecDeque<Vec<u8>> = VecDeque::new();
                assert(list.deep_view() =~= Seq::<Seq<u8>>::empty());
                Self::push_all_back(&mut list, &elements);
                assert(list.deep_view() =~= key_views(elements@));
                self.put(key, (Value::List(list), None));
                Ok(elements_len)
            },
        }
    }

    /// Pops up to `count` elements (one when `count` is `None`) from the
    /// front or the back of the list under `key`.
    fn pop_elements(&mut self, key: Vec<u8>, from_back: bool, count: Option<usize>, command: Command, now: u64) -> (result: Result<Option<Vec<Option<Vec<u8>>>>, Sacrilege>)
        requires
            old(self).wf(),
        ensures
            final(self).wf(),
            final(self)@ == spec_pop(old(self)@, key@, from_back, match count { Some(n) => Some(n as nat), None => None }, command, now).0,
            agrees(result, spec_pop(old(self)@, key@, from_back, match count { Some(n) => Some(n as nat), None => None }, command, now).1),
    {
        match self.entries.find(&key) {
            None => Ok(None),
            Some(i) => {
                let (value, expiry) = self.take_at(i);
                let expired = match expiry {
                    Some(e) => e < now,
                    None => false,
                };
                if expired {
                    self.discard_at(i);
                    assert(self@ =~= old(self)@.remove(key@));
                    return Ok(None);
                }
                match value {
                    Value::List(mut list) => {
                        let ghost l = list.deep_view();
                        let limit: usize = match count {
                            Some(n) => n,
                            None => 1,
                        };
                        let k: usize = if limit < list.len() { limit } else { list.len() };
                        let mut popped: Vec<Option<Vec<u8>>> = Vec::new();
                        let mut j: usize = 0;
                        assert(l.skip(0) =~= l);
                        assert(l.take(l.len() as int) =~= l);
                        while j < k
                            invariant
                                j <= k <= l.len(),
                                popped@.len() == j,
                                from_back ==> list.deep_view() == l.take(l.len() - j),
                                from_back ==> popped.deep_view() == present(l.skip(l.len() - j).reverse()),
                                !from_back ==> list.deep_view() == l.skip(j as int),
                                !from_back ==> popped.deep_view() == present(l.take(j as int)),
                            decreases k - j,
                        {
                            let ghost before = list.deep_view();
                            let ghost popped_before = popped.deep_view();
                            if from_back {
                                let ghost list_before = list@;
                                assert(list_before.len() == before.len());
                                let next = list.pop_back();
                                match next {
                                    Some(x) => {
                                        assert(x == list_before[list_before.len() - 1]);
                                        assert(before[before.len() - 1] == list_before[list_before.len() - 1].deep_view());
                                        assert(x.deep_view() == l[l.len() - (j + 1)]);
                                        popped.push(Some(x));
                                    },
                                    None => {
                                        assert(false);
                                    },
                                }
                                proof {
                                    assert(list.deep_view() =~= l.take(l.len() - (j + 1)));
                                    assert(l.skip(l.len() - (j + 1)).reverse() =~= l.skip(l.len() - j).reverse().push(l[l.len() - (j + 1)]));
                                    assert(popped.deep_view() =~= popped_before.push(Some(l[l.len() - (j + 1)])));
                                }
                            } else {
                                let ghost list_before = list@;
                                assert(list_before.len() == before.len());
                                assert(before.len() > 0);
                                let next = list.pop_front();
                                match next {
                                    Some(x) => {
                                        assert(x == list_before[0]);
                                        assert(before[0] == list_before[0].deep_view());
                                        assert(x.deep_view() == l[j as int]);
                                        popped.push(Some(x));
                                    },
                                    None => {
                                        assert(false);
                                    },
                                }
                                proof {
                                    assert(list.deep_view() =~= before.skip(1));
                                    assert(before.skip(1) =~= l.skip(j + 1));
                                    assert(l.take(j + 1) =~= l.take(j as int).push(l[j as int]));
                                    assert(popped.deep_view() =~= popped_before.push(Some(l[j as int])));
                                }
                            }
                            j += 1;
                        }
                        let ghost rest = list.deep_view();
                        if list.len() == 0 {
                            self.discard_at(i);
                            assert(self@ =~= old(self)@.remove(key@));
                        } else {
                            self.put_at(i, (Value::List(list), expiry));
                            assert(self@ =~= old(self)@.insert(key@, (Datum::List(rest), expiry)));
                        }
                        if count.is_none() && k == 0 {
                            Ok(None)
                        } else {
                            Ok(Some(popped))
                        }
                    },
                    other => {
                        self.put_at(i, (other, expiry));
                        assert(self@ =~= old(self)@);
                        Err(Sacrilege::IncorrectUsage(command))
                    },
                }
            },
        }
    }

    /// The one element of a single pop, if there was one.
    fn single(popped: Result<Option<Vec<Option<Vec<u8>>>>, Sacrilege>) -> (result: Result<Option<Vec<u8>>, Sacrilege>)
        requires
            popped matches Ok(Some(p)) ==> p@.len() == 1,
        ensures
            match popped {
                Ok(Some(p)) => result matches Ok(x) && x.deep_view() == p.deep_view()[0],
                Ok(None) => result matches Ok(None),
                Err(e) => result == Err::<Option<Vec<u8>>, Sacrilege>(e),
            },
    {
        match popped {
            Ok(Some(mut p)) => {
                let ghost pv = p.deep_view();
                match p.pop() {
                    Some(x) => Ok(x),
                    None => Ok(None),
                }
            },
            Ok(None) => Ok(None),
            Err(e) => Err(e),
        }
    }

    pub fn lpop(&mut self, key: Vec<u8>, now: u64) -> (result: Result<Option<Vec<u8>>, Sacrilege>)
        requires
            old(self).wf(),
        ensures
            final(self).wf(),
            final(self)@ == spec_pop(old(self)@, key@, false, None, Command::LPOP, now).0,
            agrees(result, first_popped(spec_pop(old(self)@, key@, false, None, Command::LPOP, now).1)),
    {
        let popped = self.pop_elements(key, false, None, Command::LPOP, now);
        proof {
            if let Ok(Some(p)) = &popped {
                assert(p.deep_view().len() == p@.len());
            }
        }
        Self::single(popped)
    }

    pub fn rpop(&mut self, key: Vec<u8>, now: u64) -> (result: Result<Option<Vec<u8>>, Sacrilege>)
        requires
            old(self).wf(),
        ensures
            final(self).wf(),
            final(self)@ == spec_pop(old(self)@, key@, true, None, Command::RPOP, now).0,
            agrees(result, first_popped(spec_pop(old(self)@, key@, true, None, Command::RPOP, now).1)),
    {
        let popped = self.pop_elements(key, true, None, Command::RPOP, now);
        proof {
            if let Ok(Some(p)) = &popped {
                assert(p.deep_view().len() == p@.len());
            }
        }
        Self::single(popped)
    }

    pub fn lpop_m(&mut self, key: Vec<u8>, count: usize, now: u64) -> (result: Result<Option<Vec<Option<Vec<u8>>>>, Sacrilege>)
        requires
            old(self).wf(),
        ensures
            final(self).wf(),
            final(self)@ == spec_pop(old(self)@, key@, false, Some(count as nat), Command::LPOP, now).0,
            agrees(result, spec_pop(old(self)@, key@, false, Some(count as nat), Command::LPOP, now).1),
    {
        self.pop_elements(key, false, Some(count), Command::LPOP, now)
    }

    pub fn rpop_m(&mut self, key: Vec<u8>, count: usize, now: u64) -> (result: Result<Option<Vec<Option<Vec<u8>>>>, Sacrilege>)
        requires
            old(self).wf(),
        ensures
            final(self).wf(),
            final(self)@ == spec_pop(old(self)@, key@, true, Some(count as nat), Command::RPOP, now).0,
            agrees(result, spec_pop(old(self)@, key@, true, Some(count as nat), Command::RPOP, now).1),
    {
        self.pop_elements(key, true, Some(count), Command::RPOP, now)
    }

    pub fn llen(&self, key: Vec<u8>, now: u64) -> (result: Result<usize, Sacrilege>)
        requires
            self.wf(),
        ensures
            result == spec_llen(self@, key@, now),
    {
        match self.get_valid_value(&key, now) {
            Some(Value::List(list)) => Ok(list.len()),
            Some(_) => Err(Sacrilege::IncorrectUsage(Command::LLEN)),
            None => Ok(0),
        }
    }

    pub fn lrange(&self, key: Vec<u8>, starting_index: i32, ending_index: i32, now: u64) -> (result: Result<Option<Vec<Option<Vec<u8>>>>, Sacrilege>)
        requires
            self.wf(),
        ensures
            agrees(result, spec_lrange(self@, key@, starting_index as int, ending_index as int, now)),
    {
        match self.get_valid_value(&key, now) {
            Some(Value::List(list)) => {
                let ghost l = list.deep_view();
                let n = list.len();
                assert(l.len() == n);
                let list_len = n as i128;
                let mut s = starting_index as i128;
                let mut e = ending_index as i128;
                if s < 0 {
                    s = s + list_len;
                }
                if e < 0 {
                    e = e + list_len;
                }
                if s < 0 {
                    s = 0;
                }
                if e >= list_len {
                    e = list_len - 1;
                }
                assert((s as int, e as int) == range_bounds(l.len() as int, starting_index as int, ending_index as int));
                let mut result: Vec<Option<Vec<u8>>> = Vec::new();
                if s <= e && s < list_len {
                    let first = s as usize;
                    let last = e as usize;
                    let mut j: usize = first;
                    while j <= last
                        invariant
                            first <= j <= last + 1,
                            last < l.len(),
                            l.len() <= usize::MAX,
                            l == list.deep_view(),
                            result.deep_view() == present(l.subrange(first as int, j as int)),
                        decreases last + 1 - j,
                    {
                        let ghost before = result.deep_view();
                        result.push(Some(copy_bytes(&list[j])));
                        assert(result.deep_view() =~= before.push(Some(l[j as int])));
                        assert(present(l.subrange(first as int, j + 1)) =~= present(l.subrange(first as int, j as int)).push(Some(l[j as int])));
                        j += 1;
                    }
                } else {
                    assert(result.deep_view() =~= present(Seq::<Seq<u8>>::empty()));
                }
                Ok(Some(result))
            },
            Some(_) => Err(Sacrilege::IncorrectUsage(Command::LRANGE)),
            None => {
                let result: Vec<Option<Vec<u8>>> = Vec::new();
                assert(result.deep_view() =~= Seq::<Option<Seq<u8>>>::empty());
                Ok(Some(result))
            },
        }
    }

    pub fn lindex(&self, key: Vec<u8>, index: i32, now: u64) -> (result: Result<Option<Vec<u8>>, Sacrilege>)
        requires
            self.wf(),
        ensures
            agrees(result, spec_lindex(self@, key@, index as int, now)),
    {
        match self.get_valid_value(&key, now) {
            Some(Value::List(list)) => {
                let list_len = list.len() as i128;
                let mut i = index as i128;
                if i < 0 {
                    i = i + list_len;
                }
                if i < 0 || i >= list_len {
                    return Ok(None);
                }
                Ok(Some(copy_bytes(&list[i as usize])))
            },
            Some(_) => Err(Sacrilege::IncorrectUsage(Command::LINDEX)),
            None => Ok(None),
        }
    }

    pub fn lset(&mut self, key: Vec<u8>, index: i32, element: Vec<u8>, now: u64) -> (result: Result<(), Sacrilege>)
        requires
            old(self).wf(),
        ensures
            final(self).wf(),
            (final(self)@, result) == spec_lset(old(self)@, key@, index as int, element@, now),
    {
        match self.get_mut_valid_value(&key, now) {
            Some(at) => {
                let (value, expiry) = self.take_at(at);
                match value {
                    Value::List(mut list) => {
                        let ghost l = list.deep_view();
                        let list_len = list.len() as i128;
                        let mut i = index as i128;
                        if i < 0 {
                            i = i + list_len;
                        }
                        if i < 0 || i >= list_len {
                            self.put_at(at, (Value::List(list), expiry));
                            assert(self@ =~= old(self)@);
                            return Err(Sacrilege::IncorrectUsage(Command::LSET));
                        }
                        let position = i as usize;
                        let ghost e = element@;
                        let _ = list.remove(position);
                        list.insert(position, element);
                        assert(list.deep_view() =~= l.update(position as int, e));
                        self.put_at(at, (Value::List(list), expiry));
                        assert(self@ =~= old(self)@.insert(key@, (Datum::List(l.update(position as int, e)), expiry)));
                        Ok(())
                    },
                    other => {
                        self.put_at(at, (other, expiry));
                        assert(self@ =~= old(self)@);
                        Err(Sacrilege::IncorrectUsage(Command::LSET))
                    },
                }
            },
            None => Err(Sacrilege::IncorrectUsage(Command::LSET)),
        }
    }

    /// Removes the first `count` occurrences of `element` from `list`.
    fn remove_from_head(list: &mut VecDeque<Vec<u8>>, count: u32, element: &Vec<u8>)
        ensures
            final(list).deep_view() == drop_first_matches(old(list).deep_view(), element@, count as nat),
    {
        let ghost e = element@;
        let ghost target = drop_first_matches(old(list).deep_view(), e, count as nat);
        let mut remaining = count;
        let mut idx: usize = 0;
        assert(list.deep_view().take(0) + list.deep_view().skip(0) =~= list.deep_view());
        assert(list.deep_view().skip(0) =~= list.deep_view());
        while idx < list.len() && remaining > 0
            invariant
                idx <= list@.len(),
                e == element@,
                target == list.deep_view().take(idx as int) + drop_first_matches(list.deep_view().skip(idx as int), e, remaining as nat),
            decreases list@.len() - idx, remaining,
        {
            let ghost cur = list.deep_view();
            let ghost tail = cur.skip(idx as int);
            assert(tail[0] == cur[idx as int]);
            if crate::byte_map::bytes_equal(&list[idx], element) {
                let _ = list.remove(idx);
                proof {
                    assert(list.deep_view() =~= cur.take(idx as int) + cur.skip(idx + 1));
                    assert(list.deep_view().take(idx as int) =~= cur.take(idx as int));
                    assert(list.deep_view().skip(idx as int) =~= tail.drop_first());
                }
                remaining = remaining - 1;
            } else {
                proof {
                    assert(tail.drop_first() =~= cur.skip(idx + 1));
                    assert(cur.take(idx + 1) =~= cur.take(idx as int) + seq![tail[0]]);
                    assert(cur.take(idx as int) + (seq![tail[0]] + drop_first_matches(tail.drop_first(), e, remaining as nat)) =~= cur.take(idx + 1) + drop_first_matches(cur.skip(idx + 1), e, remaining as nat));
                }
                idx += 1;
            }
        }
        proof {
            let cur = list.deep_view();
            assert(drop_first_matches(cur.skip(idx as int), e, remaining as nat) == cur.skip(idx as int));
            assert(cur.take(idx as int) + cur.skip(idx as int) =~= cur);
        }
    }

    /// Removes the last `count` occurrences of `element` from `list`.
    fn remove_from_tail(list: &mut VecDeque<Vec<u8>>, count: u32, element: &Vec<u8>)
        ensures
            final(list).deep_view() == drop_last_matches(old(list).deep_view(), element@, count as nat),
    {
        let ghost e = element@;
        let ghost target = drop_last_matches(old(list).deep_view(), e, count as nat);
        let mut remaining = count;
        let mut end: usize = list.len();
        assert(list.deep_view().take(end as int) + list.deep_view().skip(end as int) =~= list.deep_view());
        assert(list.deep_view().take(end as int) =~= list.deep_view());
        while end > 0 && remaining > 0
            invariant
                end <= list@.len(),
                e == element@,
                target == drop_last_matches(list.deep_view().take(end as int), e, remaining as nat) + list.deep_view().skip(end as int),
            decreases end,
        {
            let ghost cur = list.deep_view();
            let ghost head = cur.take(end as int);
            assert(head.last() == cur[end - 1]);
            if crate::byte_map::bytes_equal(&list[end - 1], element) {
                let _ = list.remove(end - 1);
                proof {
                    assert(list.deep_view() =~= cur.take(end - 1) + cur.skip(end as int));
                    assert(list.deep_view().take(end - 1) =~= head.drop_last());
                    assert(list.deep_view().skip(end - 1) =~= cur.skip(end as int));
                }
                remaining = remaining - 1;
            } else {
                proof {
                    assert(head.drop_last() =~= cur.take(end - 1));
                    assert(cur.skip(end - 1) =~= seq![head.last()] + cur.skip(end as int));
                    assert(drop_last_matches(head.drop_last(), e, remaining as nat).push(head.last()) + cur.skip(end as int) =~= drop_last_matches(cur.take(end - 1), e, remaining as nat) + cur.skip(end - 1));
                }
            }
            end -= 1;
        }
        proof {
            let cur = list.deep_view();
            assert(drop_last_matches(cur.take(end as int), e, remaining as nat) == cur.take(end as int));
            assert(cur.take(end as int) + cur.skip(end as int) =~= cur);
        }
    }

    /// Removes every occurrence of `element` from `list`.
    fn remove_everywhere(list: &mut VecDeque<Vec<u8>>, element: &Vec<u8>)
        ensures
            final(list).deep_view() == without(old(list).deep_view(), element@),
    {
        let ghost l = list.deep_view();
        let mut kept: VecDeque<Vec<u8>> = VecDeque::new();
        let mut j: usize = 0;
        assert(kept.deep_view() =~= without(l.take(0), element@));
        while j < list.len()
            invariant
                j <= list@.len(),
                l == list.deep_view(),
                kept.deep_view() == without(l.take(j as int), element@),
            decreases list@.len() - j,
        {
            assert(l.take(j + 1).drop_last() =~= l.take(j as int));
            if !crate::byte_map::bytes_equal(&list[j], element) {
                let ghost before = kept.deep_view();
                kept.push_back(copy_bytes(&list[j]));
                assert(kept.deep_view() =~= before.push(l[j as int]));
            }
            j += 1;
        }
        assert(l.take(l.len() as int) =~= l);
        *list = kept;
    }

    pub fn lrem(&mut self, key: Vec<u8>, count: i32, element: Vec<u8>, now: u64) -> (result: Result<usize, Sacrilege>)
        requires
            old(self).wf(),
        ensures
            final(self).wf(),
            (final(self)@, result) == spec_lrem(old(self)@, key@, count as int, element@, now),
    {
        match self.get_mut_valid_value(&key, now) {
            Some(at) => {
                let (value, expiry) = self.take_at(at);
                match value {
                    Value::List(mut list) => {
                        let ghost l = list.deep_view();
                        let initial_len = list.len();
                        if count < 0 {
                            let k: u32 = if count == i32::MIN { 2147483648u32 } else { (-count) as u32 };
                            Self::remove_from_tail(&mut list, k, &element);
                        } else if count > 0 {
                            Self::remove_from_head(&mut list, count as u32, &element);
                        } else {
                            Self::remove_everywhere(&mut list, &element);
                        }
                        let ghost r = list.deep_view();
                        assert(r == removal(l, count as int, element@));
                        proof {
                            lemma_removal_shrinks(l, count as int, element@);
                        }
                        let removed = initial_len - list.len();
                        if list.len() == 0 {
                            self.discard_at(at);
                            assert(self@ =~= old(self)@.remove(key@));
                        } else {
                            self.put_at(at, (Value::List(list), expiry));
                            assert(self@ =~= old(self)@.insert(key@, (Datum::List(r), expiry)));
                        }
                        Ok(removed)
                    },
                    other => {
                        self.put_at(at, (other, expiry));
                        assert(self@ =~= old(self)@);
                        Err(Sacrilege::IncorrectUsage(Command::LREM))
                    },
                }
            },
            None => Ok(0),
        }
    }

    /// Adds copies of `values` to `set`, counting the new ones.
    fn add_members_into(set: &mut ByteMap<()>, values: &Vec<Vec<u8>>) -> (added: usize)
        requires
            old(set).wf(),
        ensures
            final(set).wf(),
            (final(set)@.dom(), added as nat) == add_members(old(set)@.dom(), key_views(values@)),
    {
        let ghost vs = key_views(values@);
        let mut added: usize = 0;
        let mut i: usize = 0;
        assert(vs.take(0) =~= Seq::<Seq<u8>>::empty());
        while i < values.len()
            invariant
                set.wf(),
                i <= values@.len(),
                vs == key_views(values@),
                added <= i,
                (set@.dom(), added as nat) == add_members(old(set)@.dom(), vs.take(i as int)),
            decreases values@.len() - i,
        {
            assert(vs.take(i + 1).drop_last() =~= vs.take(i as int));
            let ghost before = set@;
            let previous = set.insert(copy_bytes(&values[i]), ());
            assert(set@.dom() =~= before.dom().insert(vs[i as int]));
            if previous.is_none() {
                added += 1;
            }
            i += 1;
        }
        assert(vs.take(values@.len() as int) =~= vs);
        added
    }

    pub fn sadd(&mut self, key: Vec<u8>, values: Vec<Vec<u8>>, now: u64) -> (result: Result<usize, Sacrilege>)
        requires
            old(self).wf(),
        ensures
            final(self).wf(),
            (final(self)@, result) == spec_sadd(old(self)@, key@, key_views(values@), now),
    {
        match self.get_mut_valid_value(&key, now) {
            Some(i) => {
                let (value, expiry) = self.take_at(i);
                match value {
                    Value::Members(mut set) => {
                        let count = Self::add_members_into(&mut set, &values);
                        let ghost m = set@.dom();
                        self.put_at(i, (Value::Members(set), expiry));
                        assert(self@ =~= old(self)@.insert(key@, (Datum::Members(m), expiry)));
                        Ok(count)
                    },
                    other => {
                        self.put_at(i, (other, expiry));
                        assert(self@ =~= old(self)@);
                        Err(Sacrilege::IncorrectUsage(Command::SADD))
                    },
                }
            },
            None => {
                let mut set: ByteMap<()> = ByteMap::new();
                assert(set@.dom() =~= Set::<Seq<u8>>::empty());
                let count = Self::add_members_into(&mut set, &values);
                self.put(key, (Value::Members(set), None));
                Ok(count)
            },
        }
    }

    pub fn srem(&mut self, key: Vec<u8>, values: Vec<Vec<u8>>, now: u64) -> (result: Result<usize, Sacrilege>)
        requires
            old(self).wf(),
        ensures
            final(self).wf(),
            (final(self)@, result) == spec_srem(old(self)@, key@, key_views(values@), now),
    {
        match self.get_mut_valid_value(&key, now) {
            Some(at) => {
                let (value, expiry) = self.take_at(at);
                match value {
                    Value::Members(mut set) => {
                        let ghost vs = key_views(values@);
                        let ghost s0 = set@.dom();
                        let mut count: usize = 0;
                        let mut i: usize = 0;
                        assert(vs.take(0) =~= Seq::<Seq<u8>>::empty());
                        while i < values.len()
                            invariant
                                set.wf(),
                                i <= values@.len(),
                                vs == key_views(values@),
                                count <= i,
                                (set@.dom(), count as nat) == remove_members(s0, vs.take(i as int)),
                            decreases values@.len() - i,
                        {
                            assert(vs.take(i + 1).drop_last() =~= vs.take(i as int));
                            let ghost before = set@;
                            if set.remove(&values[i]).is_some() {
                                count += 1;
                            }
                            assert(set@.dom() =~= before.dom().remove(vs[i as int]));
                            i += 1;
                        }
                        assert(vs.take(values@.len() as int) =~= vs);
                        let ghost rest = set@.dom();
                        if set.len() == 0 {
                            proof {
                                set.lemma_layout();
                                assert(rest =~= Set::<Seq<u8>>::empty());
                            }
                            self.discard_at(at);
                            assert(self@ =~= old(self)@.remove(key@));
                        } else {
                            proof {
                                set.lemma_layout();
                                let k0 = set.key_seq()[0];
                                assert(rest.contains(k0));
                                assert(rest != Set::<Seq<u8>>::empty());
                            }
                            self.put_at(at, (Value::Members(set), expiry));
                            assert(self@ =~= old(self)@.insert(key@, (Datum::Members(rest), expiry)));
                        }
                        Ok(count)
                    },
                    other => {
                        self.put_at(at, (other, expiry));
                        assert(self@ =~= old(self)@);
                        Err(Sacrilege::IncorrectUsage(Command::SREM))
                    },
                }
            },
            None => Ok(0),
        }
    }

    pub fn sismember(&mut self, key: Vec<u8>, value: Vec<u8>, now: u64) -> (result: Result<usize, Sacrilege>)
        requires
            old(self).wf(),
        ensures
            final(self).wf(),
            final(self)@ == old(self)@,
            result == spec_sismember(old(self)@, key@, value@, now),
    {
        match self.get_valid_value(&key, now) {
            Some(Value::Members(set)) => {
                if set.get(&value).is_some() {
                    Ok(1)
                } else {
                    Ok(0)
                }
            },
            Some(_) => Err(Sacrilege::IncorrectUsage(Command::SREM)),
            None => Ok(0),
        }
    }

    pub fn smembers(&mut self, key: Vec<u8>, now: u64) -> (result: Result<Option<Vec<Option<Vec<u8>>>>, Sacrilege>)
        requires
            old(self).wf(),
        ensures
            final(self).wf(),
            final(self)@ == old(self)@,
            match live(old(self)@, key@, now) {
                Some(Datum::Members(s)) => result matches Ok(Some(listing)) && enumerates_members(listing.deep_view(), s),
                Some(_) => result == Err::<Option<Vec<Option<Vec<u8>>>>, Sacrilege>(Sacrilege::IncorrectUsage(Command::SMEMBERS)),
                None => result matches Ok(Some(listing)) && listing@.len() == 0,
            },
    {
        match self.get_valid_value(&key, now) {
            Some(Value::Members(set)) => {
                proof {
                    set.lemma_layout();
                }
                let mut result: Vec<Option<Vec<u8>>> = Vec::new();
                let n = set.len();
                let mut i: usize = 0;
                while i < n
                    invariant
                        set.wf(),
                        n == set.key_seq().len(),
                        i <= n,
                        result.deep_view() == present(set.key_seq().take(i as int)),
                    decreases n - i,
                {
                    let ghost before = result.deep_view();
                    result.push(Some(copy_bytes(set.key_at(i))));
                    assert(result.deep_view() =~= before.push(Some(set.key_seq()[i as int])));
                    assert(present(set.key_seq().take(i + 1)) =~= present(set.key_seq().take(i as int)).push(Some(set.key_seq()[i as int])));
                    i += 1;
                }
                proof {
                    set.lemma_layout();
                    assert(set.key_seq().take(n as int) =~= set.key_seq());
                    assert(set.key_seq().to_set() == set@.dom());
                }
                Ok(Some(result))
            },
            Some(_) => Err(Sacrilege::IncorrectUsage(Command::SMEMBERS)),
            None => Ok(Some(Vec::new())),
        }
    }

    pub fn expire(&mut self, key: Vec<u8>, expiry: u64, now: u64) -> (result: u32)
        requires
            old(self).wf(),
        ensures
            final(self).wf(),
            (final(self)@, result) == spec_expire(old(self)@, key@, expiry, now),
    {
        match self.entries.find(&key) {
            Some(i) => {
                let (value, existing_expiry) = self.take_at(i);
                if let Some(e) = existing_expiry {
                    if e < now {
                        self.discard_at(i);
                        assert(self@ =~= old(self)@.remove(key@));
                        return 0;
                    }
                }
                let ghost v = value@;
                self.put_at(i, (value, Some(expiry)));
                assert(self@ =~= old(self)@.insert(key@, (v, Some(expiry))));
                1
            },
            None => 0,
        }
    }

    pub fn ttl(&mut self, key: Vec<u8>, now: u64, nanos: u32) -> (result: i64)
        requires
            old(self).wf(),
        ensures
            final(self).wf(),
            (final(self)@, result) == spec_ttl(old(self)@, key@, now, nanos),
    {
        match self.entries.find(&key) {
            Some(i) => {
                let existing_expiry = self.entries.value_at(i).1;
                match existing_expiry {
                    Some(e) => {
                        if e < now || (e == now && nanos > 0) {
                            self.discard_at(i);
                            assert(self@ =~= old(self)@.remove(key@));
                            -2
                        } else if nanos > 0 {
                            (e - now - 1) as i64
                        } else {
                            (e - now) as i64
                        }
                    },
                    None => -1,
                }
            },
            None => -2,
        }
    }

    pub fn mset(&mut self, terms: Vec<Vec<u8>>)
        requires
            old(self).wf(),
        ensures
            final(self).wf(),
            final(self)@ == spec_mset(old(self)@, key_views(terms@)),
    {
        let ghost ts = key_views(terms@);
        let pairs = terms.len() / 2;
        let mut n: usize = 0;
        while n < pairs
            invariant
                self.wf(),
                pairs == terms@.len() / 2,
                2 * pairs <= terms.len(),
                n <= pairs,
                ts == key_views(terms@),
                self@ == spec_mset_pairs(old(self)@, ts, n as nat),
            decreases pairs - n,
        {
            let key = copy_bytes(&terms[2 * n]);
            let value = copy_bytes(&terms[2 * n + 1]);
            self.put(key, (Value::String(value), None));
            n += 1;
        }
    }

    pub fn mget(&self, keys: Vec<Vec<u8>>, now: u64) -> (result: Option<Vec<Option<Vec<u8>>>>)
        requires
            self.wf(),
        ensures
            result matches Some(values) && values.deep_view() == spec_mget(self@, key_views(keys@), now),
    {
        let ghost ks = key_views(keys@);
        let mut result: Vec<Option<Vec<u8>>> = Vec::new();
        let mut i: usize = 0;
        while i < keys.len()
            invariant
                self.wf(),
                i <= keys@.len(),
                ks == key_views(keys@),
                result.deep_view() == spec_mget(self@, ks.take(i as int), now),
            decreases keys@.len() - i,
        {
            let ghost before = result.deep_view();
            match self.get_valid_value(&keys[i], now) {
                Some(Value::String(value)) => {
                    result.push(Some(copy_bytes(value)));
                },
                _ => result.push(None),
            }
            assert(result.deep_view() =~= before.push(string_of(self@, ks[i as int], now)));
            assert(spec_mget(self@, ks.take(i + 1), now) =~= spec_mget(self@, ks.take(i as int), now).push(string_of(self@, ks[i as int], now)));
            i += 1;
        }
        assert(ks.take(keys@.len() as int) =~= ks);
        Some(result)
    }

    /// A plain copy of a stored value.
    fn to_plain(value: &Value) -> (plain: Plain)
        requires
            value.wf(),
        ensures
            plain_holds(plain, value@),
    {
        match value {
            Value::String(v) => Plain::String(copy_bytes(v)),
            Value::List(list) => {
                let mut items: Vec<Vec<u8>> = Vec::new();
                let mut i: usize = 0;
                while i < list.len()
                    invariant
                        i <= list@.len(),
                        key_views(items@) == list.deep_view().take(i as int),
                    decreases list@.len() - i,
                {
                    let ghost before = key_views(items@);
                    items.push(copy_bytes(&list[i]));
                    assert(key_views(items@) =~= before.push(list.deep_view()[i as int]));
                    assert(key_views(items@) =~= list.deep_view().take(i + 1));
                    i += 1;
                }
                assert(list.deep_view().take(list@.len() as int) =~= list.deep_view());
                Plain::List(items)
            },
            Value::Hash(map) => {
                proof {
                    map.lemma_layout();
                }
                let mut pairs: Vec<(Vec<u8>, Vec<u8>)> = Vec::new();
                let n = map.len();
                let mut i: usize = 0;
                while i < n
                    invariant
                        map.wf(),
                        n == map.key_seq().len(),
                        i <= n,
                        pair_views(pairs@).map_values(|f: (Seq<u8>, Seq<u8>)| f.0) == map.key_seq().take(i as int),
                        forall|j: int| 0 <= j < i ==> #[trigger] pair_views(pairs@)[j].1 == map.val_seq()[j]@,
                        pairs@.len() == i,
                    decreases n - i,
                {
                    let ghost before = pair_views(pairs@);
                    pairs.push((copy_bytes(map.key_at(i)), copy_bytes(map.value_at(i))));
                    proof {
                        assert(pair_views(pairs@) =~= before.push((map.key_seq()[i as int], map.val_seq()[i as int]@)));
                        assert(pair_views(pairs@).map_values(|f: (Seq<u8>, Seq<u8>)| f.0) =~= map.key_seq().take(i + 1));
                    }
                    i += 1;
                }
                proof {
                    map.lemma_layout();
                    let m = hash_view(map@);
                    assert(map.key_seq().take(n as int) =~= map.key_seq());
                    assert(m.dom() =~= map@.dom());
                    assert forall|j: int| 0 <= j < pairs@.len() implies #[trigger] pair_views(pairs@)[j].1 == m[pair_views(pairs@)[j].0] by {
                        assert(pair_views(pairs@).map_values(|f: (Seq<u8>, Seq<u8>)| f.0)[j] == map.key_seq()[j]);
                        assert(map@.contains_key(map.key_seq()[j]));
                    }
                }
                Plain::Hash(pairs)
            },
            Value::Members(set) => {
                proof {
                    set.lemma_layout();
                }
                let mut members: Vec<Vec<u8>> = Vec::new();
                let n = set.len();
                let mut i: usize = 0;
                while i < n
                    invariant
                        set.wf(),
                        n == set.key_seq().len(),
                        i <= n,
                        key_views(members@) == set.key_seq().take(i as int),
                    decreases n - i,
                {
                    let ghost before = key_views(members@);
                    members.push(copy_bytes(set.key_at(i)));
                    assert(key_views(members@) =~= before.push(set.key_seq()[i as int]));
                    assert(key_views(members@) =~= set.key_seq().take(i + 1));
                    i += 1;
                }
                proof {
                    set.lemma_layout();
                    assert(set.key_seq().take(n as int) =~= set.key_seq());
                }
                Plain::Members(members)
            },
        }
    }

    /// Every entry, in plain collections, each key once.
    pub fn export(&self) -> (entries: Vec<(Vec<u8>, Plain, Option<u64>)>)
        requires
            self.wf(),
        ensures
            snapshot_of(entries@, self@),
    {
        proof {
            self.entries.lemma_layout();
        }
        let mut entries: Vec<(Vec<u8>, Plain, Option<u64>)> = Vec::new();
        let n = self.entries.len();
        let mut i: usize = 0;
        while i < n
            invariant
                self.wf(),
                n == self.entries.key_seq().len(),
                i <= n,
                entry_keys(entries@) == self.entries.key_seq().take(i as int),
                forall|j: int| 0 <= j < i ==> {
                    let e = #[trigger] entries@[j];
                    &&& plain_holds(e.1, self@[e.0@].0)
                    &&& e.2 == self@[e.0@].1
                },
            decreases n - i,
        {
            proof {
                self.entries.lemma_layout();
                assert(self.entries@.contains_key(self.entries.key_seq()[i as int]));
            }
            let key = copy_bytes(self.entries.key_at(i));
            let entry = self.entries.value_at(i);
            let plain = Self::to_plain(&entry.0);
            let ghost before = entry_keys(entries@);
            entries.push((key, plain, entry.1));
            proof {
                assert(entry_keys(entries@) =~= before.push(self.entries.key_seq()[i as int]));
                assert(entry_keys(entries@) =~= self.entries.key_seq().take(i + 1));
            }
            i += 1;
        }
        proof {
            self.entries.lemma_layout();
            assert(self.entries.key_seq().take(n as int) =~= self.entries.key_seq());
            assert(self@.dom() =~= self.entries@.dom());
        }
        entries
    }

    /// A stored value built from a plain one.
    fn from_plain(plain: &Plain) -> (value: Value)
        ensures
            value.wf(),
            value@ == plain_datum(*plain),
    {
        match plain {
            Plain::String(v) => Value::String(copy_bytes(v)),
            Plain::List(items) => {
                let mut list: VecDeque<Vec<u8>> = VecDeque::new();
                assert(list.deep_view() =~= Seq::<Seq<u8>>::empty());
                Self::push_all_back(&mut list, items);
                assert(list.deep_view() =~= key_views(items@));
                Value::List(list)
            },
            Plain::Hash(pairs) => {
                let mut map: ByteMap<Vec<u8>> = ByteMap::new();
                assert(hash_view(map@) =~= Map::<Seq<u8>, Seq<u8>>::empty());
                if pairs.len() <= u32::MAX as usize {
                    let _ = Self::put_fields_into(&mut map, pairs);
                } else {
                    let ghost ps = pair_views(pairs@);
                    let mut i: usize = 0;
                    assert(ps.take(0) =~= Seq::<(Seq<u8>, Seq<u8>)>::empty());
                    while i < pairs.len()
                        invariant
                            map.wf(),
                            i <= pairs@.len(),
                            ps == pair_views(pairs@),
                            hash_view(map@) == put_fields(Map::empty(), ps.take(i as int)).0,
                        decreases pairs@.len() - i,
                    {
                        assert(ps.take(i + 1).drop_last() =~= ps.take(i as int));
                        let ghost before = map@;
                        let _ = map.insert(copy_bytes(&pairs[i].0), copy_bytes(&pairs[i].1));
                        assert(hash_view(map@) =~= hash_view(before).insert(ps[i as int].0, ps[i as int].1));
                        i += 1;
                    }
                    assert(ps.take(pairs@.len() as int) =~= ps);
                }
                Value::Hash(map)
            },
            Plain::Members(members) => {
                let mut set: ByteMap<()> = ByteMap::new();
                assert(set@.dom() =~= Set::<Seq<u8>>::empty());
                let _ = Self::add_members_into(&mut set, members);
                Value::Members(set)
            },
        }
    }

    /// The keyspace that storing each entry in turn builds.
    pub fn import(entries: &Vec<(Vec<u8>, Plain, Option<u64>)>) -> (soul: Self)
        ensures
            soul.wf(),
            soul@ == restored(entries@),
    {
        let mut soul = Soul::new();
        let mut i: usize = 0;
        assert(entries@.take(0) =~= Seq::<(Vec<u8>, Plain, Option<u64>)>::empty());
        while i < entries.len()
            invariant
                soul.wf(),
                i <= entries@.len(),
                soul@ == restored(entries@.take(i as int)),
            decreases entries@.len() - i,
        {
            assert(entries@.take(i + 1).drop_last() =~= entries@.take(i as int));
            let value = Self::from_plain(&entries[i].1);
            soul.set(copy_bytes(&entries[i].0), (value, entries[i].2));
            i += 1;
        }
        assert(entries@.take(entries@.len() as int) =~= entries@);
        soul
    }
}

} // verus!
