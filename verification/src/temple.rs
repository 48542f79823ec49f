use std::collections::{HashMap, HashSet};
use vstd::prelude::*;

use crate::byte_map::{copy_bytes, key_views, ByteMap};
use crate::egress::channel_views;
use crate::temple::soul::{
    agrees, enumerates_fields, enumerates_members, first_popped, live, pair_views, spec_add_to, spec_append,
    spec_del, spec_exists, spec_expire, spec_get, spec_hdel, spec_hexists, spec_hget, spec_hlen, spec_hmget,
    spec_hset, spec_lindex, spec_llen, spec_lpush, spec_lrange, spec_lrem, spec_lset, spec_mget, spec_mset,
    spec_pop, spec_rpush, spec_sadd, spec_sismember, spec_srem, spec_strlen, spec_ttl, Datum, Keyspace,
    Soul, Value,
};
use crate::wish::grant::{Decree, Gift};
use crate::wish::{Command, InfoType, Response, Sacrilege};

pub mod laws;
pub mod requests;
pub mod soul;

verus! {

broadcast use vstd::std_specs::hash::group_hash_axioms;

/// A set of client tokens.
pub struct TokenSet {
    tokens: HashSet<usize>,
}

impl View for TokenSet {
    type V = Set<usize>;

    closed spec fn view(&self) -> Set<usize> {
        self.tokens@
    }
}

impl TokenSet {
    /// The set is finite.
    pub closed spec fn wf(&self) -> bool {
        self.tokens@.finite()
    }

    pub fn new() -> (set: Self)
        ensures
            set.wf(),
            set@ == Set::<usize>::empty(),
    {
        TokenSet { tokens: HashSet::new() }
    }

    pub fn contains(&self, token: usize) -> (found: bool)
        requires
            self.wf(),
        ensures
            found == self@.contains(token),
    {
        self.tokens.contains(&token)
    }

    /// Adds `token`, telling whether it was new.
    pub fn insert(&mut self, token: usize) -> (added: bool)
        requires
            old(self).wf(),
        ensures
            final(self).wf(),
            final(self)@ == old(self)@.insert(token),
            added == !old(self)@.contains(token),
    {
        self.tokens.insert(token)
    }

    /// Removes `token`, telling whether it was there.
    pub fn remove(&mut self, token: usize) -> (removed: bool)
        requires
            old(self).wf(),
        ensures
            final(self).wf(),
            final(self)@ == old(self)@.remove(token),
            removed == old(self)@.contains(token),
    {
        self.tokens.remove(&token)
    }

    pub fn len(&self) -> (n: usize)
        requires
            self.wf(),
        ensures
            n == self@.len(),
    {
        self.tokens.len()
    }

    /// The tokens, each once, in some order.
    pub fn to_vec(&self) -> (tokens: Vec<usize>)
        requires
            self.wf(),
        ensures
            tokens@.no_duplicates(),
            tokens@.to_set() == self@,
    {
        let mut out: Vec<usize> = Vec::new();
        let ghost keys = vstd::std_specs::iter::IteratorSpec::remaining(&vstd::std_specs::hash::spec_hash_keys_iter(&self.tokens));
        proof {
            assert(keys.unref().to_set() == self.tokens@);
        }
        for t in it: self.tokens.iter()
            invariant
                it.seq() == keys,
                keys.unref().no_duplicates(),
                out@ == keys.unref().take(it.index()),
        {
            out.push(*t);
            proof {
                assert(out@ =~= keys.unref().take(it.index() + 1));
            }
        }
        proof {
            assert(keys.unref().take(keys.len() as int) =~= keys.unref());
        }
        out
    }
}

/// The channel sets of the clients, each taken as a set of names.
pub open spec fn channel_sets(m: Map<usize, ByteMap<()>>) -> Map<usize, Set<Seq<u8>>> {
    m.map_values(|s: ByteMap<()>| s@.dom())
}

/// Subscribes to each channel in turn; each new one is reported with the
/// number of channels subscribed so far.
pub open spec fn subscribe_each(s: Set<Seq<u8>>, events: Seq<Seq<u8>>) -> (Set<Seq<u8>>, Seq<(Seq<u8>, nat)>)
    decreases events.len(),
{
    if events.len() == 0 {
        (s, Seq::empty())
    } else {
        let (before, reported) = subscribe_each(s, events.drop_last());
        let e = events.last();
        if before.contains(e) {
            (before, reported)
        } else {
            (before.insert(e), reported.push((e, before.insert(e).len())))
        }
    }
}

/// Unsubscribes from each channel in turn; each is reported with the number
/// of channels still subscribed.
pub open spec fn unsubscribe_each(s: Set<Seq<u8>>, events: Seq<Seq<u8>>) -> (Set<Seq<u8>>, Seq<(Seq<u8>, nat)>)
    decreases events.len(),
{
    if events.len() == 0 {
        (s, Seq::empty())
    } else {
        let (before, reported) = unsubscribe_each(s, events.drop_last());
        let e = events.last();
        (before.remove(e), reported.push((e, before.remove(e).len())))
    }
}

/// `reported` lists every channel of `s` once, in some order, with the
/// number of channels left after it.
pub open spec fn reports_all_gone(reported: Seq<(Seq<u8>, nat)>, s: Set<Seq<u8>>) -> bool {
    exists|order: Seq<Seq<u8>>|
        {
            &&& order.no_duplicates()
            &&& order.to_set() == s
            &&& reported.len() == order.len()
            &&& forall|i: int|
                0 <= i < order.len() ==> #[trigger] reported[i] == (order[i], (order.len() - 1 - i) as nat)
        }
}

/// The channels that each client is subscribed to.
pub struct EventMap {
    channels: HashMap<usize, ByteMap<()>>,
}

impl View for EventMap {
    type V = Map<usize, Set<Seq<u8>>>;

    closed spec fn view(&self) -> Map<usize, Set<Seq<u8>>> {
        channel_sets(self.channels@)
    }
}

impl Default for EventMap {
    fn default() -> (map: Self)
        ensures
            map.wf(),
            map@ == Map::<usize, Set<Seq<u8>>>::empty(),
    {
        EventMap::new()
    }
}

impl EventMap {
    /// Every channel set is well formed.
    pub closed spec fn wf(&self) -> bool {
        &&& forall|t: usize| #[trigger] self.channels@.contains_key(t) ==> self.channels@[t].wf()
        &&& self.channels@.dom().finite()
    }

    pub fn new() -> (map: Self)
        ensures
            map.wf(),
            map@ == Map::<usize, Set<Seq<u8>>>::empty(),
    {
        let map = EventMap { channels: HashMap::new() };
        assert(map@ =~= Map::<usize, Set<Seq<u8>>>::empty());
        map
    }

    /// Takes out the channel set of `token`, or an empty one.
    fn take(&mut self, token: usize) -> (set: ByteMap<()>)
        requires
            old(self).wf(),
        ensures
            final(self).wf(),
            set.wf(),
            final(self)@ == old(self)@.remove(token),
            set@.dom() == if old(self)@.contains_key(token) { old(self)@[token] } else { Set::<Seq<u8>>::empty() },
    {
        let taken = self.channels.remove(&token);
        assert(self@ =~= old(self)@.remove(token));
        match taken {
            Some(set) => set,
            None => {
                let set: ByteMap<()> = ByteMap::new();
                assert(set@.dom() =~= Set::<Seq<u8>>::empty());
                set
            },
        }
    }

    /// Subscribes `token` to `events`, reporting each channel that was new
    /// with the number of channels it now has.
    pub fn subscribe(&mut self, token: usize, events: Vec<Vec<u8>>) -> (reported: Vec<(Vec<u8>, usize)>)
        requires
            old(self).wf(),
        ensures
            final(self).wf(),
            ({
                let start = if old(self)@.contains_key(token) { old(self)@[token] } else { Set::<Seq<u8>>::empty() };
                let (after, report) = subscribe_each(start, key_views(events@));
                &&& final(self)@ == old(self)@.insert(token, after)
                &&& channel_views(reported@) == report
            }),
    {
        let ghost es = key_views(events@);
        let mut set = self.take(token);
        let ghost start = set@.dom();
        let mut result: Vec<(Vec<u8>, usize)> = Vec::new();
        let mut i: usize = 0;
        assert(es.take(0) =~= Seq::<Seq<u8>>::empty());
        assert(channel_views(result@) =~= Seq::<(Seq<u8>, nat)>::empty());
        while i < events.len()
            invariant
                set.wf(),
                i <= events@.len(),
                es == key_views(events@),
                (set@.dom(), channel_views(result@)) == subscribe_each(start, es.take(i as int)),
            decreases events@.len() - i,
        {
            assert(es.take(i + 1).drop_last() =~= es.take(i as int));
            let ghost before = set@;
            let ghost reported_before = channel_views(result@);
            proof {
                set.lemma_layout();
            }
            let previous = set.insert(copy_bytes(&events[i]), ());
            assert(set@.dom() =~= before.dom().insert(es[i as int]));
            if previous.is_none() {
                let count = set.len();
                proof {
                    set.lemma_layout();
                }
                result.push((copy_bytes(&events[i]), count));
                assert(channel_views(result@) =~= reported_before.push((es[i as int], set@.dom().len())));
            } else {
                assert(set@.dom() =~= before.dom());
            }
            i += 1;
        }
        assert(es.take(events@.len() as int) =~= es);
        let ghost after = set@.dom();
        let ghost prev = self.channels@;
        let ghost sv = set;
        self.channels.insert(token, set);
        proof {
            assert(self.channels@ == prev.insert(token, sv));
            assert(channel_sets(prev.insert(token, sv)) =~= channel_sets(prev).insert(token, sv@.dom()));
            assert(vstd::std_specs::hash::obeys_key_model::<usize>());
            assert(vstd::std_specs::hash::builds_valid_hashers::<std::hash::RandomState>());
            assert(channel_sets(prev) =~= old(self)@.remove(token));
            assert(self@ =~= old(self)@.insert(token, after));
        }
        result
    }

    /// Unsubscribes `token` from `events`, or from every channel when
    /// `events` is empty, reporting each channel with the number of
    /// channels left. A client left with no channel is forgotten, here and
    /// among the subscribed clients. A client with no channel set gets
    /// `None`.
    pub fn unsubscribe(&mut self, events: Vec<Vec<u8>>, token: usize, subscribed_clients: &mut TokenSet) -> (reported: Option<Vec<(Vec<u8>, usize)>>)
        requires
            old(self).wf(),
            old(subscribed_clients).wf(),
        ensures
            final(self).wf(),
            final(subscribed_clients).wf(),
            !old(self)@.contains_key(token) ==> {
                &&& reported is None
                &&& final(self)@ == old(self)@
                &&& final(subscribed_clients)@ == old(subscribed_clients)@
            },
            old(self)@.contains_key(token) && events@.len() > 0 ==> {
                let (after, report) = unsubscribe_each(old(self)@[token], key_views(events@));
                &&& reported matches Some(r) && channel_views(r@) == report
                &&& after == Set::<Seq<u8>>::empty() ==> final(self)@ == old(self)@.remove(token)
                    && final(subscribed_clients)@ == old(subscribed_clients)@.remove(token)
                &&& after != Set::<Seq<u8>>::empty() ==> final(self)@ == old(self)@.insert(token, after)
                    && final(subscribed_clients)@ == old(subscribed_clients)@
            },
            old(self)@.contains_key(token) && events@.len() == 0 ==> {
                &&& reported matches Some(r) && reports_all_gone(channel_views(r@), old(self)@[token])
                &&& final(self)@ == old(self)@.remove(token)
                &&& final(subscribed_clients)@ == old(subscribed_clients)@.remove(token)
            },
    {
        if !self.channels.contains_key(&token) {
            return None;
        }
        let mut set = self.take(token);
        let ghost start = set@.dom();
        let mut result: Vec<(Vec<u8>, usize)> = Vec::new();
        if events.len() > 0 {
            let ghost es = key_views(events@);
            let mut i: usize = 0;
            assert(es.take(0) =~= Seq::<Seq<u8>>::empty());
            assert(channel_views(result@) =~= Seq::<(Seq<u8>, nat)>::empty());
            while i < events.len()
                invariant
                    set.wf(),
                    i <= events@.len(),
                    es == key_views(events@),
                    (set@.dom(), channel_views(result@)) == unsubscribe_each(start, es.take(i as int)),
                decreases events@.len() - i,
            {
                assert(es.take(i + 1).drop_last() =~= es.take(i as int));
                let ghost before = set@;
                let ghost reported_before = channel_views(result@);
                let _ = set.remove(&events[i]);
                assert(set@.dom() =~= before.dom().remove(es[i as int]));
                let count = set.len();
                proof {
                    set.lemma_layout();
                }
                result.push((copy_bytes(&events[i]), count));
                assert(channel_views(result@) =~= reported_before.push((es[i as int], set@.dom().len())));
                i += 1;
            }
            assert(es.take(events@.len() as int) =~= es);
            if set.len() == 0 {
                proof {
                    set.lemma_layout();
                    assert(set@.dom() =~= Set::<Seq<u8>>::empty());
                }
                let _ = subscribed_clients.remove(token);
            } else {
                proof {
                    set.lemma_layout();
                    assert(set@.dom().contains(set.key_seq()[0]));
                }
                let ghost after = set@.dom();
                let ghost prev = self.channels@;
                let ghost sv = set;
                self.channels.insert(token, set);
                proof {
                    assert(self.channels@ == prev.insert(token, sv));
                    assert(channel_sets(prev.insert(token, sv)) =~= channel_sets(prev).insert(token, sv@.dom()));
                    assert(vstd::std_specs::hash::obeys_key_model::<usize>());
                    assert(vstd::std_specs::hash::builds_valid_hashers::<std::hash::RandomState>());
                    assert(channel_sets(prev) =~= old(self)@.remove(token));
                    assert(self@ =~= old(self)@.insert(token, after));
                }
            }
            Some(result)
        } else {
            proof {
                set.lemma_layout();
            }
            let n = set.len();
            let mut i: usize = 0;
            while i < n
                invariant
                    set.wf(),
                    n == set.key_seq().len(),
                    i <= n,
                    result@.len() == i,
                    forall|j: int| 0 <= j < i ==> #[trigger] channel_views(result@)[j] == (set.key_seq()[j], (n - 1 - j) as nat),
                decreases n - i,
            {
                let ghost before = channel_views(result@);
                result.push((copy_bytes(set.key_at(i)), n - 1 - i));
                proof {
                    assert forall|j: int| 0 <= j < i + 1 implies #[trigger] channel_views(result@)[j] == (set.key_seq()[j], (n - 1 - j) as nat) by {
                        if j < i {
                            assert(channel_views(result@)[j] == before[j]);
                        }
                    }
                }
                i += 1;
            }
            proof {
                set.lemma_layout();
                let order = set.key_seq();
                assert(order.to_set() == start);
                assert(channel_views(result@).len() == order.len());
                assert(reports_all_gone(channel_views(result@), start));
            }
            let _ = subscribed_clients.remove(token);
            Some(result)
        }
    }
}

/// Adds `token` to the subscribers of each channel in turn.
pub open spec fn join_each(m: Map<Seq<u8>, Set<usize>>, token: usize, events: Seq<Seq<u8>>) -> Map<Seq<u8>, Set<usize>>
    decreases events.len(),
{
    if events.len() == 0 {
        m
    } else {
        let before = join_each(m, token, events.drop_last());
        let e = events.last();
        before.insert(e, if before.contains_key(e) { before[e].insert(token) } else { set![token] })
    }
}

/// Takes `token` out of the subscribers of each channel in turn; a channel
/// left without subscribers goes away.
pub open spec fn leave_each(m: Map<Seq<u8>, Set<usize>>, token: usize, events: Seq<Seq<u8>>) -> Map<Seq<u8>, Set<usize>>
    decreases events.len(),
{
    if events.len() == 0 {
        m
    } else {
        let before = leave_each(m, token, events.drop_last());
        let e = events.last();
        if !before.contains_key(e) {
            before
        } else if before[e].remove(token) == Set::<usize>::empty() {
            before.remove(e)
        } else {
            before.insert(e, before[e].remove(token))
        }
    }
}

/// The subscribers of each channel.
pub struct ClientMap {
    clients: ByteMap<TokenSet>,
}

impl View for ClientMap {
    type V = Map<Seq<u8>, Set<usize>>;

    closed spec fn view(&self) -> Map<Seq<u8>, Set<usize>> {
        self.clients@.map_values(|s: TokenSet| s@)
    }
}

impl Default for ClientMap {
    fn default() -> (map: Self)
        ensures
            map.wf(),
            map@ == Map::<Seq<u8>, Set<usize>>::empty(),
    {
        ClientMap::new()
    }
}

impl ClientMap {
    /// Every subscriber set is well formed and not empty.
    pub closed spec fn wf(&self) -> bool {
        &&& self.clients.wf()
        &&& forall|c: Seq<u8>| #[trigger] self.clients@.contains_key(c) ==> self.clients@[c].wf() && self.clients@[c]@ != Set::<usize>::empty()
    }

    pub fn new() -> (map: Self)
        ensures
            map.wf(),
            map@ == Map::<Seq<u8>, Set<usize>>::empty(),
    {
        let map = ClientMap { clients: ByteMap::new() };
        assert(map@ =~= Map::<Seq<u8>, Set<usize>>::empty());
        map
    }

    /// Adds `token` to the subscribers of `event`.
    fn join(&mut self, token: usize, event: &Vec<u8>)
        requires
            old(self).wf(),
        ensures
            final(self).wf(),
            final(self)@ == old(self)@.insert(event@, if old(self)@.contains_key(event@) { old(self)@[event@].insert(token) } else { set![token] }),
    {
        match self.clients.find(event) {
            Some(i) => {
                let mut set = self.clients.replace_at(i, TokenSet::new());
                proof {
                    self.clients.lemma_layout();
                }
                let _ = set.insert(token);
                let ghost s = set@;
                assert(s.contains(token));
                let _ = self.clients.replace_at(i, set);
                proof {
                    assert(self.clients@ =~= old(self).clients@.insert(event@, self.clients@[event@]));
                    assert(self@ =~= old(self)@.insert(event@, s));
                }
            },
            None => {
                let mut set = TokenSet::new();
                let _ = set.insert(token);
                assert(set@ =~= set![token]);
                let ghost s = set@;
                assert(s.contains(token));
                let _ = self.clients.insert(copy_bytes(event), set);
                assert(self@ =~= old(self)@.insert(event@, s));
            },
        }
    }

    /// Takes `token` out of the subscribers of `event`; a channel left
    /// without subscribers goes away.
    fn leave(&mut self, token: usize, event: &Vec<u8>)
        requires
            old(self).wf(),
        ensures
            final(self).wf(),
            final(self)@ == if !old(self)@.contains_key(event@) {
                old(self)@
            } else if old(self)@[event@].remove(token) == Set::<usize>::empty() {
                old(self)@.remove(event@)
            } else {
                old(self)@.insert(event@, old(self)@[event@].remove(token))
            },
    {
        match self.clients.find(event) {
            Some(i) => {
                let mut set = self.clients.replace_at(i, TokenSet::new());
                let _ = set.remove(token);
                if set.len() == 0 {
                    let _ = self.clients.remove_at(i);
                    assert(set@ =~= Set::<usize>::empty());
                    assert(self@ =~= old(self)@.remove(event@));
                } else {
                    let ghost s = set@;
                    assert(s != Set::<usize>::empty());
                    let _ = self.clients.replace_at(i, set);
                    assert(self@ =~= old(self)@.insert(event@, s));
                }
            },
            None => {},
        }
    }

    /// Adds `token` to the subscribers of each of `events`.
    pub fn subscribe(&mut self, token: usize, events: Vec<Vec<u8>>)
        requires
            old(self).wf(),
        ensures
            final(self).wf(),
            final(self)@ == join_each(old(self)@, token, key_views(events@)),
    {
        let ghost es = key_views(events@);
        let mut i: usize = 0;
        assert(es.take(0) =~= Seq::<Seq<u8>>::empty());
        while i < events.len()
            invariant
                self.wf(),
                i <= events@.len(),
                es == key_views(events@),
                self@ == join_each(old(self)@, token, es.take(i as int)),
            decreases events@.len() - i,
        {
            assert(es.take(i + 1).drop_last() =~= es.take(i as int));
            self.join(token, &events[i]);
            i += 1;
        }
        assert(es.take(events@.len() as int) =~= es);
    }

    /// Takes `token` out of the subscribers of each channel reported.
    pub fn unsubscribe(&mut self, token: usize, events: &Option<Vec<(Vec<u8>, usize)>>)
        requires
            old(self).wf(),
        ensures
            final(self).wf(),
            match events {
                Some(list) => final(self)@ == leave_each(old(self)@, token, channel_views(list@).map_values(|c: (Seq<u8>, nat)| c.0)),
                None => final(self)@ == old(self)@,
            },
    {
        match events {
            Some(list) => {
                let ghost es = channel_views(list@).map_values(|c: (Seq<u8>, nat)| c.0);
                let mut i: usize = 0;
                assert(es.take(0) =~= Seq::<Seq<u8>>::empty());
                while i < list.len()
                    invariant
                        self.wf(),
                        i <= list@.len(),
                        es == channel_views(list@).map_values(|c: (Seq<u8>, nat)| c.0),
                        self@ == leave_each(old(self)@, token, es.take(i as int)),
                    decreases list@.len() - i,
                {
                    assert(es.take(i + 1).drop_last() =~= es.take(i as int));
                    self.leave(token, &list[i].0);
                    i += 1;
                }
                assert(es.take(list@.len() as int) =~= es);
            },
            None => {},
        }
    }

    /// The subscribers of `event`, each once, in some order.
    pub fn publish(&self, event: Vec<u8>) -> (clients: Vec<usize>)
        requires
            self.wf(),
        ensures
            clients@.no_duplicates(),
            clients@.to_set() == recipients(self@, event@),
    {
        match self.clients.get(&event) {
            Some(set) => set.to_vec(),
            None => {
                let none: Vec<usize> = Vec::new();
                assert(none@.to_set() =~= Set::<usize>::empty());
                none
            },
        }
    }
}

/// A request that works on the keyspace.
pub enum DatabaseCommand {
    Get { key: Vec<u8>, time: u64 },
    Store { key: Vec<u8>, value: (Value, Option<u64>) },
    Del { keys: Vec<Vec<u8>>, time: u64 },
    Append { key: Vec<u8>, value: Vec<u8>, time: u64 },
    Incr { key: Vec<u8>, time: u64 },
    Decr { key: Vec<u8>, time: u64 },
    Strlen { key: Vec<u8>, time: u64 },
    Exists { keys: Vec<Vec<u8>>, time: u64 },
    Hset { key: Vec<u8>, field_value_pairs: Vec<(Vec<u8>, Vec<u8>)>, time: u64 },
    Hget { key: Vec<u8>, field: Vec<u8>, time: u64 },
    Hmget { key: Vec<u8>, fields: Vec<Vec<u8>>, time: u64 },
    Hdel { key: Vec<u8>, fields: Vec<Vec<u8>>, time: u64 },
    Hexists { key: Vec<u8>, field: Vec<u8>, time: u64 },
    Hlen { key: Vec<u8>, time: u64 },
    Lpush { key: Vec<u8>, elements: Vec<Vec<u8>>, time: u64 },
    Lpop { key: Vec<u8>, time: u64 },
    LpopM { key: Vec<u8>, count: usize, time: u64 },
    Rpush { key: Vec<u8>, elements: Vec<Vec<u8>>, time: u64 },
    Rpop { key: Vec<u8>, time: u64 },
    RpopM { key: Vec<u8>, count: usize, time: u64 },
    Llen { key: Vec<u8>, time: u64 },
    Lrange { key: Vec<u8>, starting_index: i32, ending_index: i32, time: u64 },
    Lindex { key: Vec<u8>, index: i32, time: u64 },
    Lset { key: Vec<u8>, index: i32, element: Vec<u8>, time: u64 },
    Lrem { key: Vec<u8>, count: i32, element: Vec<u8>, time: u64 },
    Expire { key: Vec<u8>, expiry: u64, time: u64 },
    Ttl { key: Vec<u8>, time: u64, nanos: u32 },
    Mset { terms: Vec<Vec<u8>> },
    Mget { keys: Vec<Vec<u8>>, time: u64 },
    Sadd { key: Vec<u8>, values: Vec<Vec<u8>>, time: u64 },
    Srem { key: Vec<u8>, values: Vec<Vec<u8>>, time: u64 },
    Sismember { key: Vec<u8>, value: Vec<u8>, time: u64 },
    Hgetall { key: Vec<u8>, time: u64 },
    Smembers { key: Vec<u8>, time: u64 },
}

/// A request about channels.
pub enum BroadcastCommand {
    Subscribe { events: Vec<Vec<u8>> },
    Publish { event: Vec<u8>, message: Vec<u8> },
    Unsubscribe { terms: Vec<Vec<u8>> },
}

/// A request of a client.
pub enum ClientCommandType {
    Database(DatabaseCommand),
    Broadcast(BroadcastCommand),
}

/// A request of a client, as it travels to the keeper of the keyspace.
pub struct ClientCommand {
    pub client_command_type: ClientCommandType,
}

/// A request of the server itself.
pub enum ServerCommand {
    Save { file_path: String },
}

/// Anything that the keeper of the keyspace is asked to do.
pub enum CommandType {
    Server(ServerCommand),
    Client(ClientCommand),
}

/// A database request fits the limits of the counters that answer it, and
/// the value it stores is well formed.
pub open spec fn command_fits(command: &DatabaseCommand) -> bool {
    match command {
        DatabaseCommand::Store { value, .. } => value.0.wf(),
        DatabaseCommand::Del { keys, .. } => keys@.len() <= u32::MAX,
        DatabaseCommand::Exists { keys, .. } => keys@.len() <= u32::MAX,
        DatabaseCommand::Hset { field_value_pairs, .. } => field_value_pairs@.len() <= u32::MAX,
        DatabaseCommand::Hdel { fields, .. } => fields@.len() <= u32::MAX,
        _ => true,
    }
}

/// `response` carries the bulk string, or the error, of `result`.
pub open spec fn answers_bulk(response: Response, result: Result<Option<Seq<u8>>, Sacrilege>) -> bool {
    match result {
        Ok(v) => response matches Response::BulkString(b) && b.deep_view() == v,
        Err(e) => response matches Response::Error(x) && x == e,
    }
}

/// `response` carries the array, or the error, of `result`.
pub open spec fn answers_array(response: Response, result: Result<Option<Seq<Option<Seq<u8>>>>, Sacrilege>) -> bool {
    match result {
        Ok(v) => response matches Response::BulkStringArray(b) && b.deep_view() == v,
        Err(e) => response matches Response::Error(x) && x == e,
    }
}

/// `response` carries the amount, or the error, of `result`.
pub open spec fn answers_amount(response: Response, result: Result<u32, Sacrilege>) -> bool {
    match result {
        Ok(n) => response matches Response::Amount(a) && a == n,
        Err(e) => response matches Response::Error(x) && x == e,
    }
}

/// `response` carries the length, or the error, of `result`.
pub open spec fn answers_length(response: Response, result: Result<usize, Sacrilege>) -> bool {
    match result {
        Ok(n) => response matches Response::Length(a) && a == n,
        Err(e) => response matches Response::Error(x) && x == e,
    }
}

/// `response` carries the number, or the error, of `result`.
pub open spec fn answers_number(response: Response, result: Result<i64, Sacrilege>) -> bool {
    match result {
        Ok(n) => response matches Response::Number(a) && a == n,
        Err(e) => response matches Response::Error(x) && x == e,
    }
}

/// The keyspace went from `before` to `after` and the client was answered
/// with `response`, as `command` asks.
pub open spec fn fulfils(before: Keyspace, command: DatabaseCommand, after: Keyspace, response: Response) -> bool {
    match command {
        DatabaseCommand::Get { key, time } => after == before && answers_bulk(response, spec_get(before, key@, time)),
        DatabaseCommand::Store { key, value } => after == before.insert(key@, (value.0@, value.1))
            && response == Response::Info(InfoType::OK),
        DatabaseCommand::Del { keys, time } => after == spec_del(before, key_views(keys@), time).0
            && (response matches Response::Amount(a) && a == spec_del(before, key_views(keys@), time).1),
        DatabaseCommand::Append { key, value, time } => after == spec_append(before, key@, value@, time).0
            && answers_length(response, spec_append(before, key@, value@, time).1),
        DatabaseCommand::Incr { key, time } => after == spec_add_to(before, key@, 1, Command::INCR, time).0
            && answers_number(response, spec_add_to(before, key@, 1, Command::INCR, time).1),
        DatabaseCommand::Decr { key, time } => after == spec_add_to(before, key@, -1, Command::DECR, time).0
            && answers_number(response, spec_add_to(before, key@, -1, Command::DECR, time).1),
        DatabaseCommand::Strlen { key, time } => after == before && answers_length(response, spec_strlen(before, key@, time)),
        DatabaseCommand::Exists { keys, time } => after == before
            && (response matches Response::Amount(a) && a == spec_exists(before, key_views(keys@), time)),
        DatabaseCommand::Hset { key, field_value_pairs, time } =>
            after == spec_hset(before, key@, pair_views(field_value_pairs@), time).0
            && answers_amount(response, spec_hset(before, key@, pair_views(field_value_pairs@), time).1),
        DatabaseCommand::Hget { key, field, time } => after == before && answers_bulk(response, spec_hget(before, key@, field@, time)),
        DatabaseCommand::Hmget { key, fields, time } => after == before
            && answers_array(response, spec_hmget(before, key@, key_views(fields@), time)),
        DatabaseCommand::Hdel { key, fields, time } => after == spec_hdel(before, key@, key_views(fields@), time).0
            && answers_amount(response, spec_hdel(before, key@, key_views(fields@), time).1),
        DatabaseCommand::Hexists { key, field, time } => after == before
            && answers_amount(response, spec_hexists(before, key@, field@, time)),
        DatabaseCommand::Hlen { key, time } => after == before && answers_length(response, spec_hlen(before, key@, time)),
        DatabaseCommand::Lpush { key, elements, time } => after == spec_lpush(before, key@, key_views(elements@), time).0
            && answers_length(response, spec_lpush(before, key@, key_views(elements@), time).1),
        DatabaseCommand::Lpop { key, time } => after == spec_pop(before, key@, false, None, Command::LPOP, time).0
            && answers_bulk(response, first_popped(spec_pop(before, key@, false, None, Command::LPOP, time).1)),
        DatabaseCommand::LpopM { key, count, time } => after == spec_pop(before, key@, false, Some(count as nat), Command::LPOP, time).0
            && answers_array(response, spec_pop(before, key@, false, Some(count as nat), Command::LPOP, time).1),
        DatabaseCommand::Rpush { key, elements, time } => after == spec_rpush(before, key@, key_views(elements@), time).0
            && answers_length(response, spec_rpush(before, key@, key_views(elements@), time).1),
        DatabaseCommand::Rpop { key, time } => after == spec_pop(before, key@, true, None, Command::RPOP, time).0
            && answers_bulk(response, first_popped(spec_pop(before, key@, true, None, Command::RPOP, time).1)),
        DatabaseCommand::RpopM { key, count, time } => after == spec_pop(before, key@, true, Some(count as nat), Command::RPOP, time).0
            && answers_array(response, spec_pop(before, key@, true, Some(count as nat), Command::RPOP, time).1),
        DatabaseCommand::Llen { key, time } => after == before && answers_length(response, spec_llen(before, key@, time)),
        DatabaseCommand::Lrange { key, starting_index, ending_index, time } => after == before
            && answers_array(response, spec_lrange(before, key@, starting_index as int, ending_index as int, time)),
        DatabaseCommand::Lindex { key, index, time } => after == before
            && answers_bulk(response, spec_lindex(before, key@, index as int, time)),
        DatabaseCommand::Lset { key, index, element, time } => after == spec_lset(before, key@, index as int, element@, time).0
            && match spec_lset(before, key@, index as int, element@, time).1 {
                Ok(_) => response == Response::Info(InfoType::OK),
                Err(e) => response matches Response::Error(x) && x == e,
            },
        DatabaseCommand::Lrem { key, count, element, time } => after == spec_lrem(before, key@, count as int, element@, time).0
            && answers_length(response, spec_lrem(before, key@, count as int, element@, time).1),
        DatabaseCommand::Expire { key, expiry, time } => after == spec_expire(before, key@, expiry, time).0
            && (response matches Response::Amount(a) && a == spec_expire(before, key@, expiry, time).1),
        DatabaseCommand::Ttl { key, time, nanos } => after == spec_ttl(before, key@, time, nanos).0
            && (response matches Response::Number(n) && n == spec_ttl(before, key@, time, nanos).1),
        DatabaseCommand::Mset { terms } => after == spec_mset(before, key_views(terms@)) && response == Response::Info(InfoType::OK),
        DatabaseCommand::Mget { keys, time } => after == before
            && (response matches Response::BulkStringArray(Some(b)) && b.deep_view() == spec_mget(before, key_views(keys@), time)),
        DatabaseCommand::Sadd { key, values, time } => after == spec_sadd(before, key@, key_views(values@), time).0
            && answers_length(response, spec_sadd(before, key@, key_views(values@), time).1),
        DatabaseCommand::Srem { key, values, time } => after == spec_srem(before, key@, key_views(values@), time).0
            && answers_length(response, spec_srem(before, key@, key_views(values@), time).1),
        DatabaseCommand::Sismember { key, value, time } => after == before
            && answers_length(response, spec_sismember(before, key@, value@, time)),
        DatabaseCommand::Hgetall { key, time } => after == before && match live(before, key@, time) {
            Some(Datum::Hash(m)) => response matches Response::BulkStringArray(Some(b)) && enumerates_fields(b.deep_view(), m),
            Some(_) => response matches Response::Error(x) && x == Sacrilege::IncorrectUsage(Command::HGETALL),
            None => response matches Response::BulkStringArray(Some(b)) && b@.len() == 0,
        },
        DatabaseCommand::Smembers { key, time } => after == before && match live(before, key@, time) {
            Some(Datum::Members(s)) => response matches Response::BulkStringArray(Some(b)) && enumerates_members(b.deep_view(), s),
            Some(_) => response matches Response::Error(x) && x == Sacrilege::IncorrectUsage(Command::SMEMBERS),
            None => response matches Response::BulkStringArray(Some(b)) && b@.len() == 0,
        },
    }
}

/// `response` answers a database request with its bulk string or error.
fn bulk_response(result: Result<Option<Vec<u8>>, Sacrilege>) -> (response: Response)
    ensures
        match result {
            Ok(v) => response matches Response::BulkString(b) && b.deep_view() == v.deep_view(),
            Err(e) => response matches Response::Error(x) && x == e,
        },
{
    match result {
        Ok(v) => Response::BulkString(v),
        Err(e) => Response::Error(e),
    }
}

/// `response` answers a database request with its array or error.
fn array_response(result: Result<Option<Vec<Option<Vec<u8>>>>, Sacrilege>) -> (response: Response)
    ensures
        match result {
            Ok(v) => response == Response::BulkStringArray(v),
            Err(e) => response matches Response::Error(x) && x == e,
        },
{
    match result {
        Ok(v) => Response::BulkStringArray(v),
        Err(e) => Response::Error(e),
    }
}

fn amount_response(result: Result<u32, Sacrilege>) -> (response: Response)
    ensures
        answers_amount(response, result),
{
    match result {
        Ok(v) => Response::Amount(v),
        Err(e) => Response::Error(e),
    }
}

fn length_response(result: Result<usize, Sacrilege>) -> (response: Response)
    ensures
        answers_length(response, result),
{
    match result {
        Ok(v) => Response::Length(v),
        Err(e) => Response::Error(e),
    }
}

fn number_response(result: Result<i64, Sacrilege>) -> (response: Response)
    ensures
        answers_number(response, result),
{
    match result {
        Ok(v) => Response::Number(v),
        Err(e) => Response::Error(e),
    }
}

/// Carries out a database request on the keyspace.
pub fn serve(soul: &mut Soul, command: DatabaseCommand) -> (response: Response)
    requires
        old(soul).wf(),
        command_fits(&command),
    ensures
        final(soul).wf(),
        fulfils(old(soul)@, command, final(soul)@, response),
{
    match command {
        DatabaseCommand::Get { key, time } => bulk_response(soul.get(key, time)),
        DatabaseCommand::Store { key, value } => {
            soul.set(key, value);
            Response::Info(InfoType::OK)
        },
        DatabaseCommand::Del { keys, time } => Response::Amount(soul.del(keys, time)),
        DatabaseCommand::Append { key, value, time } => length_response(soul.append(key, value, time)),
        DatabaseCommand::Incr { key, time } => number_response(soul.incr(key, time)),
        DatabaseCommand::Decr { key, time } => number_response(soul.decr(key, time)),
        DatabaseCommand::Strlen { key, time } => length_response(soul.strlen(key, time)),
        DatabaseCommand::Exists { keys, time } => Response::Amount(soul.count_existing(keys, time)),
        DatabaseCommand::Hset { key, field_value_pairs, time } => amount_response(soul.hset(key, field_value_pairs, time)),
        DatabaseCommand::Hget { key, field, time } => bulk_response(soul.hget(key, field, time)),
        DatabaseCommand::Hmget { key, fields, time } => array_response(soul.hmget(key, fields, time)),
        DatabaseCommand::Hdel { key, fields, time } => amount_response(soul.hdel(key, fields, time)),
        DatabaseCommand::Hexists { key, field, time } => amount_response(soul.hexists(key, field, time)),
        DatabaseCommand::Hlen { key, time } => length_response(soul.hlen(key, time)),
        DatabaseCommand::Lpush { key, elements, time } => length_response(soul.lpush(key, elements, time)),
        DatabaseCommand::Lpop { key, time } => bulk_response(soul.lpop(key, time)),
        DatabaseCommand::LpopM { key, count, time } => array_response(soul.lpop_m(key, count, time)),
        DatabaseCommand::Rpush { key, elements, time } => length_response(soul.rpush(key, elements, time)),
        DatabaseCommand::Rpop { key, time } => bulk_response(soul.rpop(key, time)),
        DatabaseCommand::RpopM { key, count, time } => array_response(soul.rpop_m(key, count, time)),
        DatabaseCommand::Llen { key, time } => length_response(soul.llen(key, time)),
        DatabaseCommand::Lrange { key, starting_index, ending_index, time } =>
            array_response(soul.lrange(key, starting_index, ending_index, time)),
        DatabaseCommand::Lindex { key, index, time } => bulk_response(soul.lindex(key, index, time)),
        DatabaseCommand::Lset { key, index, element, time } => match soul.lset(key, index, element, time) {
            Ok(()) => Response::Info(InfoType::OK),
            Err(e) => Response::Error(e),
        },
        DatabaseCommand::Lrem { key, count, element, time } => length_response(soul.lrem(key, count, element, time)),
        DatabaseCommand::Expire { key, expiry, time } => Response::Amount(soul.expire(key, expiry, time)),
        DatabaseCommand::Ttl { key, time, nanos } => Response::Number(soul.ttl(key, time, nanos)),
        DatabaseCommand::Mset { terms } => {
            soul.mset(terms);
            Response::Info(InfoType::OK)
        },
        DatabaseCommand::Mget { keys, time } => Response::BulkStringArray(soul.mget(keys, time)),
        DatabaseCommand::Sadd { key, values, time } => length_response(soul.sadd(key, values, time)),
        DatabaseCommand::Srem { key, values, time } => length_response(soul.srem(key, values, time)),
        DatabaseCommand::Sismember { key, value, time } => length_response(soul.sismember(key, value, time)),
        DatabaseCommand::Hgetall { key, time } => array_response(soul.hgetall(key, time)),
        DatabaseCommand::Smembers { key, time } => array_response(soul.smembers(key, time)),
    }
}

/// Client `t` follows channel `c`, as the client side records it.
pub open spec fn follows(events: Map<usize, Set<Seq<u8>>>, t: usize, c: Seq<u8>) -> bool {
    events.contains_key(t) && events[t].contains(c)
}

/// Channel `c` is heard by client `t`, as the channel side records it.
pub open spec fn heard_by(clients: Map<Seq<u8>, Set<usize>>, c: Seq<u8>, t: usize) -> bool {
    clients.contains_key(c) && clients[c].contains(t)
}

/// The channels of each client after `token` unsubscribes from `terms`, or
/// from every channel when `terms` is empty; a client left without a
/// channel drops out.
pub open spec fn events_after_unsubscribe(events: Map<usize, Set<Seq<u8>>>, token: usize, terms: Seq<Seq<u8>>) -> Map<usize, Set<Seq<u8>>> {
    if !events.contains_key(token) {
        events
    } else {
        let rest = if terms.len() > 0 { unsubscribe_each(events[token], terms).0 } else { Set::<Seq<u8>>::empty() };
        if rest == Set::<Seq<u8>>::empty() {
            events.remove(token)
        } else {
            events.insert(token, rest)
        }
    }
}

/// A request that changes who follows which channel; every other request
/// leaves the channels of every client as they were.
pub enum Move {
    Subscribe(usize, Seq<Seq<u8>>),
    Unsubscribe(usize, Seq<Seq<u8>>),
}

/// The channels of each client after one move.
pub open spec fn events_after(events: Map<usize, Set<Seq<u8>>>, m: Move) -> Map<usize, Set<Seq<u8>>> {
    match m {
        Move::Subscribe(t, es) => {
            let start = if events.contains_key(t) { events[t] } else { Set::<Seq<u8>>::empty() };
            events.insert(t, subscribe_each(start, es).0)
        },
        Move::Unsubscribe(t, ts) => events_after_unsubscribe(events, t, ts),
    }
}

/// The channels of each client after the moves, in order.
pub open spec fn events_after_all(events: Map<usize, Set<Seq<u8>>>, moves: Seq<Move>) -> Map<usize, Set<Seq<u8>>>
    decreases moves.len(),
{
    if moves.len() == 0 {
        events
    } else {
        events_after(events_after_all(events, moves.drop_last()), moves.last())
    }
}

/// A change to the subscribers of channels: a client joins or leaves each
/// of the named channels.
pub enum ChannelChange {
    Join(usize, Seq<Seq<u8>>),
    Leave(usize, Seq<Seq<u8>>),
}

/// The subscribers of each channel after the changes, in order, as
/// `ClientMap::subscribe` and `ClientMap::unsubscribe` make them.
pub open spec fn clients_after_all(clients: Map<Seq<u8>, Set<usize>>, changes: Seq<ChannelChange>) -> Map<Seq<u8>, Set<usize>>
    decreases changes.len(),
{
    if changes.len() == 0 {
        clients
    } else {
        let before = clients_after_all(clients, changes.drop_last());
        match changes.last() {
            ChannelChange::Join(t, es) => join_each(before, t, es),
            ChannelChange::Leave(t, es) => leave_each(before, t, es),
        }
    }
}

/// The clients that a message published on channel `c` reaches.
pub open spec fn recipients(clients: Map<Seq<u8>, Set<usize>>, c: Seq<u8>) -> Set<usize> {
    if clients.contains_key(c) { clients[c] } else { Set::<usize>::empty() }
}

/// Both records of who follows which channel agree.
pub open spec fn consistent(events: Map<usize, Set<Seq<u8>>>, clients: Map<Seq<u8>, Set<usize>>) -> bool {
    forall|t: usize, c: Seq<u8>|
        #![trigger follows(events, t, c)]
        #![trigger heard_by(clients, c, t)]
        follows(events, t, c) <==> heard_by(clients, c, t)
}

pub proof fn lemma_subscribe_each(s: Set<Seq<u8>>, es: Seq<Seq<u8>>)
    ensures
        subscribe_each(s, es).0 == s + es.to_set(),
    decreases es.len(),
{
    if es.len() > 0 {
        lemma_subscribe_each(s, es.drop_last());
        assert(es =~= es.drop_last().push(es.last()));
        es.drop_last().lemma_push_to_set_commute(es.last());
        assert(subscribe_each(s, es).0 =~= s + es.to_set());
    } else {
        assert(s + es.to_set() =~= s);
    }
}

pub proof fn lemma_unsubscribe_each(s: Set<Seq<u8>>, es: Seq<Seq<u8>>)
    ensures
        unsubscribe_each(s, es).0 == s - es.to_set(),
        unsubscribe_each(s, es).1.map_values(|c: (Seq<u8>, nat)| c.0) == es,
    decreases es.len(),
{
    if es.len() > 0 {
        lemma_unsubscribe_each(s, es.drop_last());
        assert(es =~= es.drop_last().push(es.last()));
        es.drop_last().lemma_push_to_set_commute(es.last());
        assert(unsubscribe_each(s, es).0 =~= s - es.to_set());
        let (_, before) = unsubscribe_each(s, es.drop_last());
        assert(unsubscribe_each(s, es).1.map_values(|c: (Seq<u8>, nat)| c.0) =~= before.map_values(|c: (Seq<u8>, nat)| c.0).push(es.last()));
    } else {
        assert(s - es.to_set() =~= s);
        assert(unsubscribe_each(s, es).1.map_values(|c: (Seq<u8>, nat)| c.0) =~= es);
    }
}

pub proof fn lemma_join_each(cm: Map<Seq<u8>, Set<usize>>, t: usize, es: Seq<Seq<u8>>)
    ensures
        forall|c: Seq<u8>, u: usize| #[trigger] heard_by(join_each(cm, t, es), c, u)
            <==> heard_by(cm, c, u) || (u == t && es.contains(c)),
        forall|c: Seq<u8>| #[trigger] join_each(cm, t, es).contains_key(c) ==> join_each(cm, t, es)[c] != Set::<usize>::empty()
            || (cm.contains_key(c) && cm[c] == Set::<usize>::empty()),
    decreases es.len(),
{
    if es.len() > 0 {
        lemma_join_each(cm, t, es.drop_last());
        let before = join_each(cm, t, es.drop_last());
        let e = es.last();
        assert forall|c: Seq<u8>, u: usize| #[trigger] heard_by(join_each(cm, t, es), c, u)
            <==> heard_by(cm, c, u) || (u == t && es.contains(c)) by {
            if es.contains(c) && !es.drop_last().contains(c) {
                let k = choose|k: int| 0 <= k < es.len() && es[k] == c;
                if k < es.len() - 1 {
                    assert(es.drop_last()[k] == c);
                }
            }
            if es.drop_last().contains(c) {
                let k = choose|k: int| 0 <= k < es.drop_last().len() && es.drop_last()[k] == c;
                assert(es[k] == c);
            }
            assert(heard_by(before, c, u) <==> heard_by(cm, c, u) || (u == t && es.drop_last().contains(c)));
            if c == e {
                assert(es[es.len() - 1] == c);
            }
        }
        assert forall|c: Seq<u8>| #[trigger] join_each(cm, t, es).contains_key(c) implies join_each(cm, t, es)[c] != Set::<usize>::empty()
            || (cm.contains_key(c) && cm[c] == Set::<usize>::empty()) by {
            if c == e {
                assert(join_each(cm, t, es)[c].contains(t));
            }
        }
    }
}

pub proof fn lemma_leave_each(cm: Map<Seq<u8>, Set<usize>>, t: usize, es: Seq<Seq<u8>>)
    ensures
        forall|c: Seq<u8>, u: usize| #[trigger] heard_by(leave_each(cm, t, es), c, u)
            <==> heard_by(cm, c, u) && !(u == t && es.contains(c)),
        forall|c: Seq<u8>| #[trigger] leave_each(cm, t, es).contains_key(c) ==> leave_each(cm, t, es)[c] != Set::<usize>::empty()
            || (cm.contains_key(c) && cm[c] == Set::<usize>::empty()),
    decreases es.len(),
{
    if es.len() > 0 {
        lemma_leave_each(cm, t, es.drop_last());
        let before = leave_each(cm, t, es.drop_last());
        let e = es.last();
        assert forall|c: Seq<u8>, u: usize| #[trigger] heard_by(leave_each(cm, t, es), c, u)
            <==> heard_by(cm, c, u) && !(u == t && es.contains(c)) by {
            if es.contains(c) && !es.drop_last().contains(c) {
                let k = choose|k: int| 0 <= k < es.len() && es[k] == c;
                if k < es.len() - 1 {
                    assert(es.drop_last()[k] == c);
                }
            }
            if es.drop_last().contains(c) {
                let k = choose|k: int| 0 <= k < es.drop_last().len() && es.drop_last()[k] == c;
                assert(es[k] == c);
            }
            assert(heard_by(before, c, u) <==> heard_by(cm, c, u) && !(u == t && es.drop_last().contains(c)));
            if c == e {
                assert(es[es.len() - 1] == c);
                if before.contains_key(c) {
                    assert(before[c].remove(t).contains(u) <==> before[c].contains(u) && u != t);
                }
            }
        }
    }
}

/// What the keeper of the keyspace holds.
pub struct Hall {
    pub keyspace: Keyspace,
    pub events: Map<usize, Set<Seq<u8>>>,
    pub clients: Map<Seq<u8>, Set<usize>>,
    pub subscribed: Set<usize>,
}

/// The keyspace together with who follows which channel.
pub struct Sanctum {
    soul: Soul,
    client_map: ClientMap,
    event_map: EventMap,
    subscribed_clients: TokenSet,
}

impl View for Sanctum {
    type V = Hall;

    closed spec fn view(&self) -> Hall {
        Hall {
            keyspace: self.soul@,
            events: self.event_map@,
            clients: self.client_map@,
            subscribed: self.subscribed_clients@,
        }
    }
}

/// Copies of byte strings.
fn copy_all(terms: &Vec<Vec<u8>>) -> (copies: Vec<Vec<u8>>)
    ensures
        key_views(copies@) == key_views(terms@),
{
    let mut copies: Vec<Vec<u8>> = Vec::new();
    let mut i: usize = 0;
    while i < terms.len()
        invariant
            i <= terms@.len(),
            key_views(copies@) == key_views(terms@).take(i as int),
        decreases terms@.len() - i,
    {
        let ghost before = key_views(copies@);
        copies.push(copy_bytes(&terms[i]));
        assert(key_views(copies@) =~= before.push(terms@[i as int]@));
        assert(key_views(copies@) =~= key_views(terms@).take(i + 1));
        i += 1;
    }
    assert(key_views(terms@).take(terms@.len() as int) =~= key_views(terms@));
    copies
}

impl Sanctum {
    /// In every well-formed state the subscribed clients are those with
    /// channels, and a message on a channel reaches exactly the clients that
    /// follow it.
    pub proof fn law_records_agree(&self)
        requires
            self.wf(),
        ensures
            self@.subscribed == self@.events.dom(),
            forall|u: usize, c: Seq<u8>| #[trigger] recipients(self@.clients, c).contains(u) <==> follows(self@.events, u, c),
    {
        assert forall|u: usize, c: Seq<u8>| #[trigger] recipients(self@.clients, c).contains(u) <==> follows(self@.events, u, c) by {
            assert(follows(self.event_map@, u, c) <==> heard_by(self.client_map@, c, u));
        }
    }

    /// Every part is well formed, the two records of subscriptions agree,
    /// and the subscribed clients are those with a channel set.
    pub closed spec fn wf(&self) -> bool {
        &&& self.soul.wf()
        &&& self.client_map.wf()
        &&& self.event_map.wf()
        &&& self.subscribed_clients.wf()
        &&& consistent(self.event_map@, self.client_map@)
        &&& self.subscribed_clients@ == self.event_map@.dom()
    }

    /// Starts with the keyspace `soul` and no subscription.
    pub fn new(soul: Soul) -> (sanctum: Self)
        requires
            soul.wf(),
        ensures
            sanctum.wf(),
            sanctum@.keyspace == soul@,
            sanctum@.events == Map::<usize, Set<Seq<u8>>>::empty(),
            sanctum@.clients == Map::<Seq<u8>, Set<usize>>::empty(),
            sanctum@.subscribed == Set::<usize>::empty(),
    {
        let sanctum = Sanctum {
            soul,
            client_map: ClientMap::new(),
            event_map: EventMap::new(),
            subscribed_clients: TokenSet::new(),
        };
        assert(sanctum.event_map@.dom() =~= Set::<usize>::empty());
        sanctum
    }

    /// The keyspace.
    pub fn soul(&self) -> (soul: &Soul)
        requires
            self.wf(),
        ensures
            soul.wf(),
            soul@ == self@.keyspace,
    {
        &self.soul
    }

    /// Carries out a request of client `token`. A client that follows a
    /// channel may only subscribe, unsubscribe or publish.
    pub fn fulfil(&mut self, token: usize, command: ClientCommandType) -> (decree: Decree)
        requires
            old(self).wf(),
            command matches ClientCommandType::Database(c) ==> command_fits(&c),
        ensures
            final(self).wf(),
            match command {
                ClientCommandType::Database(c) => if old(self)@.subscribed.contains(token) {
                    &&& final(self)@ == old(self)@
                    &&& decree matches Decree::Deliver(g) && g.token == token
                        && g.response == Response::Error(Sacrilege::SubscriberOnlyMode)
                } else {
                    &&& final(self)@.events == old(self)@.events
                    &&& final(self)@.clients == old(self)@.clients
                    &&& final(self)@.subscribed == old(self)@.subscribed
                    &&& decree matches Decree::Deliver(g) && g.token == token
                        && fulfils(old(self)@.keyspace, c, final(self)@.keyspace, g.response)
                },
                ClientCommandType::Broadcast(BroadcastCommand::Subscribe { events }) => {
                    let start = if old(self)@.events.contains_key(token) { old(self)@.events[token] } else { Set::<Seq<u8>>::empty() };
                    let (after, report) = subscribe_each(start, key_views(events@));
                    &&& final(self)@.keyspace == old(self)@.keyspace
                    &&& final(self)@.events == old(self)@.events.insert(token, after)
                    &&& final(self)@.clients == join_each(old(self)@.clients, token, key_views(events@))
                    &&& final(self)@.subscribed == old(self)@.subscribed.insert(token)
                    &&& decree matches Decree::Deliver(g) && g.token == token
                        && (g.response matches Response::SubscribedChannels(r) && channel_views(r@) == report)
                },
                ClientCommandType::Broadcast(BroadcastCommand::Unsubscribe { terms }) => {
                    &&& final(self)@.keyspace == old(self)@.keyspace
                    &&& final(self)@.events == events_after_unsubscribe(old(self)@.events, token, key_views(terms@))
                    &&& final(self)@.subscribed == final(self)@.events.dom()
                    &&& forall|c: Seq<u8>| #[trigger] heard_by(final(self)@.clients, c, token) <==> follows(final(self)@.events, token, c)
                    &&& decree matches Decree::Deliver(g) && g.token == token
                        && (g.response matches Response::UnsubscribedChannels(r)
                        && (old(self)@.events.contains_key(token) <==> r is Some)
                        && (r matches Some(list) ==> (terms@.len() == 0 ==> reports_all_gone(channel_views(list@), old(self)@.events[token])))
                        && (r matches Some(list) ==> (terms@.len() > 0 ==> channel_views(list@) == unsubscribe_each(old(self)@.events[token], key_views(terms@)).1)))
                    &&& forall|c: Seq<u8>| #[trigger] heard_by(final(self)@.clients, c, token) ==> {
                        &&& terms@.len() > 0
                        &&& heard_by(old(self)@.clients, c, token)
                        &&& !key_views(terms@).contains(c)
                    }
                    &&& forall|c: Seq<u8>, u: usize| u != token ==> (#[trigger] heard_by(final(self)@.clients, c, u) <==> heard_by(old(self)@.clients, c, u))
                },
                ClientCommandType::Broadcast(BroadcastCommand::Publish { event, message }) => {
                    &&& final(self)@ == old(self)@
                    &&& decree matches Decree::Broadcast(from, e, m, to) && from == token && e@ == event@ && m@ == message@
                        && to@.no_duplicates()
                        && to@.to_set() == recipients(old(self)@.clients, event@)
                },
            },
    {
        match command {
            ClientCommandType::Database(database_command) => {
                if self.subscribed_clients.contains(token) {
                    return Decree::Deliver(Gift { token, response: Response::Error(Sacrilege::SubscriberOnlyMode) });
                }
                let response = serve(&mut self.soul, database_command);
                Decree::Deliver(Gift { token, response })
            },
            ClientCommandType::Broadcast(broadcast_command) => match broadcast_command {
                BroadcastCommand::Subscribe { events } => {
                    let ghost es = key_views(events@);
                    let ghost em0 = self.event_map@;
                    let ghost cm0 = self.client_map@;
                    let _ = self.subscribed_clients.insert(token);
                    let subscribed_channels = self.event_map.subscribe(token, copy_all(&events));
                    self.client_map.subscribe(token, events);
                    proof {
                        let start = if em0.contains_key(token) { em0[token] } else { Set::<Seq<u8>>::empty() };
                        lemma_subscribe_each(start, es);
                        lemma_join_each(cm0, token, es);
                        assert forall|t: usize, c: Seq<u8>| #[trigger] follows(self.event_map@, t, c) <==> heard_by(self.client_map@, c, t) by {
                            assert(follows(em0, t, c) <==> heard_by(cm0, c, t));
                            if t == token {
                                assert(es.contains(c) <==> es.to_set().contains(c));
                            }
                        }
                        assert(self.subscribed_clients@ =~= self.event_map@.dom());
                    }
                    Decree::Deliver(Gift { token, response: Response::SubscribedChannels(subscribed_channels) })
                },
                BroadcastCommand::Unsubscribe { terms } => {
                    let ghost es = key_views(terms@);
                    let ghost em0 = self.event_map@;
                    let ghost cm0 = self.client_map@;
                    let unsubscribed_events = self.event_map.unsubscribe(terms, token, &mut self.subscribed_clients);
                    self.client_map.unsubscribe(token, &unsubscribed_events);
                    proof {
                        match &unsubscribed_events {
                            Some(list) => {
                                let names = channel_views(list@).map_values(|c: (Seq<u8>, nat)| c.0);
                                lemma_leave_each(cm0, token, names);
                                let s0 = em0[token];
                                if es.len() > 0 {
                                    lemma_unsubscribe_each(s0, es);
                                    assert(names == es);
                                    assert forall|t: usize, c: Seq<u8>| #[trigger] follows(self.event_map@, t, c) <==> heard_by(self.client_map@, c, t) by {
                                        assert(follows(em0, t, c) <==> heard_by(cm0, c, t));
                                        if t == token {
                                            assert(es.contains(c) <==> es.to_set().contains(c));
                                            if unsubscribe_each(s0, es).0 == Set::<Seq<u8>>::empty() {
                                                assert(!unsubscribe_each(s0, es).0.contains(c));
                                            }
                                        }
                                    }
                                } else {
                                    let order = choose|order: Seq<Seq<u8>>|
                                        {
                                            &&& order.no_duplicates()
                                            &&& order.to_set() == s0
                                            &&& channel_views(list@).len() == order.len()
                                            &&& forall|i: int|
                                                0 <= i < order.len() ==> #[trigger] channel_views(list@)[i] == (order[i], (order.len() - 1 - i) as nat)
                                        };
                                    assert(names =~= order);
                                    assert forall|t: usize, c: Seq<u8>| #[trigger] follows(self.event_map@, t, c) <==> heard_by(self.client_map@, c, t) by {
                                        assert(follows(em0, t, c) <==> heard_by(cm0, c, t));
                                        if t == token {
                                            assert(order.contains(c) <==> order.to_set().contains(c));
                                        }
                                    }
                                }
                                assert forall|c: Seq<u8>| #[trigger] heard_by(self.client_map@, c, token) implies {
                                    &&& es.len() > 0
                                    &&& heard_by(cm0, c, token)
                                    &&& !es.contains(c)
                                } by {
                                    if es.len() == 0 {
                                        assert(follows(em0, token, c));
                                        let order = names;
                                        assert(order.to_set().contains(c));
                                    }
                                }
                            },
                            None => {},
                        }
                        assert(self.subscribed_clients@ =~= self.event_map@.dom());
                    }
                    Decree::Deliver(Gift { token, response: Response::UnsubscribedChannels(unsubscribed_events) })
                },
                BroadcastCommand::Publish { event, message } => {
                    let clients = self.client_map.publish(copy_bytes(&event));
                    Decree::Broadcast(token, event, message, clients)
                },
            },
        }
    }
}

} // verus!
