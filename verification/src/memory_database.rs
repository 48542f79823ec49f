use vstd::prelude::*;
use vstd::slice::slice_to_vec;
use vstd::string::StringSliceAdditionalSpecFns;

use crate::byte_map::{copy_bytes, ByteMap};
use crate::egress::text;
use crate::temple::soul::is_expired;

verus! {

/// What the database holds under each key: the value and when it expires,
/// in seconds since the Unix epoch.
pub type Records = Map<Seq<u8>, (Seq<u8>, Option<u64>)>;

/// A value together with when it expires.
pub type Record = (Vec<u8>, Option<u64>);

/// The records, each value taken by its bytes.
pub open spec fn records_view(m: Map<Seq<u8>, Record>) -> Records {
    m.map_values(|r: Record| (r.0@, r.1))
}

/// A record, its value taken by its bytes.
pub open spec fn record_view(r: Option<Record>) -> Option<(Seq<u8>, Option<u64>)> {
    match r {
        Some(x) => Some((x.0@, x.1)),
        None => None,
    }
}

/// A named store of byte strings under string keys.
pub struct MemoryDatabase {
    _name: String,
    map: ByteMap<Record>,
}

impl View for MemoryDatabase {
    type V = Records;

    closed spec fn view(&self) -> Records {
        records_view(self.map@)
    }
}

/// The bytes of a key.
fn key_bytes(key: &str) -> (bytes: Vec<u8>)
    ensures
        bytes@ == text(key),
{
    slice_to_vec(key.as_bytes())
}

impl MemoryDatabase {
    pub closed spec fn wf(&self) -> bool {
        self.map.wf()
    }

    /// The name the database was made with.
    pub closed spec fn name(&self) -> Seq<char> {
        self._name@
    }

    pub fn new(db_name: &str) -> (db: Self)
        ensures
            db.wf(),
            db@ == Records::empty(),
            db.name() == db_name@,
    {
        let db = MemoryDatabase { _name: db_name.to_owned(), map: ByteMap::new() };
        assert(db@ =~= Records::empty());
        db
    }

    /// The value under `key` at `now`; a value that has expired goes away.
    pub fn get(&mut self, key: &str, now: u64) -> (value: Option<Vec<u8>>)
        requires
            old(self).wf(),
        ensures
            final(self).wf(),
            final(self).name() == old(self).name(),
            match value {
                Some(v) => old(self)@.contains_key(text(key)) && !is_expired(old(self)@[text(key)].1, now)
                    && v@ == old(self)@[text(key)].0 && final(self)@ == old(self)@,
                None => !old(self)@.contains_key(text(key)) && final(self)@ == old(self)@
                    || old(self)@.contains_key(text(key)) && is_expired(old(self)@[text(key)].1, now)
                    && final(self)@ == old(self)@.remove(text(key)),
            },
    {
        let k = key_bytes(key);
        match self.map.find(&k) {
            Some(i) => {
                let expiry = self.map.value_at(i).1;
                if let Some(time) = expiry {
                    if time < now {
                        let _ = self.map.remove_at(i);
                        assert(self@ =~= old(self)@.remove(text(key)));
                        return None;
                    }
                }
                Some(copy_bytes(&self.map.value_at(i).0))
            },
            None => None,
        }
    }

    /// Stores `val` under `key`, handing back what was there.
    pub fn insert(&mut self, key: &str, val: Record) -> (previous: Option<Record>)
        requires
            old(self).wf(),
        ensures
            final(self).wf(),
            final(self).name() == old(self).name(),
            final(self)@ == old(self)@.insert(text(key), (val.0@, val.1)),
            record_view(previous) == if old(self)@.contains_key(text(key)) { Some(old(self)@[text(key)]) } else { None },
    {
        let ghost v = (val.0@, val.1);
        let previous = self.map.insert(key_bytes(key), val);
        assert(self@ =~= old(self)@.insert(text(key), v));
        previous
    }

    /// Removes `key`, handing back what was there.
    pub fn remove(&mut self, key: &str) -> (previous: Option<Record>)
        requires
            old(self).wf(),
        ensures
            final(self).wf(),
            final(self).name() == old(self).name(),
            final(self)@ == old(self)@.remove(text(key)),
            record_view(previous) == if old(self)@.contains_key(text(key)) { Some(old(self)@[text(key)]) } else { None },
    {
        let k = key_bytes(key);
        let previous = self.map.remove(&k);
        assert(self@ =~= old(self)@.remove(text(key)));
        previous
    }
}

} // verus!
