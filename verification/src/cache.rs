//! The cache: a map from keys to stored values in which an entry past its
//! expiry behaves as absent.

use crate::clock::{now, NANOS_PER_SEC};
use crate::store::{
    lemma_live_entries_within, live_entries, map_entries, map_get, map_insert, map_len, map_new,
    map_retain_live, ref_entry, ref_value,
};
use crate::value::{expiry_after, expiry_after_secs, Entry, Value};
use dashmap::mapref::one::Ref;
use dashmap::DashMap;
use std::collections::hash_map::RandomState;
use std::time::Duration;
use vstd::prelude::*;

verus! {

/// What a read of `key` at `now` returns from the entries `m`: the entry
/// under the key when there is one and it is live.
pub open spec fn lookup(m: Map<Seq<u8>, Entry>, key: Seq<u8>, now: u128) -> Option<Entry> {
    if m.dom().contains(key) && m[key].live_at(now) {
        Some(m[key])
    } else {
        None
    }
}

/// The bytes stored under `key`, live or not.
pub open spec fn stored_bytes(m: Map<Seq<u8>, Entry>, key: Seq<u8>) -> Option<Seq<u8>> {
    if m.dom().contains(key) {
        Some(m[key].value)
    } else {
        None
    }
}

/// A short-lived view of one entry, handed out by a read. While it lives
/// the cache is borrowed, so no write can run before it is released.
pub struct RefWrapper<'a> {
    inner: Ref<'a, Vec<u8>, Value, RandomState>,
}

impl<'a> View for RefWrapper<'a> {
    type V = Entry;

    closed spec fn view(&self) -> Entry {
        ref_entry(self.inner)
    }
}

impl<'a> RefWrapper<'a> {
    /// The flag stored with the value.
    pub fn get_flag(&self) -> (flag: u32)
        ensures
            flag == self@.flag,
    {
        ref_value(&self.inner).flag()
    }

    /// The stored bytes.
    pub fn value(&self) -> (bytes: &Vec<u8>)
        ensures
            bytes@ == self@.value,
    {
        ref_value(&self.inner).value()
    }
}

impl<'a> std::ops::Deref for RefWrapper<'a> {
    type Target = Vec<u8>;

    /// The stored bytes.
    fn deref(&self) -> (bytes: &Vec<u8>)
        ensures
            bytes@ == self@.value,
    {
        ref_value(&self.inner).value()
    }
}

/// The cache. Its view is the map from each stored key to its entry,
/// expired entries that no sweep has removed yet included.
pub struct Cache {
    map: DashMap<Vec<u8>, Value, RandomState>,
    default_ttl: Option<Duration>,
}

impl View for Cache {
    type V = Map<Seq<u8>, Entry>;

    closed spec fn view(&self) -> Map<Seq<u8>, Entry> {
        map_entries(self.map)
    }
}

impl Cache {
    /// A cache holds finitely many entries.
    #[verifier::type_invariant]
    pub open spec fn holds_finitely_many(self) -> bool {
        self@.dom().finite()
    }

    /// The time-to-live that [`Cache::insert`] gives an entry.
    pub closed spec fn default_ttl(&self) -> Option<Duration> {
        self.default_ttl
    }

    /// An empty cache whose [`Cache::insert`] stores under `default_ttl`.
    pub fn new(default_ttl: Option<Duration>) -> (cache: Cache)
        ensures
            cache@ =~= Map::empty(),
            cache@.dom().finite(),
            cache.default_ttl() == default_ttl,
    {
        Cache { map: map_new(), default_ttl }
    }

    /// Reads `key` at `now`.
    pub fn get_at<'a>(&'a self, key: &Vec<u8>, now: u128) -> (found: Option<RefWrapper<'a>>)
        ensures
            match found {
                Some(r) => lookup(self@, key@, now) == Some(r@),
                None => lookup(self@, key@, now) is None,
            },
            self@.dom().finite(),
    {
        proof {
            use_type_invariant(self);
        }
        match map_get(&self.map, key) {
            Some(r) => {
                if ref_value(&r).is_expired_at(now) {
                    None
                } else {
                    Some(RefWrapper { inner: r })
                }
            },
            None => None,
        }
    }

    /// Stores `value` and `flag` under `key` at `now`, with the cache's
    /// default time-to-live, and returns the bytes that were stored under
    /// the key before.
    pub fn insert_at(
        &mut self,
        key: Vec<u8>,
        value: Vec<u8>,
        flag: u32,
        now: u128,
    ) -> (previous: Option<Vec<u8>>)
        ensures
            final(self)@ == old(self)@.insert(
                key@,
                (Entry {
                    value: value@,
                    flag,
                    expires_at: expiry_after(old(self).default_ttl(), now),
                }),
            ),
            final(self).default_ttl() == old(self).default_ttl(),
            old(self)@.dom().finite(),
            final(self)@.dom().finite(),
            match previous {
                Some(p) => stored_bytes(old(self)@, key@) == Some(p@),
                None => stored_bytes(old(self)@, key@) is None,
            },
    {
        proof {
            use_type_invariant(&*self);
        }
        let stored = Value::new_at(value, self.default_ttl, flag, now);
        match map_insert(&mut self.map, key, stored) {
            Some(p) => Some(p.into_value()),
            None => None,
        }
    }

    /// Stores `value` and `flag` under `key` at `now`, to expire
    /// `ttl_seconds` later or never when that is zero, and returns the bytes
    /// that were stored under the key before.
    pub fn insert_with_ttl_at(
        &mut self,
        key: Vec<u8>,
        value: Vec<u8>,
        ttl_seconds: u32,
        flag: u32,
        now: u128,
    ) -> (previous: Option<Vec<u8>>)
        ensures
            final(self)@ == old(self)@.insert(
                key@,
                (Entry { value: value@, flag, expires_at: expiry_after_secs(ttl_seconds, now) }),
            ),
            final(self).default_ttl() == old(self).default_ttl(),
            old(self)@.dom().finite(),
            final(self)@.dom().finite(),
            match previous {
                Some(p) => stored_bytes(old(self)@, key@) == Some(p@),
                None => stored_bytes(old(self)@, key@) is None,
            },
    {
        proof {
            use_type_invariant(&*self);
        }
        let stored = Value::new_with_ttl_at(value, ttl_seconds, flag, now);
        match map_insert(&mut self.map, key, stored) {
            Some(p) => Some(p.into_value()),
            None => None,
        }
    }

    /// The number of stored entries, expired ones that no sweep has removed
    /// included.
    pub fn len(&self) -> (n: usize)
        ensures
            self@.dom().finite(),
            n == self@.len(),
    {
        proof {
            use_type_invariant(self);
        }
        map_len(&self.map)
    }

    /// Removes every entry that is expired at `now` and returns the number
    /// of entries before and after.
    pub fn sweep_at(&mut self, now: u128) -> (sizes: (usize, usize))
        ensures
            final(self)@ == live_entries(old(self)@, now),
            final(self).default_ttl() == old(self).default_ttl(),
            old(self)@.dom().finite(),
            final(self)@.dom().finite(),
            sizes.0 == old(self)@.len(),
            sizes.1 == final(self)@.len(),
    {
        proof {
            use_type_invariant(&*self);
        }
        let before: usize = map_len(&self.map);
        proof {
            lemma_live_entries_within(map_entries(self.map), now);
        }
        map_retain_live(&mut self.map, now);
        let after: usize = map_len(&self.map);
        (before, after)
    }

    /// Reads `key` at the moment of the call. Whatever the clock reads, the
    /// result is the one [`Cache::get_at`] returns for that reading: an
    /// absent key gives nothing, an entry without expiry is always returned,
    /// and no entry is returned past its expiry.
    pub fn get<'a>(&'a self, key: &Vec<u8>) -> (found: Option<RefWrapper<'a>>)
        ensures
            exists|t: u128| #[trigger]
                lookup(self@, key@, t) == match found {
                    Some(r) => Some(r@),
                    None => None,
                },
            self@.dom().finite(),
    {
        let t: u128 = now();
        let found = self.get_at(key, t);
        assert(lookup(self@, key@, t) == match found {
            Some(r) => Some(r@),
            None => None,
        });
        found
    }

    /// Stores `value` and `flag` under `key` with the cache's default
    /// time-to-live, counted from the moment of the call, and returns the
    /// bytes that were stored under the key before. Whatever the clock
    /// reads, the cache is left as [`Cache::insert_at`] leaves it for that
    /// reading.
    pub fn insert(
        &mut self,
        key: Vec<u8>,
        value: Vec<u8>,
        flag: u32,
    ) -> (previous: Option<Vec<u8>>)
        ensures
            exists|t: u128|
                final(self)@ == old(self)@.insert(
                    key@,
                    (Entry {
                        value: value@,
                        flag,
                        expires_at: #[trigger] expiry_after(old(self).default_ttl(), t),
                    }),
                ),
            final(self).default_ttl() == old(self).default_ttl(),
            old(self)@.dom().finite(),
            final(self)@.dom().finite(),
            match previous {
                Some(p) => stored_bytes(old(self)@, key@) == Some(p@),
                None => stored_bytes(old(self)@, key@) is None,
            },
    {
        self.insert_at(key, value, flag, now())
    }

    /// Stores `value` and `flag` under `key`, to expire `ttl_seconds` after
    /// the moment of the call or never when that is zero, and returns the
    /// bytes that were stored under the key before. Whatever the clock
    /// reads, the cache is left as [`Cache::insert_with_ttl_at`] leaves it
    /// for that reading.
    pub fn insert_with_ttl(
        &mut self,
        key: Vec<u8>,
        value: Vec<u8>,
        ttl_seconds: u32,
        flag: u32,
    ) -> (previous: Option<Vec<u8>>)
        ensures
            exists|t: u128|
                final(self)@ == old(self)@.insert(
                    key@,
                    (Entry {
                        value: value@,
                        flag,
                        expires_at: #[trigger] expiry_after_secs(ttl_seconds, t),
                    }),
                ),
            final(self).default_ttl() == old(self).default_ttl(),
            old(self)@.dom().finite(),
            final(self)@.dom().finite(),
            match previous {
                Some(p) => stored_bytes(old(self)@, key@) == Some(p@),
                None => stored_bytes(old(self)@, key@) is None,
            },
    {
        self.insert_with_ttl_at(key, value, ttl_seconds, flag, now())
    }

    /// Removes every entry that is expired at the moment of the call and
    /// returns the number of entries before and after. Whatever the clock
    /// reads, the cache is left as [`Cache::sweep_at`] leaves it for that
    /// reading.
    pub fn sweep(&mut self) -> (sizes: (usize, usize))
        ensures
            exists|t: u128| final(self)@ == #[trigger] live_entries(old(self)@, t),
            final(self).default_ttl() == old(self).default_ttl(),
            old(self)@.dom().finite(),
            final(self)@.dom().finite(),
            sizes.0 == old(self)@.len(),
            sizes.1 == final(self)@.len(),
    {
        self.sweep_at(now())
    }
}

/// No read returns an entry past its expiry, swept or not; what a read
/// returns is what is stored under the key.
pub proof fn lemma_nothing_is_returned_past_its_expiry(
    m: Map<Seq<u8>, Entry>,
    key: Seq<u8>,
    now: u128,
)
    ensures
        lookup(m, key, now) matches Some(found) ==> m.dom().contains(key) && found == m[key]
            && !found.expired_at(now),
        m.dom().contains(key) && m[key].expired_at(now) ==> lookup(m, key, now) is None,
        !m.dom().contains(key) ==> lookup(m, key, now) is None,
{
}

/// An entry stored with a time-to-live of zero seconds is returned by a
/// read of its key at every time, with the value and flag it was stored
/// with.
pub proof fn lemma_stored_without_expiry_is_always_returned(
    m: Map<Seq<u8>, Entry>,
    key: Seq<u8>,
    value: Seq<u8>,
    flag: u32,
    stored_at: u128,
    read_at: u128,
)
    ensures
        lookup(
            m.insert(key, Entry { value, flag, expires_at: expiry_after_secs(0, stored_at) }),
            key,
            read_at,
        ) == Some(Entry { value, flag, expires_at: None }),
{
}

/// An entry stored with a time-to-live of `ttl_seconds > 0` is returned by
/// every read of its key up to and including the instant `ttl_seconds` after
/// it was stored, and by no read after that instant.
pub proof fn lemma_stored_with_ttl_is_returned_until_expiry(
    m: Map<Seq<u8>, Entry>,
    key: Seq<u8>,
    value: Seq<u8>,
    flag: u32,
    ttl_seconds: u32,
    stored_at: u128,
    read_at: u128,
)
    requires
        ttl_seconds > 0,
    ensures
        ({
            let stored = Entry { value, flag, expires_at: expiry_after_secs(ttl_seconds, stored_at) };
            let found = lookup(m.insert(key, stored), key, read_at);
            &&& read_at <= stored_at + ttl_seconds * NANOS_PER_SEC ==> found == Some(stored)
            &&& read_at > stored_at + ttl_seconds * NANOS_PER_SEC ==> found is None
        }),
{
}

/// Of two writes under one key the later one counts: reads see what it
/// stored, whatever the earlier one had stored.
pub proof fn lemma_last_write_wins(
    m: Map<Seq<u8>, Entry>,
    key: Seq<u8>,
    earlier: Entry,
    later: Entry,
    read_at: u128,
)
    ensures
        m.insert(key, earlier).insert(key, later) == m.insert(key, later),
        lookup(m.insert(key, earlier).insert(key, later), key, read_at) == if later.live_at(
            read_at,
        ) {
            Some(later)
        } else {
            None
        },
{
    assert(m.insert(key, earlier).insert(key, later) =~= m.insert(key, later));
}

/// A write under one key changes no read of another key.
pub proof fn lemma_write_leaves_other_keys(
    m: Map<Seq<u8>, Entry>,
    written: Seq<u8>,
    stored: Entry,
    key: Seq<u8>,
    read_at: u128,
)
    requires
        key != written,
    ensures
        lookup(m.insert(written, stored), key, read_at) == lookup(m, key, read_at),
{
}

/// A sweep changes no read that comes at or after it: what it removes, a
/// read would no longer return anyway. An entry without expiry survives
/// every sweep.
pub proof fn lemma_sweep_changes_no_later_read(
    m: Map<Seq<u8>, Entry>,
    swept_at: u128,
    key: Seq<u8>,
    read_at: u128,
)
    ensures
        swept_at <= read_at ==> lookup(live_entries(m, swept_at), key, read_at) == lookup(
            m,
            key,
            read_at,
        ),
        m.dom().contains(key) && m[key].expires_at is None ==> lookup(
            live_entries(m, swept_at),
            key,
            read_at,
        ) == Some(m[key]),
{
}

/// After a sweep at `now` the cache holds exactly the entries that were live
/// at `now`, each unchanged, so that its size is the number of live keys.
pub proof fn lemma_sweep_leaves_the_live_entries(m: Map<Seq<u8>, Entry>, now: u128)
    requires
        m.dom().finite(),
    ensures
        forall|k: Seq<u8>| #[trigger]
            live_entries(m, now).dom().contains(k) <==> m.dom().contains(k) && m[k].live_at(now),
        forall|k: Seq<u8>| #[trigger]
            live_entries(m, now).dom().contains(k) ==> live_entries(m, now)[k] == m[k],
        live_entries(m, now).len() == m.dom().filter(|k: Seq<u8>| m[k].live_at(now)).len(),
        live_entries(m, now).len() <= m.len(),
{
    lemma_live_entries_within(m, now);
    assert(live_entries(m, now).dom() =~= m.dom().filter(|k: Seq<u8>| m[k].live_at(now)));
    vstd::set_lib::lemma_len_subset(live_entries(m, now).dom(), m.dom());
}

/// An entry stored with a time-to-live and not written again is removed by
/// the first sweep that comes after its expiry, and the size no longer
/// counts it. How soon that sweep comes is for whoever schedules the
/// sweeps: with sweeps at most an interval apart, the entry is gone no later
/// than an interval after its expiry.
pub proof fn lemma_sweep_after_expiry_removes_the_entry(
    m: Map<Seq<u8>, Entry>,
    key: Seq<u8>,
    value: Seq<u8>,
    flag: u32,
    ttl_seconds: u32,
    stored_at: u128,
    swept_at: u128,
)
    requires
        m.dom().finite(),
        ttl_seconds > 0,
        swept_at > stored_at + ttl_seconds * NANOS_PER_SEC,
    ensures
        ({
            let written = m.insert(
                key,
                Entry { value, flag, expires_at: expiry_after_secs(ttl_seconds, stored_at) },
            );
            let swept = live_entries(written, swept_at);
            &&& !swept.dom().contains(key)
            &&& swept.len() < written.len()
            &&& forall|at: u128| lookup(swept, key, at) is None
        }),
{
    let written = m.insert(
        key,
        Entry { value, flag, expires_at: expiry_after_secs(ttl_seconds, stored_at) },
    );
    let swept = live_entries(written, swept_at);
    lemma_live_entries_within(written, swept_at);
    assert(swept.dom().subset_of(written.dom().remove(key)));
    vstd::set_lib::lemma_len_subset(swept.dom(), written.dom().remove(key));
}

} // verus!
