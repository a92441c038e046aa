//! A stored value: its bytes, the client's flag and the instant it expires.

use crate::clock::{deadline, deadline_after, duration_nanos, now, NANOS_PER_SEC};
use std::time::Duration;
use vstd::prelude::*;

verus! {

/// What a stored value is, mathematically.
pub struct Entry {
    /// The bytes the client stored.
    pub value: Seq<u8>,
    /// The client's opaque tag.
    pub flag: u32,
    /// The last instant at which the entry is still returned; `None` for an
    /// entry that never expires.
    pub expires_at: Option<u128>,
}

impl Entry {
    /// An entry is expired once the clock has passed its expiry instant.
    pub open spec fn expired_at(self, now: u128) -> bool {
        self.expires_at matches Some(t) && t < now
    }

    /// An entry that is not expired is live.
    pub open spec fn live_at(self, now: u128) -> bool {
        !self.expired_at(now)
    }
}

/// The expiry of an entry stored at `now` under an optional time-to-live.
pub open spec fn expiry_after(ttl: Option<Duration>, now: u128) -> Option<u128> {
    match ttl {
        None => None,
        Some(d) => Some(deadline(now, duration_nanos(d))),
    }
}

/// The expiry of an entry stored at `now` with a time-to-live in seconds,
/// where zero seconds means that the entry never expires.
pub open spec fn expiry_after_secs(ttl_seconds: u32, now: u128) -> Option<u128> {
    if ttl_seconds == 0 {
        None
    } else {
        Some(deadline(now, (ttl_seconds * NANOS_PER_SEC) as nat))
    }
}

/// A value as the cache stores it.
#[derive(Debug)]
pub struct Value {
    value: Vec<u8>,
    flag: u32,
    timestamp: Option<u128>,
}

impl View for Value {
    type V = Entry;

    closed spec fn view(&self) -> Entry {
        Entry { value: self.value@, flag: self.flag, expires_at: self.timestamp }
    }
}

impl Value {
    /// Builds the value that is stored at `now` under an optional
    /// time-to-live.
    pub fn new_at(value: Vec<u8>, ttl: Option<Duration>, flag: u32, now: u128) -> (v: Value)
        ensures
            v@ == (Entry { value: value@, flag, expires_at: expiry_after(ttl, now) }),
    {
        let timestamp: Option<u128> = match ttl {
            None => None,
            Some(d) => Some(deadline_after(now, d.as_nanos())),
        };
        Value { value, flag, timestamp }
    }

    /// Builds the value that is stored at `now` with a time-to-live in
    /// seconds; zero seconds means no expiry.
    pub fn new_with_ttl_at(
        value: Vec<u8>,
        default_ttl_seconds: u32,
        flag: u32,
        now: u128,
    ) -> (v: Value)
        ensures
            v@ == (Entry {
                value: value@,
                flag,
                expires_at: expiry_after_secs(default_ttl_seconds, now),
            }),
    {
        let timestamp: Option<u128> = if default_ttl_seconds == 0 {
            None
        } else {
            let secs: u128 = default_ttl_seconds as u128;
            Some(deadline_after(now, secs * NANOS_PER_SEC))
        };
        Value { value, flag, timestamp }
    }

    /// Whether the value is expired at `now`.
    pub fn is_expired_at(&self, now: u128) -> (b: bool)
        ensures
            b == self@.expired_at(now),
    {
        match self.timestamp {
            Some(t) => t < now,
            None => false,
        }
    }

    /// Whether the value is still returned at `now`.
    pub fn is_live_at(&self, now: u128) -> (b: bool)
        ensures
            b == self@.live_at(now),
    {
        !self.is_expired_at(now)
    }

    /// Builds a value that expires `ttl` after the moment of the call, or
    /// never when `ttl` is `None`. The clock is read once; whatever it
    /// reads, the value is the one [`Value::new_at`] builds for that reading.
    pub fn new(value: Vec<u8>, ttl: Option<Duration>, flag: u32) -> (v: Value)
        ensures
            exists|t: u128|
                v@ == (Entry { value: value@, flag, expires_at: #[trigger] expiry_after(ttl, t) }),
    {
        Value::new_at(value, ttl, flag, now())
    }

    /// Builds a value that expires `default_ttl_seconds` after the moment of
    /// the call, or never when that is zero. Whatever the clock reads, the
    /// value is the one [`Value::new_with_ttl_at`] builds for that reading.
    pub fn new_with_ttl(value: Vec<u8>, default_ttl_seconds: u32, flag: u32) -> (v: Value)
        ensures
            exists|t: u128|
                v@ == (Entry {
                    value: value@,
                    flag,
                    expires_at: #[trigger] expiry_after_secs(default_ttl_seconds, t),
                }),
    {
        Value::new_with_ttl_at(value, default_ttl_seconds, flag, now())
    }

    /// Whether the value is expired at the moment of the call. A value
    /// without an expiry never is; one with an expiry is judged as
    /// [`Value::is_expired_at`] judges it for the clock's reading.
    pub fn is_expired(&self) -> (b: bool)
        ensures
            exists|t: u128| b == #[trigger] self@.expired_at(t),
    {
        self.is_expired_at(now())
    }

    /// The stored bytes.
    pub fn value(&self) -> (bytes: &Vec<u8>)
        ensures
            bytes@ == self@.value,
    {
        &self.value
    }

    /// The client's flag.
    pub fn flag(&self) -> (flag: u32)
        ensures
            flag == self@.flag,
    {
        self.flag
    }

    /// Gives up the value for its bytes.
    pub fn into_value(self) -> (bytes: Vec<u8>)
        ensures
            bytes@ == self@.value,
    {
        self.value
    }
}

} // verus!
