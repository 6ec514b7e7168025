//! A single value kept for a fixed time after it was set.
use vstd::prelude::*;

use crate::clock::unix_now;

verus! {

/// The value behind an optional reference.
pub open spec fn as_value<T>(r: Option<&T>) -> Option<T> {
    match r {
        Some(v) => Some(*v),
        None => None,
    }
}

/// A value that is fresh for `duration` seconds after it was set.
pub struct Cache<T> {
    value: Option<(i64, T)>,
    duration: i64,
}

impl<T> Cache<T> {
    /// The instant the value was set, and the value, if one was set.
    pub closed spec fn entry(&self) -> Option<(i64, T)> {
        self.value
    }

    /// How long a value stays fresh, in seconds.
    pub closed spec fn lifetime(&self) -> i64 {
        self.duration
    }

    /// The value at the instant `now`: present while at most the lifetime
    /// has passed since it was set.
    pub open spec fn value_at(&self, now: int) -> Option<T> {
        match self.entry() {
            Some((set_at, v)) => if now - set_at <= self.lifetime() {
                Some(v)
            } else {
                None
            },
            None => None,
        }
    }

    /// An empty cache whose values stay fresh for `duration` seconds.
    pub fn new(duration: i64) -> (r: Self)
        ensures
            r.entry() is None,
            r.lifetime() == duration,
    {
        Cache { value: None, duration }
    }

    /// The value at the instant `now`: present while at most `duration`
    /// seconds have passed since it was set.
    pub fn get_at(&self, now: i64) -> (r: Option<&T>)
        ensures
            as_value(r) == self.value_at(now as int),
    {
        match &self.value {
            Some((set_at, v)) => {
                if (now as i128) - (*set_at as i128) <= self.duration as i128 {
                    Some(v)
                } else {
                    None
                }
            },
            None => None,
        }
    }

    /// Keeps `value` as set at the instant `now`.
    pub fn set_at(&mut self, value: T, now: i64)
        ensures
            final(self).entry() == Some((now, value)),
            final(self).lifetime() == old(self).lifetime(),
    {
        self.value = Some((now, value));
    }

    /// The value, if it is still fresh by the system clock. `None` when the
    /// clock cannot be read; else what `get_at` gives at the clock's reading.
    pub fn get(&self) -> (r: Option<Option<&T>>)
        ensures
            r matches Some(v) ==> exists|now: int| 0 <= now && as_value(v) == self.value_at(now),
    {
        match unix_now() {
            Some(now) => Some(self.get_at(now)),
            None => None,
        }
    }

    /// Keeps `value`, as set now by the system clock. Returns `false`, and
    /// keeps nothing, when the clock cannot be read.
    pub fn set(&mut self, value: T) -> (stored: bool)
        ensures
            stored ==> (final(self).entry() matches Some((t, v)) && t >= 0 && v == value),
            !stored ==> final(self).entry() == old(self).entry(),
            final(self).lifetime() == old(self).lifetime(),
    {
        match unix_now() {
            Some(now) => {
                self.set_at(value, now);
                true
            },
            None => false,
        }
    }
}

} // verus!
