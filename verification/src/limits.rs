//! Bounds on the queries that may wait on the upstream resolver at once.

use crate::text;
use crate::text::{chars_of, parse_unsigned, trim};
use std::sync::Arc;
use tokio::sync::{OwnedSemaphorePermit, Semaphore};
use vstd::prelude::*;

verus! {

/// UDP queries that may wait at once, unless set otherwise.
pub const DEFAULT_MAX_INFLIGHT_UDP: usize = 4096;
/// TCP connections that may be served at once, unless set otherwise.
pub const DEFAULT_MAX_INFLIGHT_TCP: usize = 1024;

/// The counting semaphore of tokio. Its permits change hands between tasks, so
/// that nothing is known here of how many are left.
#[verifier::external_type_specification]
#[verifier::external_body]
pub struct ExSemaphore(Semaphore);

/// A permit of such a semaphore, which goes back to it when it is dropped.
#[verifier::external_type_specification]
#[verifier::external_body]
pub struct ExOwnedSemaphorePermit(OwnedSemaphorePermit);

/// The number of permits that a semaphore was made with, the argument of
/// `tokio::sync::Semaphore::new`. It stays the same, however many are left.
pub uninterp spec fn permits_made(semaphore: Semaphore) -> nat;

/// Wraps `tokio::sync::Semaphore::new`, which panics above its greatest number
/// of permits, an eighth of the range of `usize`. The semaphore is made with the
/// given number of permits. Nothing is claimed of how many it has later: that is
/// shared state.
#[verifier::external_body]
fn new_semaphore(permits: usize) -> (semaphore: Semaphore)
    requires
        permits <= usize::MAX / 8,
    ensures
        permits_made(semaphore) == permits,
{
    Semaphore::new(permits)
}

/// Whether `tokio::sync::Semaphore::available_permits` has at some time given
/// `available` as the number of permits that are left in the semaphore.
pub uninterp spec fn reported(semaphore: Semaphore, available: usize) -> bool;

/// Wraps `tokio::sync::Semaphore::available_permits`. The number is one that the
/// given semaphore has reported. Nothing is claimed of which one: that depends on
/// which tasks hold permits at that moment.
#[verifier::external_body]
fn available_permits(semaphore: &Semaphore) -> (permits: usize)
    ensures
        reported(*semaphore, permits),
{
    semaphore.available_permits()
}

/// The semaphore that a permit was taken from, as
/// `tokio::sync::OwnedSemaphorePermit::semaphore` gives it.
pub uninterp spec fn semaphore_of(permit: OwnedSemaphorePermit) -> Semaphore;

/// Whether `tokio::sync::Semaphore::try_acquire_owned` has at some time refused a
/// permit of the semaphore.
pub uninterp spec fn refused(semaphore: Semaphore) -> bool;

/// Wraps `tokio::sync::Semaphore::try_acquire_owned`, which takes a permit where
/// one is left, without waiting. A permit that it gives was taken from the given
/// semaphore; where it gives none, that semaphore has refused one. Nothing is
/// claimed of which of the two happens: that depends on which tasks hold permits
/// at that moment.
#[verifier::external_body]
pub(crate) fn try_acquire(semaphore: &Arc<Semaphore>) -> (permit: Option<OwnedSemaphorePermit>)
    ensures
        permit matches Some(permit) ==> semaphore_of(permit) == **semaphore,
        permit is None ==> refused(**semaphore),
{
    semaphore.clone().try_acquire_owned().ok()
}

/// The two bounds, and the permits that queries hold while they wait.
pub struct Limits {
    pub udp: Arc<Semaphore>,
    pub tcp: Arc<Semaphore>,
    pub max_udp: usize,
    pub max_tcp: usize,
}

/// How many of `max` permits are out when `available` are left.
pub fn in_flight(max: usize, available: usize) -> (count: usize)
    requires
        available <= max,
    ensures
        count == max - available,
{
    max - available
}

/// How many of `max` permits are out when `available` are left; `None` where more
/// are left than were made.
pub fn permits_out(max: usize, available: usize) -> (count: Option<usize>)
    ensures
        match count {
            Some(count) => available <= max && count == max - available,
            None => available > max,
        },
{
    if available <= max {
        Some(in_flight(max, available))
    } else {
        None
    }
}

/// Whether `count` is what comes of a number that the semaphore has reported: how
/// many of `max` permits are out, or `None` where more are left than were made.
pub open spec fn told(semaphore: Semaphore, max: usize, count: Option<usize>) -> bool {
    exists|available: usize| #[trigger]
        reported(semaphore, available) && match count {
            Some(count) => available <= max && count == max - available,
            None => available > max,
        }
}

/// The number that a setting gives, after trimming: `default` where the setting
/// is absent, no number of its kind, or zero.
pub open spec fn limit_of(value: Option<&str>, default: nat) -> nat {
    match value {
        Some(value) => match text::unsigned(text::trimmed(value@), usize::MAX as nat) {
            Some(limit) => if limit > 0 {
                limit
            } else {
                default
            },
            None => default,
        },
        None => default,
    }
}

/// Reads a bound from the text of a setting.
pub fn limit_value(value: Option<&str>, default: usize) -> (limit: usize)
    ensures
        limit == limit_of(value, default as nat),
{
    if let Some(value) = value {
        let chars: Vec<char> = chars_of(value);
        if let Some(limit) = parse_unsigned(trim(chars.as_slice()), usize::MAX as u64) {
            if limit > 0 {
                return limit as usize;
            }
        }
    }
    default
}

impl Limits {
    /// Each semaphore was made with as many permits as its bound says.
    pub open spec fn as_made(self) -> bool {
        &&& permits_made(*self.udp) == self.max_udp
        &&& permits_made(*self.tcp) == self.max_tcp
    }

    /// Makes the permits for the two bounds.
    pub fn new(max_udp: usize, max_tcp: usize) -> (limits: Limits)
        requires
            max_udp <= usize::MAX / 8,
            max_tcp <= usize::MAX / 8,
        ensures
            limits.max_udp == max_udp,
            limits.max_tcp == max_tcp,
            limits.as_made(),
    {
        Limits {
            udp: Arc::new(new_semaphore(max_udp)),
            tcp: Arc::new(new_semaphore(max_tcp)),
            max_udp,
            max_tcp,
        }
    }

    /// Makes the permits for the bounds that two settings give.
    pub fn from_settings(udp: Option<&str>, tcp: Option<&str>) -> (limits: Limits)
        requires
            limit_of(udp, DEFAULT_MAX_INFLIGHT_UDP as nat) <= usize::MAX / 8,
            limit_of(tcp, DEFAULT_MAX_INFLIGHT_TCP as nat) <= usize::MAX / 8,
        ensures
            limits.max_udp == limit_of(udp, DEFAULT_MAX_INFLIGHT_UDP as nat),
            limits.max_tcp == limit_of(tcp, DEFAULT_MAX_INFLIGHT_TCP as nat),
            limits.as_made(),
    {
        Limits::new(
            limit_value(udp, DEFAULT_MAX_INFLIGHT_UDP),
            limit_value(tcp, DEFAULT_MAX_INFLIGHT_TCP),
        )
    }

    /// How many UDP queries wait; `None` where more permits are left than were
    /// made, which takes someone to have added some.
    pub fn inflight_udp(&self) -> (count: Option<usize>)
        ensures
            told(*self.udp, self.max_udp, count),
    {
        permits_out(self.max_udp, available_permits(&self.udp))
    }

    /// How many TCP connections are served; `None` where more permits are left
    /// than were made, which takes someone to have added some.
    pub fn inflight_tcp(&self) -> (count: Option<usize>)
        ensures
            told(*self.tcp, self.max_tcp, count),
    {
        permits_out(self.max_tcp, available_permits(&self.tcp))
    }
}

impl Default for Limits {
    fn default() -> (limits: Limits)
        ensures
            limits.max_udp == DEFAULT_MAX_INFLIGHT_UDP,
            limits.max_tcp == DEFAULT_MAX_INFLIGHT_TCP,
            limits.as_made(),
    {
        Limits::new(DEFAULT_MAX_INFLIGHT_UDP, DEFAULT_MAX_INFLIGHT_TCP)
    }
}

} // verus!
