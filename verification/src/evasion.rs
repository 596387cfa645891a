//! The blocklists, the rewritable ranges, and the free neighbour of each
//! blocked address.

use crate::ranges;
use crate::ranges::containing;
use std::collections::{HashMap, HashSet};
use std::hash::Hash;
use vstd::prelude::*;

verus! {

/// How far from a blocked IPv4 address the search for a neighbour goes.
pub const REACH_V4: u32 = 65_536;
/// How far from a blocked IPv6 address the search for a neighbour goes.
pub const REACH_V6: u128 = 1024;

/// Whether `candidate` may stand in for a blocked address of `range`: it lies
/// in the range, is not blocked, and is neither the first nor the last address
/// of its block of 256.
pub open spec fn free_v4(range: (u32, u32), blocked: Set<u32>, candidate: int) -> bool {
    &&& range.0 <= candidate <= range.1
    &&& 1 <= candidate % 256 <= 254
    &&& !blocked.contains(candidate as u32)
}

/// Whether `candidate` may stand in for a blocked address of `range`.
pub open spec fn free_v6(range: (u128, u128), blocked: Set<u128>, candidate: int) -> bool {
    &&& range.0 <= candidate <= range.1
    &&& !blocked.contains(candidate as u128)
}

/// The first free address among `ip + k`, `ip - k`, `ip + k + 1`, ... below the
/// distance `limit`; with `same_block`, only inside the block of 256 of `ip`.
pub open spec fn nearest_v4(
    ip: u32,
    range: (u32, u32),
    blocked: Set<u32>,
    same_block: bool,
    k: nat,
    limit: nat,
) -> Option<u32>
    decreases limit - k,
{
    let fits = |candidate: int|
        free_v4(range, blocked, candidate) && (same_block ==> candidate / 256 == ip as int / 256);
    if k >= limit {
        None
    } else if fits(ip + k) {
        Some((ip + k) as u32)
    } else if fits(ip - k) {
        Some((ip - k) as u32)
    } else {
        nearest_v4(ip, range, blocked, same_block, k + 1, limit)
    }
}

/// The first free address among `ip + k`, `ip - k`, `ip + k + 1`, ... below the
/// distance `limit`.
pub open spec fn nearest_v6(
    ip: u128,
    range: (u128, u128),
    blocked: Set<u128>,
    k: nat,
    limit: nat,
) -> Option<u128>
    decreases limit - k,
{
    if k >= limit {
        None
    } else if free_v6(range, blocked, ip + k) {
        Some((ip + k) as u128)
    } else if free_v6(range, blocked, ip - k) {
        Some((ip - k) as u128)
    } else {
        nearest_v6(ip, range, blocked, k + 1, limit)
    }
}

/// How far the search around an address of `range` goes when its own block is
/// full.
pub open spec fn wide_limit(range: (u32, u32)) -> nat {
    if range.1 - range.0 + 1 < REACH_V4 {
        (range.1 - range.0 + 1) as nat
    } else {
        REACH_V4 as nat
    }
}

/// The neighbour of an IPv4 address: the nearest free one of its own block of
/// 256, else the nearest free one of its range within reach. `None` outside
/// the rewritable ranges and where all is taken.
pub open spec fn neighbour_v4(
    ip: u32,
    cf_v4: Seq<(u32, u32)>,
    blocked: Set<u32>,
) -> Option<u32> {
    match ranges::range_of(cf_v4, ip) {
        None => None,
        Some(range) => match nearest_v4(ip, range, blocked, true, 1, 255) {
            Some(found) => Some(found),
            None => nearest_v4(ip, range, blocked, false, 1, wide_limit(range)),
        },
    }
}

/// The neighbour of an IPv6 address: the nearest free one of its range within
/// reach.
pub open spec fn neighbour_v6(
    ip: u128,
    cf_v6: Seq<(u128, u128)>,
    blocked: Set<u128>,
) -> Option<u128> {
    match ranges::range_of(cf_v6, ip) {
        None => None,
        Some(range) => nearest_v6(ip, range, blocked, 1, REACH_V6 as nat),
    }
}

proof fn lemma_nearest_v4(
    ip: u32,
    range: (u32, u32),
    blocked: Set<u32>,
    same_block: bool,
    k: nat,
    limit: nat,
)
    requires
        0 < k,
    ensures
        match nearest_v4(ip, range, blocked, same_block, k, limit) {
            Some(found) => free_v4(range, blocked, found as int) && found != ip && (same_block
                ==> found as int / 256 == ip as int / 256),
            None => forall|candidate: int|
                #![trigger free_v4(range, blocked, candidate)]
                (k <= candidate - ip < limit || k <= ip - candidate < limit) && (same_block
                    ==> candidate / 256 == ip as int / 256) ==> !free_v4(range, blocked, candidate),
        },
    decreases limit - k,
{
    if k < limit {
        lemma_nearest_v4(ip, range, blocked, same_block, k + 1, limit);
    }
}

proof fn lemma_nearest_v6(
    ip: u128,
    range: (u128, u128),
    blocked: Set<u128>,
    k: nat,
    limit: nat,
)
    requires
        0 < k,
    ensures
        match nearest_v6(ip, range, blocked, k, limit) {
            Some(found) => free_v6(range, blocked, found as int) && found != ip,
            None => forall|candidate: int|
                #![trigger free_v6(range, blocked, candidate)]
                (k <= candidate - ip < limit || k <= ip - candidate < limit) ==> !free_v6(
                    range,
                    blocked,
                    candidate,
                ),
        },
    decreases limit - k,
{
    if k < limit {
        lemma_nearest_v6(ip, range, blocked, k + 1, limit);
    }
}

/// The neighbour of an IPv4 address is another address of the same rewritable
/// range that is not blocked and neither starts nor closes a block of 256.
/// There is one whenever the address lies in a rewritable range that has such
/// an address within reach.
pub proof fn law_neighbour_v4(ip: u32, cf_v4: Seq<(u32, u32)>, blocked: Set<u32>)
    ensures
        match neighbour_v4(ip, cf_v4, blocked) {
            Some(found) => {
                &&& found != ip
                &&& !blocked.contains(found)
                &&& 1 <= found % 256 <= 254
                &&& ranges::range_of(cf_v4, ip) is Some
                &&& ranges::within(ranges::range_of(cf_v4, ip)->0, ip)
                &&& ranges::within(ranges::range_of(cf_v4, ip)->0, found)
            },
            None => ranges::range_of(cf_v4, ip) is Some ==> forall|candidate: int|
                #![trigger free_v4(ranges::range_of(cf_v4, ip)->0, blocked, candidate)]
                candidate != ip && -REACH_V4 < candidate - ip < REACH_V4 ==> !free_v4(
                    ranges::range_of(cf_v4, ip)->0,
                    blocked,
                    candidate,
                ),
        },
{
    if ranges::range_of(cf_v4, ip) is Some {
        let range = ranges::range_of(cf_v4, ip)->0;
        ranges::lemma_range_of_within(cf_v4, ip);
        lemma_nearest_v4(ip, range, blocked, true, 1, 255);
        lemma_nearest_v4(ip, range, blocked, false, 1, wide_limit(range));
    }
}

/// The neighbour of an IPv6 address is another address of the same rewritable
/// range that is not blocked, and there is one whenever the range has such an
/// address within reach.
pub proof fn law_neighbour_v6(ip: u128, cf_v6: Seq<(u128, u128)>, blocked: Set<u128>)
    ensures
        match neighbour_v6(ip, cf_v6, blocked) {
            Some(found) => {
                &&& found != ip
                &&& !blocked.contains(found)
                &&& ranges::range_of(cf_v6, ip) is Some
                &&& ranges::within(ranges::range_of(cf_v6, ip)->0, ip)
                &&& ranges::within(ranges::range_of(cf_v6, ip)->0, found)
            },
            None => ranges::range_of(cf_v6, ip) is Some ==> forall|candidate: int|
                #![trigger free_v6(ranges::range_of(cf_v6, ip)->0, blocked, candidate)]
                candidate != ip && -REACH_V6 < candidate - ip < REACH_V6 ==> !free_v6(
                    ranges::range_of(cf_v6, ip)->0,
                    blocked,
                    candidate,
                ),
        },
{
    if ranges::range_of(cf_v6, ip) is Some {
        let range = ranges::range_of(cf_v6, ip)->0;
        ranges::lemma_range_of_within(cf_v6, ip);
        lemma_nearest_v6(ip, range, blocked, 1, REACH_V6 as nat);
    }
}

fn is_free_v4(range: (u32, u32), blocked: &HashSet<u32>, candidate: u32) -> (answer: bool)
    ensures
        answer == free_v4(range, blocked@, candidate as int),
{
    let last: u32 = candidate % 256;
    candidate >= range.0 && candidate <= range.1 && last >= 1 && last <= 254
        && !blocked.contains(&candidate)
}

/// Searches the addresses around `ip`, nearest first.
fn find_nearest_v4(
    ip: u32,
    range: (u32, u32),
    blocked: &HashSet<u32>,
    same_block: bool,
    limit: u32,
) -> (found: Option<u32>)
    ensures
        found == nearest_v4(ip, range, blocked@, same_block, 1, limit as nat),
{
    let mut k: u32 = 1;
    while k < limit
        invariant
            0 < k,
            nearest_v4(ip, range, blocked@, same_block, 1, limit as nat) == nearest_v4(
                ip,
                range,
                blocked@,
                same_block,
                k as nat,
                limit as nat,
            ),
        decreases limit - k,
    {
        if let Some(above) = ip.checked_add(k) {
            if (!same_block || above / 256 == ip / 256) && is_free_v4(range, blocked, above) {
                return Some(above);
            }
        }
        if let Some(below) = ip.checked_sub(k) {
            if (!same_block || below / 256 == ip / 256) && is_free_v4(range, blocked, below) {
                return Some(below);
            }
        }
        k = k + 1;
    }
    None
}

/// Finds the neighbour of an IPv4 address.
pub fn scan_evasive_v4(ip: u32, cf_v4: &[(u32, u32)], blocked_v4: &HashSet<u32>) -> (found: Option<
    u32,
>)
    requires
        ranges::by_start(cf_v4@),
    ensures
        found == neighbour_v4(ip, cf_v4@, blocked_v4@),
{
    let range: (u32, u32) = match containing(cf_v4, ip) {
        Some(range) => range,
        None => {
            return None;
        },
    };
    if let Some(found) = find_nearest_v4(ip, range, blocked_v4, true, 255) {
        return Some(found);
    }
    let span: u32 = range.1 - range.0;
    let limit: u32 = if span < REACH_V4 {
        span + 1
    } else {
        REACH_V4
    };
    find_nearest_v4(ip, range, blocked_v4, false, limit)
}

/// Finds the neighbour of an IPv6 address.
pub fn scan_evasive_v6(ip: u128, cf_v6: &[(u128, u128)], blocked_v6: &HashSet<u128>) -> (found:
    Option<u128>)
    requires
        ranges::by_start(cf_v6@),
    ensures
        found == neighbour_v6(ip, cf_v6@, blocked_v6@),
{
    let range: (u128, u128) = match containing(cf_v6, ip) {
        Some(range) => range,
        None => {
            return None;
        },
    };
    let mut k: u128 = 1;
    while k < REACH_V6
        invariant
            0 < k,
            ranges::range_of(cf_v6@, ip) == Some(range),
            nearest_v6(ip, range, blocked_v6@, 1, REACH_V6 as nat) == nearest_v6(
                ip,
                range,
                blocked_v6@,
                k as nat,
                REACH_V6 as nat,
            ),
        decreases REACH_V6 - k,
    {
        if let Some(above) = ip.checked_add(k) {
            if above >= range.0 && above <= range.1 && !blocked_v6.contains(&above) {
                return Some(above);
            }
        }
        if let Some(below) = ip.checked_sub(k) {
            if below >= range.0 && below <= range.1 && !blocked_v6.contains(&below) {
                return Some(below);
            }
        }
        k = k + 1;
    }
    None
}

/// Copies a set of keys.
pub(crate) fn copy_set<K: Copy + Eq + Hash>(set: &HashSet<K>) -> (copy: HashSet<K>)
    requires
        vstd::std_specs::hash::obeys_key_model::<K>(),
    ensures
        copy@ == set@,
{
    let mut copy: HashSet<K> = HashSet::new();
    for key in it: set.iter()
        invariant
            vstd::std_specs::hash::obeys_key_model::<K>(),
            it.seq().unref().to_set() == set@,
            forall|k: K|
                copy@.contains(k) <==> exists|i: int|
                    0 <= i < it.index() && #[trigger] it.seq().unref()[i] == k,
    {
        let ghost keys = it.seq().unref();
        let ghost done = it.index() as int;
        assert(keys[done] == *key);
        copy.insert(*key);
        assert forall|k: K| copy@.contains(k) <==> exists|i: int|
            0 <= i < done + 1 && #[trigger] keys[i] == k by {
            if k == *key {
                assert(keys[done] == k);
            }
        }
    }
    proof {
        assert(copy@ =~= set@);
    }
    copy
}

/// The neighbour of each address of `blocked` that has one.
fn neighbours_v4(cf_v4: &Vec<(u32, u32)>, blocked: &HashSet<u32>) -> (map: HashMap<u32, u32>)
    requires
        ranges::by_start(cf_v4@),
    ensures
        forall|ip: u32|
            #![trigger map@.contains_key(ip)]
            map@.contains_key(ip) == (blocked@.contains(ip) && neighbour_v4(
                ip,
                cf_v4@,
                blocked@,
            ) is Some),
        forall|ip: u32| #[trigger]
            map@.contains_key(ip) ==> Some(map@[ip]) == neighbour_v4(ip, cf_v4@, blocked@),
{
    let mut map: HashMap<u32, u32> = HashMap::new();
    for key in it: blocked.iter()
        invariant
            ranges::by_start(cf_v4@),
            it.seq().unref().to_set() == blocked@,
            forall|ip: u32|
                #![trigger map@.contains_key(ip)]
                map@.contains_key(ip) == ((exists|i: int|
                    0 <= i < it.index() && #[trigger] it.seq().unref()[i] == ip) && neighbour_v4(
                    ip,
                    cf_v4@,
                    blocked@,
                ) is Some),
            forall|ip: u32| #[trigger]
                map@.contains_key(ip) ==> Some(map@[ip]) == neighbour_v4(ip, cf_v4@, blocked@),
    {
        let ghost keys = it.seq().unref();
        let ghost done = it.index() as int;
        let ghost before = map@;
        assert(keys[done] == *key);
        if let Some(found) = scan_evasive_v4(*key, cf_v4.as_slice(), blocked) {
            map.insert(*key, found);
        }
        assert forall|ip: u32| #[trigger] map@.contains_key(ip) == ((exists|i: int|
            0 <= i < done + 1 && #[trigger] keys[i] == ip) && neighbour_v4(
            ip,
            cf_v4@,
            blocked@,
        ) is Some) by {
            if ip == *key {
                assert(keys[done] == ip);
            } else {
                assert(map@.contains_key(ip) == before.contains_key(ip));
            }
        }
    }
    assert forall|ip: u32| #[trigger] map@.contains_key(ip) == (blocked@.contains(ip)
        && neighbour_v4(ip, cf_v4@, blocked@) is Some) by {
    }
    map
}

/// The neighbour of each address of `blocked` that has one.
fn neighbours_v6(cf_v6: &Vec<(u128, u128)>, blocked: &HashSet<u128>) -> (map: HashMap<u128, u128>)
    requires
        ranges::by_start(cf_v6@),
    ensures
        forall|ip: u128|
            #![trigger map@.contains_key(ip)]
            map@.contains_key(ip) == (blocked@.contains(ip) && neighbour_v6(
                ip,
                cf_v6@,
                blocked@,
            ) is Some),
        forall|ip: u128| #[trigger]
            map@.contains_key(ip) ==> Some(map@[ip]) == neighbour_v6(ip, cf_v6@, blocked@),
{
    let mut map: HashMap<u128, u128> = HashMap::new();
    for key in it: blocked.iter()
        invariant
            ranges::by_start(cf_v6@),
            it.seq().unref().to_set() == blocked@,
            forall|ip: u128|
                #![trigger map@.contains_key(ip)]
                map@.contains_key(ip) == ((exists|i: int|
                    0 <= i < it.index() && #[trigger] it.seq().unref()[i] == ip) && neighbour_v6(
                    ip,
                    cf_v6@,
                    blocked@,
                ) is Some),
            forall|ip: u128| #[trigger]
                map@.contains_key(ip) ==> Some(map@[ip]) == neighbour_v6(ip, cf_v6@, blocked@),
    {
        let ghost keys = it.seq().unref();
        let ghost done = it.index() as int;
        let ghost before = map@;
        assert(keys[done] == *key);
        if let Some(found) = scan_evasive_v6(*key, cf_v6.as_slice(), blocked) {
            map.insert(*key, found);
        }
        assert forall|ip: u128| #[trigger] map@.contains_key(ip) == ((exists|i: int|
            0 <= i < done + 1 && #[trigger] keys[i] == ip) && neighbour_v6(
            ip,
            cf_v6@,
            blocked@,
        ) is Some) by {
            if ip == *key {
                assert(keys[done] == ip);
            } else {
                assert(map@.contains_key(ip) == before.contains_key(ip));
            }
        }
    }
    assert forall|ip: u128| #[trigger] map@.contains_key(ip) == (blocked@.contains(ip)
        && neighbour_v6(ip, cf_v6@, blocked@) is Some) by {
    }
    map
}

/// The lists as they were last loaded.
pub struct Data {
    /// IPv4 addresses that the operator cuts off.
    pub blocked_v4: HashSet<u32>,
    /// IPv6 addresses that the operator cuts off.
    pub blocked_v6: HashSet<u128>,
    /// Rewritable IPv4 ranges, in order.
    pub cf_v4: Vec<(u32, u32)>,
    /// Rewritable IPv6 ranges, in order.
    pub cf_v6: Vec<(u128, u128)>,
    /// The neighbour of each blocked IPv4 address that has one.
    pub evasion_v4: HashMap<u32, u32>,
    /// The neighbour of each blocked IPv6 address that has one.
    pub evasion_v6: HashMap<u128, u128>,
}

impl Data {
    /// The ranges come in order, and the neighbours are those of the lists.
    pub open spec fn wf(self) -> bool {
        &&& ranges::by_start(self.cf_v4@)
        &&& ranges::by_start(self.cf_v6@)
        &&& forall|ip: u32|
            #![trigger self.evasion_v4@.contains_key(ip)]
            #![trigger self.replacement_v4(ip)]
            self.evasion_v4@.contains_key(ip) == (self.replacement_v4(ip) is Some)
        &&& forall|ip: u32| #[trigger]
            self.evasion_v4@.contains_key(ip) ==> Some(self.evasion_v4@[ip])
                == self.replacement_v4(ip)
        &&& forall|ip: u128|
            #![trigger self.evasion_v6@.contains_key(ip)]
            #![trigger self.replacement_v6(ip)]
            self.evasion_v6@.contains_key(ip) == (self.replacement_v6(ip) is Some)
        &&& forall|ip: u128| #[trigger]
            self.evasion_v6@.contains_key(ip) ==> Some(self.evasion_v6@[ip])
                == self.replacement_v6(ip)
    }

    /// What a blocked IPv4 address is replaced by, if by anything.
    pub open spec fn replacement_v4(self, ip: u32) -> Option<u32> {
        if self.blocked_v4@.contains(ip) {
            neighbour_v4(ip, self.cf_v4@, self.blocked_v4@)
        } else {
            None
        }
    }

    /// What a blocked IPv6 address is replaced by, if by anything.
    pub open spec fn replacement_v6(self, ip: u128) -> Option<u128> {
        if self.blocked_v6@.contains(ip) {
            neighbour_v6(ip, self.cf_v6@, self.blocked_v6@)
        } else {
            None
        }
    }

    /// Takes the lists and works out the neighbour of every blocked address.
    pub fn new(
        blocked_v4: HashSet<u32>,
        blocked_v6: HashSet<u128>,
        cf_v4: Vec<(u32, u32)>,
        cf_v6: Vec<(u128, u128)>,
    ) -> (data: Data)
        requires
            ranges::by_start(cf_v4@),
            ranges::by_start(cf_v6@),
        ensures
            data.wf(),
            data.blocked_v4@ == blocked_v4@,
            data.blocked_v6@ == blocked_v6@,
            data.cf_v4@ == cf_v4@,
            data.cf_v6@ == cf_v6@,
    {
        let evasion_v4: HashMap<u32, u32> = neighbours_v4(&cf_v4, &blocked_v4);
        let evasion_v6: HashMap<u128, u128> = neighbours_v6(&cf_v6, &blocked_v6);
        Data { blocked_v4, blocked_v6, cf_v4, cf_v6, evasion_v4, evasion_v6 }
    }

    /// What an IPv4 address is replaced by.
    pub fn evasive_v4(&self, ip: u32) -> (found: Option<u32>)
        requires
            self.wf(),
        ensures
            found == self.replacement_v4(ip),
    {
        match self.evasion_v4.get(&ip) {
            Some(found) => Some(*found),
            None => None,
        }
    }

    /// What an IPv6 address is replaced by.
    pub fn evasive_v6(&self, ip: u128) -> (found: Option<u128>)
        requires
            self.wf(),
        ensures
            found == self.replacement_v6(ip),
    {
        match self.evasion_v6.get(&ip) {
            Some(found) => Some(*found),
            None => None,
        }
    }
}

impl Default for Data {
    /// Empty lists.
    fn default() -> (data: Data)
        ensures
            data.wf(),
            data.blocked_v4@ == Set::<u32>::empty(),
            data.blocked_v6@ == Set::<u128>::empty(),
            data.cf_v4@ == Seq::<(u32, u32)>::empty(),
            data.cf_v6@ == Seq::<(u128, u128)>::empty(),
    {
        Data::new(HashSet::new(), HashSet::new(), Vec::new(), Vec::new())
    }
}

} // verus!
