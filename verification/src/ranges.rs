//! Ranges of IP addresses, both ends included.

use vstd::prelude::*;

verus! {

/// An IP address of one family, as the number that it stands for.
pub trait Address: Copy + Sized {
    /// The number.
    spec fn value(self) -> nat;

    /// The number of the last address of the family.
    spec fn top() -> nat;

    proof fn lemma_bounded(self)
        ensures
            self.value() <= Self::top(),
    ;

    proof fn lemma_determined(self, other: Self)
        requires
            self.value() == other.value(),
        ensures
            self == other,
    ;

    /// The next address, if there is one.
    fn checked_add_one(self) -> (next: Option<Self>)
        ensures
            match next {
                Some(next) => next.value() == self.value() + 1,
                None => self.value() == Self::top(),
            },
    ;

    /// Whether this address is the other one or comes before it.
    fn at_most(self, other: Self) -> (answer: bool)
        ensures
            answer == (self.value() <= other.value()),
    ;
}

impl Address for u32 {
    open spec fn value(self) -> nat {
        self as nat
    }

    open spec fn top() -> nat {
        u32::MAX as nat
    }

    proof fn lemma_bounded(self) {
    }

    proof fn lemma_determined(self, other: Self) {
    }

    fn checked_add_one(self) -> (next: Option<Self>) {
        self.checked_add(1)
    }

    fn at_most(self, other: Self) -> (answer: bool) {
        self <= other
    }
}

impl Address for u128 {
    open spec fn value(self) -> nat {
        self as nat
    }

    open spec fn top() -> nat {
        u128::MAX as nat
    }

    proof fn lemma_bounded(self) {
    }

    proof fn lemma_determined(self, other: Self) {
    }

    fn checked_add_one(self) -> (next: Option<Self>) {
        self.checked_add(1)
    }

    fn at_most(self, other: Self) -> (answer: bool) {
        self <= other
    }
}

/// Whether `range` holds `address`.
pub open spec fn within<T: Address>(range: (T, T), address: T) -> bool {
    range.0.value() <= address.value() <= range.1.value()
}

/// Whether one of the ranges holds `address`.
pub open spec fn covers<T: Address>(ranges: Seq<(T, T)>, address: T) -> bool {
    exists|i: int| 0 <= i < ranges.len() && within(#[trigger] ranges[i], address)
}

/// Whether every range runs from its first to its last address.
pub open spec fn upward<T: Address>(ranges: Seq<(T, T)>) -> bool {
    forall|i: int| 0 <= i < ranges.len() ==> (#[trigger] ranges[i]).0.value() <= ranges[i].1.value()
}

/// Whether the ranges come in the order of their first addresses.
pub open spec fn by_start<T: Address>(ranges: Seq<(T, T)>) -> bool {
    forall|i: int, j: int|
        0 <= i <= j < ranges.len() ==> (#[trigger] ranges[i]).0.value() <= (
        #[trigger] ranges[j]).0.value()
}

/// Whether between any two ranges there is an address that neither holds, the
/// earlier range coming first.
pub open spec fn separated<T: Address>(ranges: Seq<(T, T)>) -> bool {
    forall|i: int, j: int|
        0 <= i < j < ranges.len() ==> (#[trigger] ranges[i]).1.value() + 1 < (
        #[trigger] ranges[j]).0.value()
}

/// The order of ranges: by the first address, then by the last one.
pub open spec fn range_order<T: Address>() -> spec_fn((T, T), (T, T)) -> bool {
    |a: (T, T), b: (T, T)| range_le(a, b)
}

pub open spec fn range_le<T: Address>(a: (T, T), b: (T, T)) -> bool {
    a.0.value() < b.0.value() || (a.0.value() == b.0.value() && a.1.value() <= b.1.value())
}

/// Whether `next` overlaps `last` or follows it without a gap, given that it
/// does not start before it.
pub open spec fn touches<T: Address>(last: (T, T), next: (T, T)) -> bool {
    next.0.value() <= last.1.value() + 1
}

/// The ranges with each one that touches the one before it joined to it.
pub open spec fn joined<T: Address>(ranges: Seq<(T, T)>) -> Seq<(T, T)>
    decreases ranges.len(),
{
    if ranges.len() == 0 {
        Seq::empty()
    } else {
        let done = joined(ranges.drop_last());
        let next = ranges.last();
        if done.len() > 0 && touches(done.last(), next) {
            if next.1.value() > done.last().1.value() {
                done.drop_last().push((done.last().0, next.1))
            } else {
                done
            }
        } else {
            done.push(next)
        }
    }
}

/// What merging a list of ranges gives.
pub open spec fn merged<T: Address>(ranges: Seq<(T, T)>) -> Seq<(T, T)> {
    joined(ranges.sort_by(range_order::<T>()))
}

/// The last range that starts at or before `address`, if it reaches that far.
pub open spec fn range_of<T: Address>(ranges: Seq<(T, T)>, address: T) -> Option<(T, T)>
    decreases ranges.len(),
{
    if ranges.len() == 0 {
        None
    } else if ranges.last().0.value() <= address.value() {
        if address.value() <= ranges.last().1.value() {
            Some(ranges.last())
        } else {
            None
        }
    } else {
        range_of(ranges.drop_last(), address)
    }
}

pub proof fn lemma_range_order_total<T: Address>()
    ensures
        vstd::relations::total_ordering(range_order::<T>()),
{
    let order = range_order::<T>();
    assert forall|a: (T, T), b: (T, T)| #[trigger] order(a, b) && #[trigger] order(b, a) implies a
        == b by {
        a.0.lemma_determined(b.0);
        a.1.lemma_determined(b.1);
    }
}

proof fn lemma_joined_by_start<T: Address>(ranges: Seq<(T, T)>)
    requires
        by_start(ranges),
    ensures
        by_start(joined(ranges)),
        ranges.len() > 0 ==> joined(ranges).len() > 0 && joined(ranges).last().0.value()
            <= ranges.last().0.value(),
    decreases ranges.len(),
{
    if ranges.len() > 0 {
        let init = ranges.drop_last();
        assert(by_start(init));
        lemma_joined_by_start(init);
        if init.len() > 0 {
            assert(init.last() == ranges[ranges.len() - 2]);
            assert(ranges.last() == ranges[ranges.len() - 1]);
        }
    }
}

proof fn lemma_joined<T: Address>(ranges: Seq<(T, T)>)
    requires
        by_start(ranges),
        upward(ranges),
    ensures
        by_start(joined(ranges)),
        upward(joined(ranges)),
        separated(joined(ranges)),
        forall|address: T|
            #![trigger covers(joined(ranges), address)]
            #![trigger covers(ranges, address)]
            covers(joined(ranges), address) <==> covers(ranges, address),
    decreases ranges.len(),
{
    lemma_joined_by_start(ranges);
    if ranges.len() > 0 {
        let init = ranges.drop_last();
        let next = ranges.last();
        assert(by_start(init));
        assert(upward(init));
        lemma_joined(init);
        lemma_joined_by_start(init);
        let done = joined(init);
        let out = joined(ranges);
        if init.len() > 0 {
            assert(init.last() == ranges[ranges.len() - 2]);
        }
        assert(next == ranges[ranges.len() - 1]);
        assert forall|address: T| covers(out, address) <==> covers(ranges, address) by {
            if covers(ranges, address) {
                let i = choose|i: int| 0 <= i < ranges.len() && within(#[trigger] ranges[i], address);
                if i < ranges.len() - 1 {
                    assert(init[i] == ranges[i]);
                    assert(covers(init, address));
                    let k = choose|k: int| 0 <= k < done.len() && within(#[trigger] done[k], address);
                    assert(within(out[k], address));
                } else {
                    assert(within(out[out.len() - 1], address));
                }
            }
            if covers(out, address) {
                let k = choose|k: int| 0 <= k < out.len() && within(#[trigger] out[k], address);
                if k < done.len() && within(done[k], address) {
                    assert(covers(done, address));
                    let i = choose|i: int| 0 <= i < init.len() && within(#[trigger] init[i], address);
                    assert(ranges[i] == init[i]);
                } else {
                    assert(within(ranges[ranges.len() - 1], address));
                }
            }
        }
    }
}

proof fn lemma_sorted<T: Address>(ranges: Seq<(T, T)>)
    ensures
        by_start(ranges.sort_by(range_order::<T>())),
        upward(ranges) ==> upward(ranges.sort_by(range_order::<T>())),
        forall|address: T|
            #![trigger covers(ranges, address)]
            #![trigger covers(ranges.sort_by(range_order::<T>()), address)]
            covers(ranges, address) <==> covers(ranges.sort_by(range_order::<T>()), address),
{
    broadcast use vstd::seq_lib::group_to_multiset_ensures;

    let order = range_order::<T>();
    let sorted = ranges.sort_by(order);
    lemma_range_order_total::<T>();
    ranges.lemma_sort_by_ensures(order);
    assert forall|i: int, j: int| 0 <= i <= j < sorted.len() implies (
    #[trigger] sorted[i]).0.value() <= (#[trigger] sorted[j]).0.value() by {
        if i < j {
            assert(order(sorted[i], sorted[j]));
        }
    }
    assert forall|i: int| 0 <= i < sorted.len() implies ranges.contains(#[trigger] sorted[i]) by {
        assert(sorted.contains(sorted[i]));
    }
    assert forall|i: int| 0 <= i < ranges.len() implies sorted.contains(#[trigger] ranges[i]) by {
        assert(ranges.contains(ranges[i]));
        assert(ranges.to_multiset().count(ranges[i]) > 0);
        assert(sorted.to_multiset().count(ranges[i]) > 0);
    }
    if upward(ranges) {
        assert forall|i: int| 0 <= i < sorted.len() implies (#[trigger] sorted[i]).0.value()
            <= sorted[i].1.value() by {
            let k = choose|k: int| 0 <= k < ranges.len() && ranges[k] == sorted[i];
        }
    }
    assert forall|address: T| covers(ranges, address) <==> covers(sorted, address) by {
        if covers(ranges, address) {
            let i = choose|i: int| 0 <= i < ranges.len() && within(#[trigger] ranges[i], address);
            let k = choose|k: int| 0 <= k < sorted.len() && sorted[k] == ranges[i];
            assert(within(sorted[k], address));
        }
        if covers(sorted, address) {
            let i = choose|i: int| 0 <= i < sorted.len() && within(#[trigger] sorted[i], address);
            let k = choose|k: int| 0 <= k < ranges.len() && ranges[k] == sorted[i];
            assert(within(ranges[k], address));
        }
    }
}

/// Merging keeps exactly the addresses of the list. Where every range of the
/// list runs upward, the merged ranges do too, come in order, and have a gap
/// between any two of them.
pub proof fn law_merge_normalizes<T: Address>(ranges: Seq<(T, T)>)
    requires
        upward(ranges),
    ensures
        upward(merged(ranges)),
        by_start(merged(ranges)),
        separated(merged(ranges)),
        forall|address: T|
            #![trigger covers(merged(ranges), address)]
            #![trigger covers(ranges, address)]
            covers(merged(ranges), address) <==> covers(ranges, address),
{
    lemma_sorted(ranges);
    lemma_joined(ranges.sort_by(range_order::<T>()));
}

/// The lookup goes by the last range that starts at or before the address: it finds that
/// range where it reaches as far, and nothing otherwise, even where the ranges overlap.
pub proof fn law_lookup_takes_the_last<T: Address>(ranges: Seq<(T, T)>, address: T, found: (T, T))
    requires
        by_start(ranges),
    ensures
        range_of(ranges, address) == Some(found) <==> exists|k: int|
            0 <= k < ranges.len() && #[trigger] ranges[k] == found && found.0.value()
                <= address.value() <= found.1.value() && forall|j: int|
                k < j < ranges.len() ==> (#[trigger] ranges[j]).0.value() > address.value(),
    decreases ranges.len(),
{
    if ranges.len() > 0 {
        let init = ranges.drop_last();
        let last = ranges.len() - 1;
        assert(by_start(init)) by {
            assert forall|i: int, j: int| 0 <= i <= j < init.len() implies (
            #[trigger] init[i]).0.value() <= (#[trigger] init[j]).0.value() by {
                assert(init[i] == ranges[i] && init[j] == ranges[j]);
            }
        }
        law_lookup_takes_the_last(init, address, found);
        if ranges[last].0.value() > address.value() {
            if range_of(init, address) == Some(found) {
                let k = choose|k: int|
                    0 <= k < init.len() && #[trigger] init[k] == found && found.0.value()
                        <= address.value() <= found.1.value() && forall|j: int|
                        k < j < init.len() ==> (#[trigger] init[j]).0.value() > address.value();
                assert forall|j: int| k < j < ranges.len() implies (#[trigger] ranges[j]).0.value()
                    > address.value() by {
                    if j < last {
                        assert(init[j] == ranges[j]);
                    }
                }
                assert(ranges[k] == found);
            }
            if exists|k: int|
                0 <= k < ranges.len() && #[trigger] ranges[k] == found && found.0.value()
                    <= address.value() <= found.1.value() && forall|j: int|
                    k < j < ranges.len() ==> (#[trigger] ranges[j]).0.value() > address.value() {
                let k = choose|k: int|
                    0 <= k < ranges.len() && #[trigger] ranges[k] == found && found.0.value()
                        <= address.value() <= found.1.value() && forall|j: int|
                        k < j < ranges.len() ==> (#[trigger] ranges[j]).0.value() > address.value();
                assert(init[k] == found);
                assert forall|j: int| k < j < init.len() implies (#[trigger] init[j]).0.value()
                    > address.value() by {
                    assert(init[j] == ranges[j]);
                }
            }
        } else {
            assert(ranges[last] == ranges.last());
        }
    }
}

/// Over merged ranges, the lookup finds the range that holds an address
/// whenever one of them does, and nothing else.
pub proof fn law_lookup_is_membership<T: Address>(ranges: Seq<(T, T)>, address: T)
    requires
        upward(ranges),
        by_start(ranges),
        separated(ranges),
    ensures
        range_of(ranges, address) is Some <==> covers(ranges, address),
        range_of(ranges, address) is Some ==> ranges.contains(range_of(ranges, address)->0)
            && within(range_of(ranges, address)->0, address),
    decreases ranges.len(),
{
    if ranges.len() > 0 {
        let init = ranges.drop_last();
        law_lookup_is_membership(init, address);
        let last = ranges[ranges.len() - 1];
        if last.0.value() <= address.value() {
            if covers(ranges, address) {
                let i = choose|i: int| 0 <= i < ranges.len() && within(#[trigger] ranges[i], address);
                assert(i == ranges.len() - 1);
            }
            if address.value() <= last.1.value() {
                assert(within(ranges[ranges.len() - 1], address));
            }
        } else {
            if covers(ranges, address) {
                let i = choose|i: int| 0 <= i < ranges.len() && within(#[trigger] ranges[i], address);
                assert(within(init[i], address));
            }
            if covers(init, address) {
                let i = choose|i: int| 0 <= i < init.len() && within(#[trigger] init[i], address);
                assert(within(ranges[i], address));
            }
            if range_of(ranges, address) is Some {
                let found = range_of(ranges, address)->0;
                let k = choose|k: int| 0 <= k < init.len() && init[k] == found;
                assert(ranges[k] == found);
            }
        }
    }
}

pub proof fn lemma_range_of_within<T: Address>(ranges: Seq<(T, T)>, address: T)
    requires
        range_of(ranges, address) is Some,
    ensures
        within(range_of(ranges, address)->0, address),
    decreases ranges.len(),
{
    if ranges.last().0.value() > address.value() {
        lemma_range_of_within(ranges.drop_last(), address);
    }
}

proof fn lemma_range_of_prefix<T: Address>(ranges: Seq<(T, T)>, address: T, count: int)
    requires
        0 <= count <= ranges.len(),
        forall|k: int|
            count <= k < ranges.len() ==> (#[trigger] ranges[k]).0.value() > address.value(),
    ensures
        range_of(ranges, address) == range_of(ranges.take(count), address),
    decreases ranges.len() - count,
{
    if count < ranges.len() {
        let init = ranges.drop_last();
        assert(ranges.last() == ranges[ranges.len() - 1]);
        lemma_range_of_prefix(init, address, count);
        assert(init.take(count) == ranges.take(count));
    } else {
        assert(ranges.take(count) == ranges);
    }
}

/// Sorts ranges by inserting each one behind those that do not exceed it.
fn sorted<T: Address>(ranges: &Vec<(T, T)>) -> (out: Vec<(T, T)>)
    ensures
        out@ == ranges@.sort_by(range_order::<T>()),
{
    let mut out: Vec<(T, T)> = Vec::new();
    let mut taken: usize = 0;
    let ghost order = range_order::<T>();
    proof {
        lemma_range_order_total::<T>();
        assert(ranges@.take(0) == out@);
    }
    while taken < ranges.len()
        invariant
            taken <= ranges@.len(),
            order == range_order::<T>(),
            vstd::relations::total_ordering(order),
            out@.len() == taken,
            out@.to_multiset() == ranges@.take(taken as int).to_multiset(),
            vstd::relations::sorted_by(out@, order),
        decreases ranges@.len() - taken,
    {
        let range: (T, T) = ranges[taken];
        let mut at: usize = out.len();
        while at > 0 && !not_above(out[at - 1], range)
            invariant
                at <= out@.len(),
                forall|k: int| at <= k < out@.len() ==> !range_le(#[trigger] out@[k], range),
            decreases at,
        {
            at = at - 1;
        }
        let ghost before = out@;
        out.insert(at, range);
        proof {
            vstd::seq_lib::to_multiset_insert(before, at as int, range);
            vstd::seq_lib::to_multiset_build(ranges@.take(taken as int), range);
            assert(ranges@.take(taken + 1) == ranges@.take(taken as int).push(range));
            assert forall|i: int, j: int| 0 <= i < j < out@.len() implies #[trigger] order(
                out@[i],
                out@[j],
            ) by {
                let ii = if i < at {
                    i
                } else {
                    i - 1
                };
                let jj = if j < at {
                    j
                } else {
                    j - 1
                };
                if i != at && j != at {
                    assert(order(before[ii], before[jj]));
                } else if i == at {
                    assert(!order(before[jj], range));
                } else {
                    assert(order(before[at - 1], range));
                    if i < at - 1 {
                        assert(order(before[i], before[at - 1]));
                    }
                }
            }
        }
        taken = taken + 1;
    }
    proof {
        assert(ranges@.take(ranges@.len() as int) == ranges@);
        ranges@.lemma_sort_by_ensures(order);
        vstd::seq_lib::lemma_sorted_unique(out@, ranges@.sort_by(order), order);
    }
    out
}

fn not_above<T: Address>(a: (T, T), b: (T, T)) -> (answer: bool)
    ensures
        answer == range_le(a, b),
{
    if a.0.at_most(b.0) {
        !b.0.at_most(a.0) || a.1.at_most(b.1)
    } else {
        false
    }
}

/// Sorts the ranges and joins those that overlap or touch.
pub fn merge<T: Address>(given: Vec<(T, T)>) -> (out: Vec<(T, T)>)
    ensures
        out@ == merged(given@),
        by_start(out@),
{
    let ranges: Vec<(T, T)> = sorted(&given);
    let mut out: Vec<(T, T)> = Vec::new();
    let mut taken: usize = 0;
    while taken < ranges.len()
        invariant
            taken <= ranges@.len(),
            out@ == joined(ranges@.take(taken as int)),
        decreases ranges@.len() - taken,
    {
        let (start, end) = ranges[taken];
        proof {
            let now = ranges@.take(taken + 1);
            assert(now.drop_last() == ranges@.take(taken as int));
            assert(now.last() == ranges@[taken as int]);
        }
        taken = taken + 1;
        let kept: usize = out.len();
        if kept > 0 {
            let last: (T, T) = out[kept - 1];
            let touching: bool = match last.1.checked_add_one() {
                Some(next) => start.at_most(next),
                None => {
                    proof {
                        start.lemma_bounded();
                    }
                    true
                },
            };
            if touching {
                if !end.at_most(last.1) {
                    out.set(kept - 1, (last.0, end));
                    assert(out@ == joined(ranges@.take(taken as int)));
                }
                continue;
            }
        }
        out.push((start, end));
    }
    proof {
        assert(ranges@.take(ranges@.len() as int) == ranges@);
        lemma_sorted(given@);
        lemma_joined_by_start(ranges@);
    }
    out
}

/// Merges IPv4 ranges.
pub fn merge_v4(items: Vec<(u32, u32)>) -> (out: Vec<(u32, u32)>)
    ensures
        out@ == merged(items@),
        by_start(out@),
{
    merge(items)
}

/// Merges IPv6 ranges.
pub fn merge_v6(items: Vec<(u128, u128)>) -> (out: Vec<(u128, u128)>)
    ensures
        out@ == merged(items@),
        by_start(out@),
{
    merge(items)
}

/// Finds the range that holds `value`, by halving the list.
pub fn containing<T: Address>(ranges: &[(T, T)], value: T) -> (range: Option<(T, T)>)
    requires
        by_start(ranges@),
    ensures
        range == range_of(ranges@, value),
        range is Some ==> within(range->0, value),
{
    let mut low: usize = 0;
    let mut high: usize = ranges.len();
    while low < high
        invariant
            low <= high <= ranges@.len(),
            by_start(ranges@),
            forall|k: int| 0 <= k < low ==> (#[trigger] ranges@[k]).0.value() <= value.value(),
            forall|k: int|
                high <= k < ranges@.len() ==> (#[trigger] ranges@[k]).0.value() > value.value(),
        decreases high - low,
    {
        let middle: usize = low + (high - low) / 2;
        if ranges[middle].0.at_most(value) {
            low = middle + 1;
        } else {
            high = middle;
        }
    }
    proof {
        lemma_range_of_prefix(ranges@, value, low as int);
    }
    if low == 0 {
        return None;
    }
    let range: (T, T) = ranges[low - 1];
    assert(ranges@.take(low as int).last() == range);
    if value.at_most(range.1) {
        Some(range)
    } else {
        None
    }
}

} // verus!
