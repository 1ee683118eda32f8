//! The entries' places in the log, ordered by timestamp.

use vstd::prelude::*;

verus! {

/// One line of the index: an entry's timestamp and its place in the log.
#[derive(Clone, Copy, Debug, PartialEq, Eq, Structural)]
pub struct Slot {
    pub timestamp: u64,
    pub location: usize,
}

/// `a` comes before `b`: by timestamp, and among equal timestamps by place.
pub open spec fn before(a: Slot, b: Slot) -> bool {
    a.timestamp < b.timestamp || (a.timestamp == b.timestamp && a.location < b.location)
}

/// Each slot comes before every later one.
pub open spec fn ordered(slots: Seq<Slot>) -> bool {
    forall|i: int, j: int| 0 <= i < j < slots.len() ==> before(#[trigger] slots[i], #[trigger] slots[j])
}

/// `p` parts `slots` into those stamped below `timestamp` and the rest.
pub open spec fn is_lower_bound(slots: Seq<Slot>, timestamp: u64, p: int) -> bool {
    &&& 0 <= p <= slots.len()
    &&& forall|k: int| 0 <= k < p ==> (#[trigger] slots[k]).timestamp < timestamp
    &&& forall|k: int| p <= k < slots.len() ==> (#[trigger] slots[k]).timestamp >= timestamp
}

/// `p` parts `slots` into those that come before `slot` and the rest.
pub open spec fn is_place_of(slots: Seq<Slot>, slot: Slot, p: int) -> bool {
    &&& 0 <= p <= slots.len()
    &&& forall|k: int| 0 <= k < p ==> before(#[trigger] slots[k], slot)
    &&& forall|k: int| p <= k < slots.len() ==> !before(#[trigger] slots[k], slot)
}

/// The slots stamped from `from` to `to`, both included, in their order.
pub open spec fn slots_within(slots: Seq<Slot>, from: u64, to: u64) -> Seq<Slot>
    decreases slots.len(),
{
    if slots.len() == 0 {
        slots
    } else {
        let rest = slots_within(slots.drop_last(), from, to);
        if from <= slots.last().timestamp <= to {
            rest.push(slots.last())
        } else {
            rest
        }
    }
}

/// The places that `slots` name, slot by slot.
pub open spec fn locations(slots: Seq<Slot>) -> Seq<usize> {
    Seq::new(slots.len(), |k: int| slots[k].location)
}

/// Where the slots in the interval are exactly those from `lo` up to `hi`,
/// selecting the interval gives that run.
pub proof fn lemma_within_is_run(slots: Seq<Slot>, from: u64, to: u64, lo: int, hi: int)
    requires
        0 <= lo <= hi <= slots.len(),
        forall|k: int| 0 <= k < slots.len() ==> (from <= (#[trigger] slots[k]).timestamp <= to <==> lo <= k < hi),
    ensures
        slots_within(slots, from, to) == slots.subrange(lo, hi),
    decreases slots.len(),
{
    if slots.len() == 0 {
        assert(slots.subrange(lo, hi) =~= slots);
    } else {
        let n = slots.len() as int;
        let front = slots.drop_last();
        if hi == n {
            if lo == n {
                lemma_within_is_run(front, from, to, n - 1, n - 1);
                assert(!(from <= slots[n - 1].timestamp <= to));
                assert(front.subrange(n - 1, n - 1) =~= slots.subrange(lo, hi));
            } else {
                lemma_within_is_run(front, from, to, lo, n - 1);
                assert(from <= slots[n - 1].timestamp <= to);
                assert(front.subrange(lo, n - 1).push(slots.last()) =~= slots.subrange(lo, hi));
            }
        } else {
            lemma_within_is_run(front, from, to, lo, hi);
            assert(!(from <= slots[n - 1].timestamp <= to));
            assert(front.subrange(lo, hi) =~= slots.subrange(lo, hi));
        }
    }
}

/// Slots can be put in order in one way only: two runs of slots that are
/// both in order and hold the same slots are the same run.
pub proof fn lemma_order_is_unique(a: Seq<Slot>, b: Seq<Slot>)
    requires
        ordered(a),
        ordered(b),
        forall|s: Slot| #![trigger a.contains(s)] #![trigger b.contains(s)] a.contains(s) <==> b.contains(s),
    ensures
        a == b,
    decreases a.len(),
{
    if a.len() == 0 {
        if b.len() > 0 {
            assert(b.contains(b[0]));
            assert(a.contains(b[0]));
        }
        assert(a =~= b);
    } else {
        let n = a.len() as int;
        let top = a[n - 1];
        assert(a.contains(top));
        assert(b.contains(top));
        let m = b.len() as int;
        let j = choose|j: int| 0 <= j < b.len() && b[j] == top;
        assert(b.contains(b[m - 1]));
        assert(a.contains(b[m - 1]));
        let i = choose|i: int| 0 <= i < a.len() && a[i] == b[m - 1];
        if j < m - 1 {
            assert(before(b[j], b[m - 1]));
            if i < n - 1 {
                assert(before(a[i], a[n - 1]));
            }
        }
        assert(b[m - 1] == top);
        let front_a = a.drop_last();
        let front_b = b.drop_last();
        assert forall|x: int, y: int| 0 <= x < y < front_a.len() implies before(
            #[trigger] front_a[x],
            #[trigger] front_a[y],
        ) by {
            assert(before(a[x], a[y]));
        }
        assert forall|x: int, y: int| 0 <= x < y < front_b.len() implies before(
            #[trigger] front_b[x],
            #[trigger] front_b[y],
        ) by {
            assert(before(b[x], b[y]));
        }
        assert forall|s: Slot| #![trigger front_a.contains(s)] #![trigger front_b.contains(s)]
            front_a.contains(s) <==> front_b.contains(s) by {
            if front_a.contains(s) {
                let x = choose|x: int| 0 <= x < front_a.len() && front_a[x] == s;
                assert(a[x] == s);
                assert(before(a[x], a[n - 1]));
                assert(a.contains(s));
                assert(b.contains(s));
                let y = choose|y: int| 0 <= y < b.len() && b[y] == s;
                assert(y < m - 1);
                assert(front_b[y] == s);
            }
            if front_b.contains(s) {
                let y = choose|y: int| 0 <= y < front_b.len() && front_b[y] == s;
                assert(b[y] == s);
                assert(before(b[y], b[m - 1]));
                assert(b.contains(s));
                assert(a.contains(s));
                let x = choose|x: int| 0 <= x < a.len() && a[x] == s;
                assert(x < n - 1);
                assert(front_a[x] == s);
            }
        }
        lemma_order_is_unique(front_a, front_b);
        assert(a =~= front_a.push(top));
        assert(b =~= front_b.push(top));
    }
}

/// An ordered index of the log: for each entry a slot, the slots ordered by
/// timestamp and, among equal timestamps, by place in the log.
pub struct TimestampIndex {
    slots: Vec<Slot>,
}

impl View for TimestampIndex {
    type V = Seq<Slot>;

    closed spec fn view(&self) -> Seq<Slot> {
        self.slots@
    }
}

impl TimestampIndex {
    /// The slots are in order, whatever was entered.
    #[verifier::type_invariant]
    spec fn in_order(&self) -> bool {
        ordered(self.slots@)
    }

    /// An index of nothing.
    pub fn new() -> (r: Self)
        ensures
            r@ == Seq::<Slot>::empty(),
    {
        TimestampIndex { slots: Vec::new() }
    }

    /// How many slots the index holds. The slots of an index are in order.
    pub fn len(&self) -> (n: usize)
        ensures
            n == self@.len(),
            ordered(self@),
    {
        proof {
            use_type_invariant(self);
        }
        self.slots.len()
    }

    /// The slot at position `k`.
    pub fn slot(&self, k: usize) -> (s: Slot)
        requires
            k < self@.len(),
        ensures
            s == self@[k as int],
    {
        self.slots[k]
    }

    /// The position of the first slot stamped `timestamp` or later.
    pub fn lower_bound(&self, timestamp: u64) -> (p: usize)
        ensures
            is_lower_bound(self@, timestamp, p as int),
    {
        proof {
            use_type_invariant(self);
        }
        let mut lo: usize = 0;
        let mut hi: usize = self.slots.len();
        while lo < hi
            invariant
                lo <= hi <= self.slots@.len(),
                ordered(self.slots@),
                forall|k: int| 0 <= k < lo ==> (#[trigger] self.slots@[k]).timestamp < timestamp,
                forall|k: int|
                    hi <= k < self.slots@.len() ==> (#[trigger] self.slots@[k]).timestamp >= timestamp,
            decreases hi - lo,
        {
            let mid: usize = lo + (hi - lo) / 2;
            if self.slots[mid].timestamp < timestamp {
                assert forall|k: int| 0 <= k < mid + 1 implies (#[trigger] self.slots@[k]).timestamp
                    < timestamp by {
                    if k < mid {
                        assert(before(self.slots@[k], self.slots@[mid as int]));
                    }
                }
                lo = mid + 1;
            } else {
                assert forall|k: int| mid <= k < self.slots@.len() implies (
                #[trigger] self.slots@[k]).timestamp >= timestamp by {
                    if mid < k {
                        assert(before(self.slots@[mid as int], self.slots@[k]));
                    }
                }
                hi = mid;
            }
        }
        lo
    }

    /// The position at which a slot for the entry stamped `timestamp` at
    /// place `location` belongs: behind the slots that come before it.
    pub fn place_of(&self, timestamp: u64, location: usize) -> (p: usize)
        ensures
            is_place_of(self@, Slot { timestamp, location }, p as int),
    {
        proof {
            use_type_invariant(self);
        }
        let ghost slot = Slot { timestamp, location };
        let mut lo: usize = 0;
        let mut hi: usize = self.slots.len();
        while lo < hi
            invariant
                lo <= hi <= self.slots@.len(),
                ordered(self.slots@),
                slot == (Slot { timestamp, location }),
                forall|k: int| 0 <= k < lo ==> before(#[trigger] self.slots@[k], slot),
                forall|k: int| hi <= k < self.slots@.len() ==> !before(#[trigger] self.slots@[k], slot),
            decreases hi - lo,
        {
            let mid: usize = lo + (hi - lo) / 2;
            let here = self.slots[mid];
            if here.timestamp < timestamp || (here.timestamp == timestamp && here.location < location) {
                assert forall|k: int| 0 <= k < mid + 1 implies before(#[trigger] self.slots@[k], slot) by {
                    if k < mid {
                        assert(before(self.slots@[k], self.slots@[mid as int]));
                    }
                }
                lo = mid + 1;
            } else {
                assert forall|k: int| mid <= k < self.slots@.len() implies !before(
                    #[trigger] self.slots@[k],
                    slot,
                ) by {
                    if mid < k {
                        assert(before(self.slots@[mid as int], self.slots@[k]));
                    }
                }
                hi = mid;
            }
        }
        lo
    }

    /// Enters a slot for the entry stamped `timestamp` at place `location`
    /// where it belongs in the order, and says at which position it stands.
    /// A slot that the index holds already is not entered again.
    pub fn insert(&mut self, timestamp: u64, location: usize) -> (p: usize)
        ensures
            is_place_of(old(self)@, Slot { timestamp, location }, p as int),
            final(self)@ == if old(self)@.contains(Slot { timestamp, location }) {
                old(self)@
            } else {
                old(self)@.insert(p as int, Slot { timestamp, location })
            },
    {
        proof {
            use_type_invariant(&*self);
        }
        let p = self.place_of(timestamp, location);
        let slot = Slot { timestamp, location };
        let ghost before_it = self.slots@;
        if p < self.slots.len() && self.slots[p].timestamp == timestamp && self.slots[p].location == location {
            assert(before_it[p as int] == slot);
            return p;
        }
        let ghost after = before_it.insert(p as int, slot);
        proof {
            assert forall|k: int| 0 <= k < before_it.len() implies #[trigger] before_it[k] != slot by {
                if p < k {
                    assert(before(before_it[p as int], before_it[k]));
                }
            }
            assert forall|i: int, j: int| 0 <= i < j < after.len() implies before(
                #[trigger] after[i],
                #[trigger] after[j],
            ) by {
                if j < p {
                    assert(before(before_it[i], before_it[j]));
                } else if j == p {
                    assert(after[i] == before_it[i]);
                } else if i < p {
                    assert(before(before_it[i], before_it[j - 1]));
                } else if i == p {
                    assert(after[j] == before_it[j - 1]);
                    assert(!before(before_it[j - 1], slot));
                } else {
                    assert(before(before_it[i - 1], before_it[j - 1]));
                }
            }
        }
        let mut slots: Vec<Slot> = Vec::new();
        core::mem::swap(&mut self.slots, &mut slots);
        slots.insert(p, slot);
        self.slots = slots;
        p
    }

    /// The place in the log of the entry stamped `timestamp`; where several
    /// entries carry that timestamp, the lowest of their places.
    pub fn lookup_single(&self, timestamp: u64) -> (r: Option<usize>)
        ensures
            match r {
                Some(location) => {
                    &&& self@.contains(Slot { timestamp, location })
                    &&& forall|k: int|
                        0 <= k < self@.len() && (#[trigger] self@[k]).timestamp == timestamp
                            ==> location <= self@[k].location
                },
                None => forall|k: int| 0 <= k < self@.len() ==> (#[trigger] self@[k]).timestamp != timestamp,
            },
    {
        proof {
            use_type_invariant(self);
        }
        let p = self.lower_bound(timestamp);
        if p < self.slots.len() && self.slots[p].timestamp == timestamp {
            let location = self.slots[p].location;
            proof {
                assert(self@[p as int] == Slot { timestamp, location });
                assert forall|k: int|
                    0 <= k < self@.len() && (#[trigger] self@[k]).timestamp == timestamp implies location
                    <= self@[k].location by {
                    if p < k {
                        assert(before(self@[p as int], self@[k]));
                    }
                }
            }
            Some(location)
        } else {
            proof {
                assert forall|k: int| 0 <= k < self@.len() implies (#[trigger] self@[k]).timestamp
                    != timestamp by {
                    if p < k {
                        assert(before(self@[p as int], self@[k]));
                    }
                }
            }
            None
        }
    }

    /// The places in the log of the entries stamped from `from` to `to`, both
    /// included, in the order of the index. Nothing where `from` is later
    /// than `to`.
    pub fn lookup_range(&self, from: u64, to: u64) -> (r: Vec<usize>)
        ensures
            r@ == locations(slots_within(self@, from, to)),
    {
        proof {
            use_type_invariant(self);
        }
        let lo = self.lower_bound(from);
        let n = self.slots.len();
        let mut r: Vec<usize> = Vec::new();
        let mut k: usize = lo;
        while k < n && self.slots[k].timestamp <= to
            invariant
                lo <= k <= n,
                n == self.slots@.len(),
                ordered(self.slots@),
                is_lower_bound(self.slots@, from, lo as int),
                forall|i: int| lo <= i < k ==> (#[trigger] self.slots@[i]).timestamp <= to,
                r@ == locations(self.slots@.subrange(lo as int, k as int)),
            decreases n - k,
        {
            r.push(self.slots[k].location);
            assert(locations(self.slots@.subrange(lo as int, k + 1)) =~= locations(
                self.slots@.subrange(lo as int, k as int),
            ).push(self.slots@[k as int].location));
            k = k + 1;
        }
        proof {
            let slots = self.slots@;
            assert forall|i: int| 0 <= i < slots.len() implies (from <= (#[trigger] slots[i]).timestamp <= to
                <==> lo <= i < k) by {
                if k <= i && k < n {
                    if k < i {
                        assert(before(slots[k as int], slots[i]));
                    }
                }
            }
            lemma_within_is_run(slots, from, to, lo as int, k as int);
        }
        r
    }
}

} // verus!
