//! The part tracker.
//!
//! A transient, in-memory set of observed part numbers with an efficient
//! completeness query: are all parts `1..=largest` present with no gaps?
//! It holds one contiguous bit-set grown to the largest observed part
//! number, so there is no chunk-boundary arithmetic to get wrong.

use vstd::prelude::*;
use crate::errors::GatewayError;

verus! {

/// The protocol's maximum part count: part numbers at or above this are
/// rejected.
pub const MAX_PART_COUNT: u32 = 10000;

/// A set has a gap-free run from one up to its maximum positive member.
///
/// This holds exactly when the set's positive members are non-empty and
/// the set contains every number from one through their maximum; any
/// member below one is ignored.
pub open spec fn complete_up_to_max(s: Set<int>) -> bool {
    exists|m: int|
        {
            &&& 1 <= m
            &&& #[trigger] s.contains(m)
            &&& forall|j: int| 1 <= j <= m ==> s.contains(j)
            &&& forall|l: int| l > m ==> !s.contains(l)
        }
}

/// Tracks which part numbers of an upload have been observed.
pub struct PartTracker {
    bits: Vec<bool>,
    largest: u32,
}

impl View for PartTracker {
    type V = Set<int>;

    /// The set of recorded part numbers.
    closed spec fn view(&self) -> Set<int> {
        Set::new(|i: int| 0 <= i < self.bits@.len() && self.bits@[i])
    }
}

impl PartTracker {
    /// The largest part number recorded so far; zero when none above zero
    /// has been recorded.
    pub closed spec fn spec_largest(self) -> int {
        self.largest as int
    }

    /// The tracker's internal invariant: the bit-set is sized to the
    /// protocol maximum at most, and `largest` is the maximum recorded
    /// positive part number.
    pub closed spec fn wf(self) -> bool {
        &&& self.bits@.len() <= MAX_PART_COUNT
        &&& self.largest < MAX_PART_COUNT
        &&& (self.largest > 0 ==> self.largest < self.bits@.len() && self.bits@[self.largest as int])
        &&& forall|i: int| self.largest < i < self.bits@.len() ==> !self.bits@[i]
    }

    /// What well-formedness gives a caller: every recorded number lies in
    /// the protocol range and at or below `largest`, and `largest` itself
    /// is recorded whenever it is positive.
    pub proof fn lemma_wf_largest(self)
        requires
            self.wf(),
        ensures
            forall|n: int| self@.contains(n) ==> 0 <= n < MAX_PART_COUNT,
            forall|n: int| self@.contains(n) ==> n <= self.spec_largest(),
            0 <= self.spec_largest() < MAX_PART_COUNT,
            self.spec_largest() >= 1 ==> self@.contains(self.spec_largest()),
    {
    }

    /// A fresh tracker with nothing recorded.
    pub fn new() -> (r: Self)
        ensures
            r.wf(),
            r@ =~= Set::<int>::empty(),
            r.spec_largest() == 0,
    {
        PartTracker { bits: Vec::new(), largest: 0 }
    }

    /// Records a part number.
    ///
    /// Fails with `PartNumberOutOfRange` exactly when the number is at or
    /// above the protocol maximum; otherwise the number is recorded and
    /// the tracked maximum updated.
    pub fn add_part(&mut self, part_number: u32) -> (r: Result<(), GatewayError>)
        requires
            old(self).wf(),
        ensures
            final(self).wf(),
            part_number >= MAX_PART_COUNT ==> {
                &&& r == Result::<(), GatewayError>::Err(GatewayError::PartNumberOutOfRange)
                &&& final(self)@ == old(self)@
                &&& final(self).spec_largest() == old(self).spec_largest()
            },
            part_number < MAX_PART_COUNT ==> {
                &&& r == Result::<(), GatewayError>::Ok(())
                &&& final(self)@ == old(self)@.insert(part_number as int)
                &&& final(self).spec_largest() == if part_number as int > old(self).spec_largest() {
                    part_number as int
                } else {
                    old(self).spec_largest()
                }
            },
    {
        if part_number >= MAX_PART_COUNT {
            return Err(GatewayError::PartNumberOutOfRange);
        }
        while self.bits.len() <= part_number as usize
            invariant
                old(self).wf(),
                self.largest == old(self).largest,
                part_number < MAX_PART_COUNT,
                self.bits@.len() <= MAX_PART_COUNT,
                self@ == old(self)@,
                self.bits@.len() >= old(self).bits@.len(),
                forall|i: int|
                    old(self).bits@.len() <= i < self.bits@.len() ==> !self.bits@[i],
                forall|i: int|
                    0 <= i < old(self).bits@.len() ==> self.bits@[i] == old(self).bits@[i],
            decreases part_number + 1 - self.bits@.len(),
        {
            self.bits.push(false);
            proof {
                assert(self@ =~= old(self)@);
            }
        }
        self.bits[part_number as usize] = true;
        if part_number > self.largest {
            self.largest = part_number;
        }
        proof {
            assert(final(self)@ =~= old(self)@.insert(part_number as int));
        }
        Ok(())
    }

    /// Asks whether a part number has been recorded.
    ///
    /// Fails with `PartNumberOutOfRange` exactly when the number is at or
    /// above the protocol maximum.
    pub fn has_part(&self, part_number: u32) -> (r: Result<bool, GatewayError>)
        requires
            self.wf(),
        ensures
            part_number >= MAX_PART_COUNT ==> r == Result::<bool, GatewayError>::Err(
                GatewayError::PartNumberOutOfRange,
            ),
            part_number < MAX_PART_COUNT ==> r == Result::<bool, GatewayError>::Ok(
                self@.contains(part_number as int),
            ),
    {
        if part_number >= MAX_PART_COUNT {
            return Err(GatewayError::PartNumberOutOfRange);
        }
        if part_number > self.largest {
            proof {
                self.lemma_wf_largest();
            }
            return Ok(false);
        }
        if (part_number as usize) < self.bits.len() {
            Ok(self.bits[part_number as usize])
        } else {
            Ok(false)
        }
    }

    /// The largest recorded part number, zero when none is recorded.
    pub fn largest(&self) -> (r: u32)
        ensures
            r as int == self.spec_largest(),
    {
        self.largest
    }

    /// True exactly when every part from one through the largest recorded
    /// part number has been recorded — and at least one has.
    ///
    /// Equivalently: the recorded set has a gap-free run from one up to
    /// its maximum positive member. A tracker with nothing recorded is
    /// never complete.
    pub fn is_complete(&self) -> (r: bool)
        requires
            self.wf(),
        ensures
            r == (self.spec_largest() >= 1 && (forall|j: int|
                1 <= j <= self.spec_largest() ==> self@.contains(j))),
            r == complete_up_to_max(self@),
    {
        let mut r: bool;
        if self.largest == 0 {
            r = false;
        } else {
            r = true;
            let mut j: usize = 1;
            while j <= self.largest as usize
                invariant
                    self.wf(),
                    self.largest > 0,
                    1 <= j <= self.largest + 1,
                    r ==> (forall|i: int| 1 <= i < j ==> self@.contains(i)),
                    !r ==> j <= self.largest && !self@.contains(j as int),
                ensures
                    r ==> (forall|i: int| 1 <= i <= self.largest ==> self@.contains(i)),
                    !r ==> (exists|g: int| 1 <= g <= self.largest && !self@.contains(g)),
                decreases self.largest + 1 - j,
            {
                if !self.bits[j] {
                    proof {
                        assert(!self@.contains(j as int));
                    }
                    r = false;
                    break;
                }
                proof {
                    assert(self@.contains(j as int));
                }
                j = j + 1;
            }
        }
        proof {
            self.lemma_wf_largest();
            let s = self@;
            let lg = self.spec_largest();
            if r {
                assert(1 <= lg && s.contains(lg) && (forall|j: int| 1 <= j <= lg ==> s.contains(j))
                    && (forall|l: int| l > lg ==> !s.contains(l)));
                assert(complete_up_to_max(s));
            } else {
                if complete_up_to_max(s) {
                    let m = choose|m: int|
                        {
                            &&& 1 <= m
                            &&& #[trigger] s.contains(m)
                            &&& forall|j: int| 1 <= j <= m ==> s.contains(j)
                            &&& forall|l: int| l > m ==> !s.contains(l)
                        };
                    assert(m <= lg);
                    assert(lg >= 1);
                    assert(s.contains(lg));
                    assert(lg <= m);
                    assert(forall|j: int| 1 <= j <= lg ==> s.contains(j));
                    assert(false);
                }
            }
        }
        r
    }
}

} // verus!
