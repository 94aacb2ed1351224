//! Fixed-capacity sets over the integers `0..64`, stored in one machine word.
//!
//! Scene sets, actor sets and cluster member sets all fit this ceiling, so a
//! state of the dynamic program is two machine words and the set operations
//! are single instructions. The view of a set is the mathematical `Set<int>`
//! of its members.

use vstd::prelude::*;

verus! {

use vstd::assert_by_contradiction;

/// True iff bit `i` of `bits` is set; only positions `0..64` are members.
pub open spec fn bit_at(bits: u64, i: int) -> bool {
    0 <= i < 64 && (bits >> (i as u64)) & 1u64 == 1u64
}

/// A set of integers drawn from `0..64`, one bit per candidate member.
#[derive(Clone, Copy, Debug, PartialEq, Eq, Hash, Structural)]
pub struct BitSet64 {
    pub bits: u64,
}

impl View for BitSet64 {
    type V = Set<int>;

    open spec fn view(&self) -> Set<int> {
        Set::new(|i: int| bit_at(self.bits, i))
    }
}

/// The set `{0, .., n - 1}` of the first `n` candidate members.
pub open spec fn range_set(n: int) -> Set<int> {
    Set::new(|i: int| 0 <= i < n)
}

/// Number of set bits of `bits` at positions below `n`.
pub open spec fn card_upto(bits: u64, n: nat) -> nat
    decreases n,
{
    if n == 0 {
        0
    } else {
        card_upto(bits, (n - 1) as nat) + if bit_at(bits, n - 1) { 1nat } else { 0nat }
    }
}

/// The members of the view below `n`, as a set.
pub open spec fn members_upto(bits: u64, n: int) -> Set<int> {
    Set::new(|i: int| i < n && bit_at(bits, i))
}

/// A word whose bits at positions `n..64` are all clear is below `1 << n`.
proof fn lemma_clear_above(b: u64, n: u64)
    requires
        n < 64,
        forall|j: u64| n <= j < 64 ==> #[trigger] ((b >> j) & 1u64) == 0u64,
    ensures
        b < (1u64 << n),
    decreases 64 - n,
{
    if n == 63 {
        assert((b >> 63u64) & 1u64 == 0u64);
        assert(b < (1u64 << 63u64)) by (bit_vector)
            requires
                (b >> 63u64) & 1u64 == 0u64,
        ;
    } else {
        let n1 = (n + 1) as u64;
        lemma_clear_above(b, n1);
        assert((b >> n) & 1u64 == 0u64);
        assert(b < (1u64 << n)) by (bit_vector)
            requires
                n < 63u64,
                n1 == (n + 1) as u64,
                b < (1u64 << n1),
                (b >> n) & 1u64 == 0u64,
        ;
    }
}

proof fn lemma_card_upto_is_len(bits: u64, n: nat)
    requires
        n <= 64,
    ensures
        members_upto(bits, n as int).finite(),
        members_upto(bits, n as int).len() == card_upto(bits, n),
    decreases n,
{
    if n == 0 {
        assert(members_upto(bits, 0) =~= Set::<int>::empty());
    } else {
        let m: nat = (n - 1) as nat;
        lemma_card_upto_is_len(bits, m);
        if bit_at(bits, m as int) {
            assert(members_upto(bits, n as int) =~= members_upto(bits, m as int).insert(m as int));
        } else {
            assert(members_upto(bits, n as int) =~= members_upto(bits, m as int));
        }
    }
}

impl BitSet64 {
    /// The empty set.
    pub fn empty() -> (r: Self)
        ensures
            r@ == Set::<int>::empty(),
    {
        let r = BitSet64 { bits: 0u64 };
        proof {
            assert(forall|j: u64| j < 64 ==> #[trigger] ((0u64 >> j) & 1u64) == 0u64)
                by (bit_vector);
            assert(r@ =~= Set::<int>::empty());
        }
        r
    }

    /// The set `{0, .., n - 1}`.
    pub fn full_upto(n: usize) -> (r: Self)
        requires
            n <= 64,
        ensures
            r@ == range_set(n as int),
    {
        let bits: u64 = if n == 64 {
            u64::MAX
        } else {
            proof {
                assert(1u64 << (n as u64) >= 1u64) by (bit_vector)
                    requires
                        n < 64,
                ;
            }
            (1u64 << (n as u64)) - 1
        };
        let r = BitSet64 { bits };
        proof {
            let nn = n as u64;
            if n == 64 {
                assert(forall|j: u64| j < 64 ==> #[trigger] ((u64::MAX >> j) & 1u64) == 1u64)
                    by (bit_vector);
            } else {
                assert(forall|j: u64|
                    nn < 64 && j < 64 ==> (#[trigger] (((((1u64 << nn) - 1) as u64) >> j) & 1u64)
                        == 1u64 <==> j < nn)) by (bit_vector);
            }
            assert(r@ =~= range_set(n as int));
        }
        r
    }

    /// Membership test.
    pub fn contains(&self, i: usize) -> (r: bool)
        requires
            i < 64,
        ensures
            r == self@.contains(i as int),
    {
        (self.bits >> (i as u64)) & 1u64 == 1u64
    }

    /// The set with `i` added.
    pub fn insert(self, i: usize) -> (r: Self)
        requires
            i < 64,
        ensures
            r@ == self@.insert(i as int),
    {
        let r = BitSet64 { bits: self.bits | (1u64 << (i as u64)) };
        proof {
            let b = self.bits;
            let ii = i as u64;
            assert(forall|j: u64|
                ii < 64 && j < 64 ==> (#[trigger] (((b | (1u64 << ii)) >> j) & 1u64) == 1u64 <==> (
                (b >> j) & 1u64 == 1u64 || j == ii))) by (bit_vector);
            assert(r@ =~= self@.insert(i as int));
        }
        r
    }

    /// The set with `i` removed.
    pub fn remove(self, i: usize) -> (r: Self)
        requires
            i < 64,
        ensures
            r@ == self@.remove(i as int),
            r.bits == self.bits & !(1u64 << (i as u64)),
    {
        let r = BitSet64 { bits: self.bits & !(1u64 << (i as u64)) };
        proof {
            let b = self.bits;
            let ii = i as u64;
            assert(forall|j: u64|
                ii < 64 && j < 64 ==> (#[trigger] (((b & !(1u64 << ii)) >> j) & 1u64) == 1u64 <==> (
                (b >> j) & 1u64 == 1u64 && j != ii))) by (bit_vector);
            assert(r@ =~= self@.remove(i as int));
        }
        r
    }

    /// Set union.
    pub fn union(self, other: Self) -> (r: Self)
        ensures
            r@ == self@.union(other@),
    {
        let r = BitSet64 { bits: self.bits | other.bits };
        proof {
            let a = self.bits;
            let b = other.bits;
            assert(forall|j: u64|
                j < 64 ==> (#[trigger] (((a | b) >> j) & 1u64) == 1u64 <==> ((a >> j) & 1u64 == 1u64
                    || (b >> j) & 1u64 == 1u64))) by (bit_vector);
            assert(r@ =~= self@.union(other@));
        }
        r
    }

    /// Set intersection.
    pub fn intersect(self, other: Self) -> (r: Self)
        ensures
            r@ == self@.intersect(other@),
    {
        let r = BitSet64 { bits: self.bits & other.bits };
        proof {
            let a = self.bits;
            let b = other.bits;
            assert(forall|j: u64|
                j < 64 ==> (#[trigger] (((a & b) >> j) & 1u64) == 1u64 <==> ((a >> j) & 1u64 == 1u64
                    && (b >> j) & 1u64 == 1u64))) by (bit_vector);
            assert(r@ =~= self@.intersect(other@));
        }
        r
    }

    /// Set difference: the members of `self` that are not in `other`.
    pub fn difference(self, other: Self) -> (r: Self)
        ensures
            r@ == self@.difference(other@),
    {
        let r = BitSet64 { bits: self.bits & !other.bits };
        proof {
            let a = self.bits;
            let b = other.bits;
            assert(forall|j: u64|
                j < 64 ==> (#[trigger] (((a & !b) >> j) & 1u64) == 1u64 <==> ((a >> j) & 1u64
                    == 1u64 && !((b >> j) & 1u64 == 1u64)))) by (bit_vector);
            assert(r@ =~= self@.difference(other@));
        }
        r
    }

    /// Emptiness test.
    pub fn is_empty(&self) -> (r: bool)
        ensures
            r <==> self@ == Set::<int>::empty(),
    {
        proof {
            self.lemma_empty_iff_zero();
        }
        self.bits == 0u64
    }

    /// Number of members.
    pub fn len(&self) -> (r: usize)
        ensures
            r == self@.len(),
            r <= 64,
    {
        let mut count: usize = 0;
        let mut i: usize = 0;
        while i < 64
            invariant
                i <= 64,
                count == card_upto(self.bits, i as nat),
                count <= i,
            decreases 64 - i,
        {
            if self.contains(i) {
                count = count + 1;
            }
            i = i + 1;
        }
        proof {
            self.lemma_len();
            assert(count == card_upto(self.bits, 64));
        }
        count
    }

    /// The view is a finite set of at most 64 members, counted by `card_upto`.
    pub proof fn lemma_len(self)
        ensures
            self@.finite(),
            self@.len() == card_upto(self.bits, 64),
            self@.len() <= 64,
    {
        lemma_card_upto_is_len(self.bits, 64);
        assert(members_upto(self.bits, 64) =~= self@);
        lemma_card_upto_bound(self.bits, 64);
    }

    /// A word is zero exactly when its set has no members.
    pub proof fn lemma_empty_iff_zero(self)
        ensures
            (self.bits == 0u64) <==> (self@ == Set::<int>::empty()),
    {
        let b = self.bits;
        if b == 0u64 {
            assert(forall|j: u64| j < 64 ==> #[trigger] ((0u64 >> j) & 1u64) == 0u64)
                by (bit_vector);
            assert(self@ =~= Set::<int>::empty());
        } else {
            assert(forall|j: u64|
                j < 64 ==> (#[trigger] ((b >> j) & 1u64) == 0u64 || (b >> j) & 1u64 == 1u64))
                by (bit_vector);
            if self@ == Set::<int>::empty() {
                assert forall|j: u64| j < 64 implies #[trigger] ((b >> j) & 1u64) == 0u64 by {
                    assert(!self@.contains(j as int));
                }
                lemma_clear_above(b, 1u64);
                assert(b == 0u64) by (bit_vector)
                    requires
                        b < (1u64 << 1u64),
                        (b >> 0u64) & 1u64 == 0u64,
                ;
            }
        }
    }

    /// A set that is not empty has a member.
    pub proof fn lemma_nonempty_member(self)
        requires
            self@ != Set::<int>::empty(),
        ensures
            exists|i: int| self@.contains(i),
    {
        assert_by_contradiction!(exists|i: int| self@.contains(i), {
            assert(self@ =~= Set::<int>::empty());
        });
    }

    /// A set whose members all lie below `n` is stored in the low `n` bits.
    pub proof fn lemma_bits_bound(self, n: nat)
        requires
            n < 64,
            forall|i: int| self@.contains(i) ==> i < n,
        ensures
            self.bits < (1u64 << (n as u64)),
    {
        let b = self.bits;
        let nn = n as u64;
        assert(forall|j: u64|
            j < 64 ==> (#[trigger] ((b >> j) & 1u64) == 0u64 || (b >> j) & 1u64 == 1u64))
            by (bit_vector);
        assert forall|j: u64| nn <= j < 64 implies #[trigger] ((b >> j) & 1u64) == 0u64 by {
            assert(!self@.contains(j as int));
        }
        lemma_clear_above(b, nn);
    }
}

proof fn lemma_card_upto_bound(bits: u64, n: nat)
    ensures
        card_upto(bits, n) <= n,
    decreases n,
{
    if n > 0 {
        lemma_card_upto_bound(bits, (n - 1) as nat);
    }
}

} // verus!
