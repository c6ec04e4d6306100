//! The hashing routine: a rotating/cyclic-shift hash over a key's code
//! units, and the `Hashable` capability that every key type of the table
//! must supply.

use vstd::prelude::*;

verus! {

/// One round of the rotating hash: shift the accumulator `h` left by five
/// bits, fold the five bits that fell off back in at the bottom, then xor
/// in the next code unit `c`.
pub open spec fn hash_step(h: u32, c: u32) -> u32 {
    ((h << 5u32) ^ ((h & 0xf800_0000u32) >> 27u32)) ^ c
}

/// The hash of a sequence of code units: `hash_step` folded over the
/// sequence from the left, starting at 0.  The empty sequence hashes to 0.
pub open spec fn hash_units(s: Seq<u32>) -> u32
    decreases s.len(),
{
    if s.len() == 0 {
        0u32
    } else {
        hash_step(hash_units(s.drop_last()), s.last())
    }
}

/// A key's code points, widened to 32 bits.
pub open spec fn char_units(s: Seq<char>) -> Seq<u32> {
    s.map_values(|c: char| c as u32)
}

/// A fixed byte sequence, widened to 32 bits.
pub open spec fn byte_units(s: Seq<u8>) -> Seq<u32> {
    s.map_values(|b: u8| b as u32)
}

/// A key the table can address: `hash` is deterministic (it returns the
/// one value `hash_spec` names), and view-equal keys hash alike, so the
/// same abstract key always lands in the same bucket.
pub trait Hashable: View + Sized {
    /// The mathematical hash of this key.
    spec fn hash_spec(&self) -> u32;

    /// View-equal keys have equal hashes.
    proof fn hash_respects_view(a: Self, b: Self)
        requires
            a@ == b@,
        ensures
            a.hash_spec() == b.hash_spec(),
    ;

    fn hash(&self) -> (r: u32)
        ensures
            r == self.hash_spec(),
    ;
}

/// A text key with no code points hashes to zero: the fold starts at 0
/// and has nothing to fold in.
pub proof fn lemma_empty_text_hashes_to_zero(s: String)
    requires
        s@.len() == 0,
    ensures
        s.hash_spec() == 0,
{
    assert(char_units(s@) =~= Seq::<u32>::empty());
}

impl Hashable for String {
    /// Text keys hash their code points in order.
    open spec fn hash_spec(&self) -> u32 {
        hash_units(char_units(self@))
    }

    proof fn hash_respects_view(a: Self, b: Self) {
    }

    fn hash(&self) -> (r: u32) {
        let s: &str = self.as_str();
        let n: usize = s.unicode_len();
        let mut h: u32 = 0;
        let mut i: usize = 0;
        while i < n
            invariant
                n == self@.len(),
                i <= n,
                s@ == self@,
                h == hash_units(char_units(self@.take(i as int))),
            decreases n - i,
        {
            let c = s.get_char(i);
            let highorder = h & 0xf800_0000u32;
            h = h << 5u32;
            h = h ^ (highorder >> 27u32);
            h = h ^ (c as u32);
            proof {
                let prefix = char_units(self@.take(i as int));
                let next = char_units(self@.take(i + 1 as int));
                assert(next =~= prefix.push(self@[i as int] as u32));
                assert(next.drop_last() =~= prefix);
            }
            i = i + 1;
        }
        proof {
            assert(self@.take(n as int) =~= self@);
        }
        h
    }
}

impl Hashable for [u8; 4] {
    /// Fixed four-byte keys hash their bytes in order.
    open spec fn hash_spec(&self) -> u32 {
        hash_units(byte_units(self@))
    }

    proof fn hash_respects_view(a: Self, b: Self) {
    }

    fn hash(&self) -> (r: u32) {
        let mut h: u32 = 0;
        let mut i: usize = 0;
        while i < 4
            invariant
                i <= 4,
                h == hash_units(byte_units(self@.take(i as int))),
            decreases 4 - i,
        {
            let b = self[i];
            let highorder = h & 0xf800_0000u32;
            h = h << 5u32;
            h = h ^ (highorder >> 27u32);
            h = h ^ (b as u32);
            proof {
                let prefix = byte_units(self@.take(i as int));
                let next = byte_units(self@.take(i + 1 as int));
                assert(next =~= prefix.push(self@[i as int] as u32));
                assert(next.drop_last() =~= prefix);
            }
            i = i + 1;
        }
        proof {
            assert(self@.take(4int) =~= self@);
        }
        h
    }
}

} // verus!
