//! The reordering step of an in-place radix-2 FFT over `FFT_SIZE` points:
//! each point moves to the index whose `FFT_BITS` low bits are its own
//! index's bits in reverse order.

use vstd::prelude::*;

use crate::BLOCK_SIZE;

verus! {

/// Number of points of the transform: a block followed by as many zeros.
pub const FFT_SIZE: usize = 2 * BLOCK_SIZE;

/// `FFT_SIZE` is two to this power.
pub const FFT_BITS: u32 = 13;

/// The index whose low `FFT_BITS` bits are those of `i` in reverse order.
pub open spec fn reversed_index(i: u64) -> u64 {
        ((i & 1u64) << 12u64)
        | (((i >> 1u64) & 1u64) << 11u64)
        | (((i >> 2u64) & 1u64) << 10u64)
        | (((i >> 3u64) & 1u64) << 9u64)
        | (((i >> 4u64) & 1u64) << 8u64)
        | (((i >> 5u64) & 1u64) << 7u64)
        | (((i >> 6u64) & 1u64) << 6u64)
        | (((i >> 7u64) & 1u64) << 5u64)
        | (((i >> 8u64) & 1u64) << 4u64)
        | (((i >> 9u64) & 1u64) << 3u64)
        | (((i >> 10u64) & 1u64) << 2u64)
        | (((i >> 11u64) & 1u64) << 1u64)
        | ((i >> 12u64) & 1u64)
}

/// Reversing the bits keeps an index in range, and reversing twice gives
/// the index back.
pub proof fn lemma_reversed_index_involution(i: u64)
    requires
        i < FFT_SIZE,
    ensures
        reversed_index(i) < FFT_SIZE,
        reversed_index(reversed_index(i)) == i,
{
    assert(reversed_index(i) < 8192u64 && reversed_index(reversed_index(i)) == i) by (bit_vector)
        requires
            i < 8192u64,
    ;
}

/// `s` with every point moved to its bit-reversed index.
pub open spec fn bit_reversed<T>(s: Seq<T>) -> Seq<T> {
    Seq::new(FFT_SIZE as nat, |p: int| s[reversed_index(p as u64) as int])
}

/// Reordering twice gives the points back in their first order.
pub proof fn lemma_bit_reversed_twice<T>(s: Seq<T>)
    requires
        s.len() == FFT_SIZE,
    ensures
        bit_reversed(bit_reversed(s)) == s,
{
    assert forall|p: int| 0 <= p < FFT_SIZE implies #[trigger] bit_reversed(bit_reversed(s))[p]
        == s[p] by {
        lemma_reversed_index_involution(p as u64);
    }
    assert(bit_reversed(bit_reversed(s)) =~= s);
}

/// The index whose low `FFT_BITS` bits are those of `i` reversed.
pub fn reverse_index(i: usize) -> (r: usize)
    requires
        i < FFT_SIZE,
    ensures
        r as u64 == reversed_index(i as u64),
        r < FFT_SIZE,
{
    let i: u64 = i as u64;
    proof {
        lemma_reversed_index_involution(i);
    }
    let r: u64 =
            ((i & 1u64) << 12u64)
            | (((i >> 1u64) & 1u64) << 11u64)
            | (((i >> 2u64) & 1u64) << 10u64)
            | (((i >> 3u64) & 1u64) << 9u64)
            | (((i >> 4u64) & 1u64) << 8u64)
            | (((i >> 5u64) & 1u64) << 7u64)
            | (((i >> 6u64) & 1u64) << 6u64)
            | (((i >> 7u64) & 1u64) << 5u64)
            | (((i >> 8u64) & 1u64) << 4u64)
            | (((i >> 9u64) & 1u64) << 3u64)
            | (((i >> 10u64) & 1u64) << 2u64)
            | (((i >> 11u64) & 1u64) << 1u64)
            | ((i >> 12u64) & 1u64);
    r as usize
}

/// Moves every point to its bit-reversed index, by swapping each pair of
/// indices that are each other's reversal once.
pub fn bit_reverse_permute<T: Copy>(data: &mut [T])
    requires
        old(data)@.len() == FFT_SIZE,
    ensures
        final(data)@ == bit_reversed(old(data)@),
{
    let ghost before = data@;
    let mut i: usize = 0;
    while i < FFT_SIZE
        invariant
            i <= FFT_SIZE,
            data@.len() == FFT_SIZE,
            before == old(data)@,
            forall|p: int|
                #![trigger data@[p]]
                0 <= p < FFT_SIZE ==> {
                    let q = reversed_index(p as u64) as int;
                    if p < i || q < i {
                        data@[p] == before[q]
                    } else {
                        data@[p] == before[p]
                    }
                },
        decreases FFT_SIZE - i,
    {
        let r = reverse_index(i);
        proof {
            lemma_reversed_index_involution(i as u64);
            assert forall|p: int| 0 <= p < FFT_SIZE implies #[trigger] reversed_index(p as u64) < FFT_SIZE
                && reversed_index(reversed_index(p as u64)) == p as u64 by {
                lemma_reversed_index_involution(p as u64);
            }
        }
        if i < r {
            let a = data[i];
            let b = data[r];
            data[i] = b;
            data[r] = a;
        }
        i = i + 1;
    }
    assert(data@ =~= bit_reversed(before));
}

} // verus!
