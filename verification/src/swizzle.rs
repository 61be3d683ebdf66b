//! Red-blue channel swap for 32-bit pixels (BGRA8 and RGBA8).

use vstd::prelude::*;

verus! {

/// The bytes with the first and third of every four changed places.
pub open spec fn swapped(s: Seq<u8>) -> Seq<u8> {
    Seq::new(
        s.len(),
        |k: int|
            if k % 4 == 0 {
                s[k + 2]
            } else if k % 4 == 2 {
                s[k - 2]
            } else {
                s[k]
            },
    )
}

/// Swapping twice gives the bytes back.
pub proof fn law_swap_is_self_inverse(s: Seq<u8>)
    requires
        s.len() % 4 == 0,
    ensures
        swapped(swapped(s)) == s,
{
    assert(swapped(swapped(s)) =~= s);
}

/// Copies `src` into `dst`, swapping bytes 0 and 2 of every pixel. Gives
/// `false`, having written nothing, where the two are not equally many whole
/// pixels.
pub fn swap_rb(src: &[u8], dst: &mut [u8]) -> (done: bool)
    ensures
        done == (src@.len() == old(dst)@.len() && src@.len() % 4 == 0),
        done ==> final(dst)@ == swapped(src@),
        !done ==> final(dst)@ == old(dst)@,
{
    let n: usize = src.len();
    if n != dst.len() || n % 4 != 0 {
        return false;
    }
    let mut i: usize = 0;
    while i < n
        invariant
            n == src@.len(),
            n == dst@.len(),
            n % 4 == 0,
            i <= n,
            i % 4 == 0,
            forall|k: int| 0 <= k < i ==> #[trigger] dst@[k] == swapped(src@)[k],
        decreases n - i,
    {
        dst[i] = src[i + 2];
        dst[i + 1] = src[i + 1];
        dst[i + 2] = src[i];
        dst[i + 3] = src[i + 3];
        i = i + 4;
    }
    proof {
        assert(dst@ =~= swapped(src@));
    }
    true
}

} // verus!
