//! Helpers for the word buffers that back the disk pool and main memory:
//! copying a range out of a buffer and overwriting a range in place.

use vstd::prelude::*;

verus! {

/// The sequence `s` with the words of `d` written over the range starting
/// at `at`; everything outside that range keeps its old value.
pub open spec fn overwrite(s: Seq<u32>, at: int, d: Seq<u32>) -> Seq<u32> {
    Seq::new(
        s.len(),
        |i: int|
            if at <= i < at + d.len() {
                d[i - at]
            } else {
                s[i]
            },
    )
}

/// A fresh buffer of `n` zeroed words.
pub fn zero_words(n: usize) -> (r: Vec<u32>)
    ensures
        r@ == Seq::new(n as nat, |i: int| 0u32),
{
    let mut r: Vec<u32> = Vec::new();
    let mut i: usize = 0;
    while i < n
        invariant
            i <= n,
            r@ == Seq::new(i as nat, |j: int| 0u32),
        decreases n - i,
    {
        r.push(0);
        i = i + 1;
        proof {
            assert(r@ =~= Seq::new(i as nat, |j: int| 0u32));
        }
    }
    r
}

/// Copies the words of `data` in `[start, end)` into a fresh vector.
pub fn copy_words(data: &Vec<u32>, start: usize, end: usize) -> (r: Vec<u32>)
    requires
        start <= end <= data@.len(),
    ensures
        r@ == data@.subrange(start as int, end as int),
{
    let mut r: Vec<u32> = Vec::new();
    let mut i: usize = start;
    while i < end
        invariant
            start <= i <= end <= data@.len(),
            r@ == data@.subrange(start as int, i as int),
        decreases end - i,
    {
        r.push(data[i]);
        i = i + 1;
        proof {
            assert(r@ =~= data@.subrange(start as int, i as int));
        }
    }
    r
}

/// Writes the words of `src` into `dst` starting at `at`, leaving the rest
/// of `dst` unchanged.
pub fn write_words(dst: &mut Vec<u32>, at: usize, src: &[u32])
    requires
        at + src@.len() <= old(dst)@.len(),
    ensures
        final(dst)@ == overwrite(old(dst)@, at as int, src@),
{
    let n: usize = dst.len();
    let mut i: usize = 0;
    while i < src.len()
        invariant
            i <= src@.len(),
            at + src@.len() <= n,
            n == dst@.len(),
            dst@.len() == old(dst)@.len(),
            forall|k: int| 0 <= k < i ==> dst@[at + k] == src@[k],
            forall|k: int|
                0 <= k < dst@.len() && !(at <= k < at + i) ==> dst@[k] == old(dst)@[k],
        decreases src@.len() - i,
    {
        dst[at + i] = src[i];
        i = i + 1;
    }
    proof {
        assert(dst@ =~= overwrite(old(dst)@, at as int, src@));
    }
}

} // verus!
