//! Sample buffers: three channel sums per pixel, row by row.
use vstd::prelude::*;

use crate::color::{sat, Color, ONE};
use crate::sphere::{isqrt, isqrt_of};

verus! {

/// Sum of a sequence of integers.
pub open spec fn seq_sum(s: Seq<int>) -> int
    decreases s.len(),
{
    if s.len() == 0 {
        0
    } else {
        seq_sum(s.drop_last()) + s.last()
    }
}

/// The entries at index `i` of all buffers, added up.
pub open spec fn column_sum(bufs: Seq<Vec<u64>>, i: int) -> int
    decreases bufs.len(),
{
    if bufs.len() == 0 {
        0
    } else {
        column_sum(bufs.drop_last(), i) + bufs.last()@[i] as int
    }
}

/// A buffer of `len` zero sums.
pub fn zeroed(len: usize) -> (r: Vec<u64>)
    ensures
        r@ == Seq::new(len as nat, |i: int| 0u64),
{
    let mut r: Vec<u64> = Vec::new();
    while r.len() < len
        invariant
            r.len() <= len,
            forall|j: int| 0 <= j < r.len() ==> r@[j] == 0,
        decreases len - r.len(),
    {
        r.push(0);
    }
    assert(r@ =~= Seq::new(len as nat, |i: int| 0u64));
    r
}

/// Adds the color of one sample to the sums of pixel `pixel`.
pub fn accumulate(buf: &mut Vec<u64>, pixel: usize, c: &Color)
    requires
        3 * pixel + 2 < old(buf).len(),
        old(buf)@[3 * pixel] + c.x <= u64::MAX,
        old(buf)@[3 * pixel + 1] + c.y <= u64::MAX,
        old(buf)@[3 * pixel + 2] + c.z <= u64::MAX,
    ensures
        final(buf)@ == old(buf)@.update(3 * pixel, (old(buf)@[3 * pixel] + c.x) as u64).update(
            3 * pixel + 1,
            (old(buf)@[3 * pixel + 1] + c.y) as u64,
        ).update(3 * pixel + 2, (old(buf)@[3 * pixel + 2] + c.z) as u64),
{
    let k = 3 * pixel;
    buf.set(k, buf[k] + c.x as u64);
    buf.set(k + 1, buf[k + 1] + c.y as u64);
    buf.set(k + 2, buf[k + 2] + c.z as u64);
}

proof fn lemma_column_prefix(bufs: Seq<Vec<u64>>, k: int, i: int)
    requires
        0 <= k <= bufs.len(),
    ensures
        column_sum(bufs.take(k), i) <= column_sum(bufs, i),
    decreases bufs.len(),
{
    if k == bufs.len() {
        assert(bufs.take(k) =~= bufs);
    } else {
        assert(bufs.drop_last().take(k) =~= bufs.take(k));
        lemma_column_prefix(bufs.drop_last(), k, i);
    }
}

/// Adds up the workers' buffers entry by entry.
pub fn merge(buffers: &Vec<Vec<u64>>, len: usize) -> (r: Vec<u64>)
    requires
        forall|w: int| 0 <= w < buffers.len() ==> (#[trigger] buffers@[w]).len() == len,
        forall|i: int| 0 <= i < len ==> column_sum(buffers@, i) <= u64::MAX,
    ensures
        r.len() == len,
        forall|i: int| 0 <= i < len ==> r@[i] == column_sum(buffers@, i),
{
    let mut r = zeroed(len);
    let mut w: usize = 0;
    assert forall|i: int| 0 <= i < len implies r@[i] == column_sum(buffers@.take(0), i) by {
        assert(buffers@.take(0).len() == 0);
    }
    while w < buffers.len()
        invariant
            w <= buffers.len(),
            r.len() == len,
            forall|v: int| 0 <= v < buffers.len() ==> (#[trigger] buffers@[v]).len() == len,
            forall|i: int| 0 <= i < len ==> column_sum(buffers@, i) <= u64::MAX,
            forall|i: int| 0 <= i < len ==> r@[i] == column_sum(buffers@.take(w as int), i),
        decreases buffers.len() - w,
    {
        let ghost before = r@;
        let ghost next = buffers@.take(w + 1);
        assert(next.drop_last() =~= buffers@.take(w as int));
        assert(next.last() == buffers@[w as int]);
        let b = &buffers[w];
        let mut i: usize = 0;
        while i < len
            invariant
                w < buffers.len(),
                i <= len,
                r.len() == len,
                b.len() == len,
                *b == buffers@[w as int],
                next == buffers@.take(w + 1),
                forall|j: int| 0 <= j < len ==> column_sum(buffers@, j) <= u64::MAX,
                forall|j: int| 0 <= j < len ==> column_sum(next, j) == before[j] + b@[j],
                forall|j: int| 0 <= j < i ==> r@[j] == column_sum(next, j),
                forall|j: int| i <= j < len ==> r@[j] == before[j],
            decreases len - i,
        {
            proof {
                lemma_column_prefix(buffers@, w + 1, i as int);
            }
            let s = r[i] + b[i];
            r.set(i, s);
            i = i + 1;
        }
        w = w + 1;
    }
    assert(buffers@.take(w as int) =~= buffers@);
    r
}

/// Divides each sum by the number of samples taken, saturating to a channel value.
pub fn average(sums: &Vec<u64>, count: u64) -> (r: Vec<u32>)
    requires
        count > 0,
    ensures
        r.len() == sums.len(),
        forall|i: int| 0 <= i < sums.len() ==> r@[i] == sat(sums@[i] as int / count as int),
{
    let mut r: Vec<u32> = Vec::new();
    let mut i: usize = 0;
    while i < sums.len()
        invariant
            i <= sums.len(),
            r.len() == i,
            count > 0,
            forall|j: int| 0 <= j < i ==> r@[j] == sat(sums@[j] as int / count as int),
        decreases sums.len() - i,
    {
        let q = sums[i] / count;
        r.push(if q > u32::MAX as u64 { u32::MAX } else { q as u32 });
        i = i + 1;
    }
    r
}

proof fn lemma_sum_concat(a: Seq<int>, b: Seq<int>)
    ensures
        seq_sum(a + b) == seq_sum(a) + seq_sum(b),
    decreases b.len(),
{
    if b.len() == 0 {
        assert(a + b =~= a);
    } else {
        assert((a + b).drop_last() =~= a + b.drop_last());
        lemma_sum_concat(a, b.drop_last());
    }
}

/// Splitting samples among workers does not change the result: where worker `w`
/// summed its own samples `samples[w]` into entry `i` of its buffer, the merged
/// entry is the sum of all the samples taken one after another.
pub proof fn lemma_parallel_matches_serial(bufs: Seq<Vec<u64>>, samples: Seq<Seq<int>>, i: int)
    requires
        bufs.len() == samples.len(),
        forall|w: int| 0 <= w < bufs.len() ==> #[trigger] bufs[w]@[i] == seq_sum(samples[w]),
    ensures
        column_sum(bufs, i) == seq_sum(samples.flatten()),
    decreases bufs.len(),
{
    samples.lemma_flatten_and_flatten_alt_are_equivalent();
    if bufs.len() > 0 {
        let (b0, s0) = (bufs.drop_last(), samples.drop_last());
        assert forall|w: int| 0 <= w < b0.len() implies #[trigger] b0[w]@[i] == seq_sum(s0[w]) by {
            assert(b0[w] == bufs[w] && s0[w] == samples[w]);
        }
        lemma_parallel_matches_serial(b0, s0, i);
        s0.lemma_flatten_and_flatten_alt_are_equivalent();
        lemma_sum_concat(s0.flatten_alt(), samples.last());
        assert(bufs.last() == bufs[bufs.len() - 1]);
    }
}

/// Gamma correction with gamma two: each channel value `c`, standing for `c / ONE`,
/// becomes the fixed-point square root of that intensity, rounded down.
pub fn gamma_encode(values: &mut Vec<u32>)
    ensures
        final(values).len() == old(values).len(),
        forall|i: int|
            0 <= i < old(values).len() ==> final(values)@[i] as int == isqrt_of(
                old(values)@[i] as int * ONE as int,
            ),
{
    let ghost start = values@;
    let mut i: usize = 0;
    while i < values.len()
        invariant
            i <= values.len(),
            values.len() == start.len(),
            forall|j: int| 0 <= j < i ==> values@[j] as int == isqrt_of(start[j] as int * ONE as int),
            forall|j: int| i <= j < values.len() ==> values@[j] == start[j],
        decreases values.len() - i,
    {
        let c = values[i];
        let s = isqrt(c as u128 * ONE as u128);
        proof {
            assert(s < 0x100_0000) by (nonlinear_arith)
                requires
                    s * s <= c * 0x1_0000,
                    c <= 0xffff_ffff,
                    s >= 0,
            ;
        }
        values.set(i, s as u32);
        i = i + 1;
    }
}

} // verus!
