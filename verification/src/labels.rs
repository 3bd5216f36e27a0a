//! Which points of a finding carry a label on the map: one point in `k`
//! beyond `LABEL_MAX` labels, with the milestones (zone bounds, anchors,
//! junction) always labelled. Where the labels go around the loop is
//! computed by the application.
use vstd::prelude::*;

verus! {

broadcast use vstd::seq_lib::group_seq_properties;

/// Largest number of labels of a finding before sampling.
pub const LABEL_MAX: usize = 120;

/// Sampling step of `count` points: `1` up to `label_max` points, else the
/// ceiling of `count / label_max`.
pub open spec fn stride_of(count: nat, label_max: nat) -> nat {
    if count > label_max {
        ((count + label_max - 1) / label_max as int) as nat
    } else {
        1
    }
}

/// Sampling step of `count` points.
pub fn label_stride(count: usize, label_max: usize) -> (r: usize)
    requires
        label_max > 0,
    ensures
        r == stride_of(count as nat, label_max as nat),
        r >= 1,
{
    if count > label_max {
        let q = count / label_max;
        let r = count % label_max;
        proof {
            assert(count == label_max * q + r) by (nonlinear_arith)
                requires
                    q == count / label_max,
                    r == count % label_max,
                    label_max > 0,
            ;
            assert(q >= 1) by (nonlinear_arith)
                requires
                    q == count / label_max,
                    count > label_max,
                    label_max > 0,
            ;
            lemma_ceil(count as int, label_max as int, q as int, r as int);
        }
        if r == 0 {
            q
        } else {
            assert(q < usize::MAX) by (nonlinear_arith)
                requires
                    count == label_max * q + r,
                    0 < r < label_max,
                    q >= 1,
                    count <= usize::MAX,
            ;
            q + 1
        }
    } else {
        1
    }
}

proof fn lemma_ceil(n: int, d: int, q: int, r: int)
    requires
        d > 0,
        n == d * q + r,
        0 <= r < d,
    ensures
        (n + d - 1) / d == if r == 0 { q } else { q + 1 },
{
    if r == 0 {
        assert((d * q + d - 1) / d == q) by (nonlinear_arith)
            requires
                d > 0,
        ;
    } else {
        assert((d * q + r + d - 1) / d == q + 1) by (nonlinear_arith)
            requires
                d > 0,
                0 < r < d,
        ;
    }
}

/// Points `lo..=hi` carrying a label: every `stride`-th from `lo`, and the
/// milestones `ms`, in increasing order, each once.
pub open spec fn labelled(lo: int, hi: int, stride: int, ms: Seq<usize>) -> Seq<int> {
    Seq::new(if hi >= lo { (hi - lo + 1) as nat } else { 0 }, |k: int| lo + k).filter(
        |i: int| (i - lo) % stride == 0 || ms.contains(i as usize),
    )
}

/// Points `lo..=hi` carrying a label, sampled one in `stride` and with the
/// milestones `milestones` added.
pub fn labelled_indices(lo: usize, hi: usize, stride: usize, milestones: &Vec<usize>) -> (r: Vec<usize>)
    requires
        stride >= 1,
        hi < usize::MAX,
    ensures
        r@ == labelled(lo as int, hi as int, stride as int, milestones@).map_values(|i: int| i as usize),
{
    let ghost all = Seq::new(if hi >= lo { (hi - lo + 1) as nat } else { 0 }, |k: int| lo + k);
    let ghost p = |i: int| (i - lo) % (stride as int) == 0 || milestones@.contains(i as usize);
    let mut out: Vec<usize> = Vec::new();
    if lo > hi {
        assert(all.filter(p) =~= Seq::<int>::empty());
        assert(out@ =~= all.filter(p).map_values(|i: int| i as usize));
        return out;
    }
    let mut i: usize = lo;
    assert(all.subrange(0, 0).filter(p) =~= Seq::<int>::empty());
    while i <= hi
        invariant
            lo <= i <= hi + 1,
            hi < usize::MAX,
            stride >= 1,
            all == Seq::new((hi - lo + 1) as nat, |k: int| lo + k),
            p == (|i: int| (i - lo) % (stride as int) == 0 || milestones@.contains(i as usize)),
            out@ == all.subrange(0, i - lo).filter(p).map_values(|i: int| i as usize),
        decreases hi + 1 - i,
    {
        let k = i - lo;
        let mut is_milestone = false;
        let mut m: usize = 0;
        while m < milestones.len()
            invariant
                0 <= m <= milestones@.len(),
                is_milestone == exists|q: int| 0 <= q < m && milestones@[q] == i,
            decreases milestones.len() - m,
        {
            if milestones[m] == i {
                is_milestone = true;
            }
            m = m + 1;
        }
        assert(is_milestone == milestones@.contains(i)) by {
            if milestones@.contains(i) {
                let q = choose|q: int| 0 <= q < milestones@.len() && milestones@[q] == i;
                assert(0 <= q < m);
            }
        }
        let keep = k % stride == 0 || is_milestone;
        assert(keep == p(i as int));
        assert(all.subrange(0, k + 1) =~= all.subrange(0, k as int).push(i as int));
        proof {
            all.subrange(0, k as int).lemma_filter_push(i as int, p);
        }
        if keep {
            out.push(i);
        }
        assert(out@ =~= all.subrange(0, k + 1).filter(p).map_values(|i: int| i as usize));
        i = i + 1;
    }
    assert(all.subrange(0, hi - lo + 1) =~= all);
    out
}

} // verus!

verus! {

/// Offset in pixels of the label of the `rank`-th point of a corrected
/// out-and-back: fanned alternately right and left, 24 px further at each
/// rank, and staggered upwards on three rows.
pub open spec fn fan_offset_of(rank: int) -> (int, int) {
    (if rank % 2 == 1 { -24 * (rank + 1) } else { 24 * (rank + 1) }, -50 - 22 * (rank % 3))
}

/// Offset in pixels of the label of the `rank`-th point of a corrected
/// out-and-back.
pub fn fan_offset(rank: usize) -> (r: (i64, i64))
    requires
        rank < 0x1_0000_0000,
    ensures
        (r.0 as int, r.1 as int) == fan_offset_of(rank as int),
{
    let step: i64 = 24 * (rank as i64 + 1);
    let dx: i64 = if rank % 2 == 1 { -step } else { step };
    let dy: i64 = -50 - 22 * ((rank % 3) as i64);
    (dx, dy)
}

} // verus!
