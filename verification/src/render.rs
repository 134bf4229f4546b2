//! The sampling driver's bookkeeping: which pixels to render, and how the
//! results fall into raster order.

use vstd::prelude::*;
use vstd::arithmetic::div_mod::lemma_fundamental_div_mod_converse;
use vstd::seq_lib::{
    lemma_multiset_commutative, to_multiset_build, to_multiset_contains, to_multiset_len,
};
use crate::output::Pixel;
use crate::vec::Vector3;

verus! {

/// The job at place `k` of the job list of an image `width` pixels wide:
/// (column, row).
pub open spec fn job_at(width: u32, k: int) -> (u32, u32) {
    ((k % (width as int)) as u32, (k / (width as int)) as u32)
}

/// The place of the job for column `i` of row `j` in that list.
pub open spec fn job_index(width: u32, i: int, j: int) -> int {
    j * width + i
}

/// One job for each pixel of a `width` by `height` image, row after row,
/// each as (column, row).
pub fn prepare_jobs(height: u32, width: u32) -> (jobs: Vec<(u32, u32)>)
    ensures
        jobs@.len() == height * width,
        forall|k: int| 0 <= k < jobs@.len() ==> #[trigger] jobs@[k] == job_at(width, k),
        forall|i: int, j: int|
            0 <= i < width && 0 <= j < height ==> 0 <= #[trigger] job_index(width, i, j)
                < jobs@.len() && jobs@[job_index(width, i, j)] == (i as u32, j as u32),
{
    let mut jobs: Vec<(u32, u32)> = Vec::new();
    let mut j: u32 = 0;
    while j < height
        invariant
            j <= height,
            jobs@.len() == j * width,
            forall|k: int| 0 <= k < jobs@.len() ==> #[trigger] jobs@[k] == job_at(width, k),
        decreases height - j,
    {
        let mut i: u32 = 0;
        while i < width
            invariant
                j < height,
                i <= width,
                jobs@.len() == j * width + i,
                forall|k: int| 0 <= k < jobs@.len() ==> #[trigger] jobs@[k] == job_at(width, k),
            decreases width - i,
        {
            proof {
                lemma_fundamental_div_mod_converse(j * width + i, width as int, j as int, i as int);
            }
            jobs.push((i, j));
            i = i + 1;
        }
        proof {
            assert((j + 1) * width == j * width + width) by (nonlinear_arith);
        }
        j = j + 1;
    }
    proof {
        assert forall|a: int, b: int| 0 <= a < width && 0 <= b < height implies 0
            <= #[trigger] job_index(width, a, b) < jobs@.len() && jobs@[job_index(width, a, b)] == (
            a as u32,
            b as u32,
        ) by {
            lemma_fundamental_div_mod_converse(b * width + a, width as int, b, a);
            assert(b * width + a < height * width) by (nonlinear_arith)
                requires
                    0 <= a < width,
                    0 <= b < height,
            ;
            assert(0 <= b * width) by (nonlinear_arith)
                requires
                    0 <= b,
                    0 <= width,
            ;
            assert(jobs@[b * width + a] == job_at(width, b * width + a));
        }
    }
    jobs
}

/// The result of the job for column `i` and row `j` of an image `height`
/// pixels high, given the colour sum of its samples. Jobs count their rows
/// from the bottom and the raster counts them from the top: the result
/// lies in raster row `height - j`.
pub fn place_pixel(color: Vector3, i: u32, j: u32, height: u32) -> (p: Pixel)
    requires
        j <= height,
    ensures
        p == (Pixel { color, x: i, y: (height - j) as u32 }),
{
    Pixel::new(color, i, height - j)
}

/// The pixels of `s` whose raster index is `k`, in the order in which `s`
/// holds them.
pub open spec fn with_index(s: Seq<Pixel>, width: u32, k: int) -> Seq<Pixel>
    decreases s.len(),
{
    if s.len() == 0 {
        Seq::empty()
    } else if s.last().raster_index(width) == k {
        with_index(s.drop_last(), width, k).push(s.last())
    } else {
        with_index(s.drop_last(), width, k)
    }
}

/// Whether the raster indices of `s` never fall from one pixel to the next.
pub open spec fn in_raster_order(s: Seq<Pixel>, width: u32) -> bool {
    forall|i: int, j: int|
        0 <= i < j < s.len() ==> s[i].raster_index(width) <= s[j].raster_index(width)
}

/// Whether every pixel of `s` has a raster index that fits in 32 bits.
pub open spec fn indexable(s: Seq<Pixel>, width: u32) -> bool {
    forall|i: int| 0 <= i < s.len() ==> (#[trigger] s[i]).raster_index(width) <= u32::MAX
}

/// Whether `out` is `inp` brought into raster order: the same pixels, their
/// raster indices never falling, and pixels of one raster index in the
/// order in which `inp` holds them.
pub open spec fn is_raster_order_of(out: Seq<Pixel>, inp: Seq<Pixel>, width: u32) -> bool {
    &&& in_raster_order(out, width)
    &&& out.to_multiset() == inp.to_multiset()
    &&& forall|k: int| #[trigger] with_index(out, width, k) == with_index(inp, width, k)
}

/// A sequence that holds no pixel of raster index `k` has none to select.
proof fn lemma_with_index_absent(s: Seq<Pixel>, width: u32, k: int)
    requires
        forall|i: int| 0 <= i < s.len() ==> (#[trigger] s[i]).raster_index(width) != k,
    ensures
        with_index(s, width, k) == Seq::<Pixel>::empty(),
    decreases s.len(),
{
    if s.len() > 0 {
        lemma_with_index_absent(s.drop_last(), width, k);
    }
}

/// Selecting by raster index goes through concatenation.
proof fn lemma_with_index_concat(a: Seq<Pixel>, b: Seq<Pixel>, width: u32, k: int)
    ensures
        with_index(a + b, width, k) == with_index(a, width, k) + with_index(b, width, k),
    decreases b.len(),
{
    if b.len() == 0 {
        assert(a + b == a);
        assert(with_index(a, width, k) + Seq::<Pixel>::empty() == with_index(a, width, k));
    } else {
        lemma_with_index_concat(a, b.drop_last(), width, k);
        assert((a + b).drop_last() == a + b.drop_last());
        assert((a + b).last() == b.last());
        if b.last().raster_index(width) == k {
            assert((with_index(a, width, k) + with_index(b.drop_last(), width, k)).push(b.last())
                == with_index(a, width, k) + with_index(b.drop_last(), width, k).push(b.last()));
        }
    }
}

/// Merges two runs, each in raster order, into one. Where a pixel of each
/// has the same raster index, that of `left` comes first.
fn merge(left: &Vec<Pixel>, right: &Vec<Pixel>, width: u32) -> (out: Vec<Pixel>)
    requires
        in_raster_order(left@, width),
        in_raster_order(right@, width),
        indexable(left@, width),
        indexable(right@, width),
    ensures
        is_raster_order_of(out@, left@ + right@, width),
        indexable(out@, width),
{
    let mut out: Vec<Pixel> = Vec::new();
    let mut i: usize = 0;
    let mut j: usize = 0;
    proof {
        assert(left@.take(0) == Seq::<Pixel>::empty());
        assert(right@.take(0) == Seq::<Pixel>::empty());
        assert forall|k: int| #[trigger]
            with_index(out@, width, k) == with_index(left@.take(0), width, k) + with_index(
                right@.take(0),
                width,
                k,
            ) by {
            assert(with_index(out@, width, k) == Seq::<Pixel>::empty());
            assert(Seq::<Pixel>::empty() + Seq::<Pixel>::empty() == Seq::<Pixel>::empty());
        }
        lemma_multiset_commutative(Seq::<Pixel>::empty(), Seq::<Pixel>::empty());
        assert(Seq::<Pixel>::empty() + Seq::<Pixel>::empty() == Seq::<Pixel>::empty());
    }
    while i < left.len() || j < right.len()
        invariant
            i <= left@.len(),
            j <= right@.len(),
            out@.len() == i + j,
            in_raster_order(left@, width),
            in_raster_order(right@, width),
            indexable(left@, width),
            indexable(right@, width),
            indexable(out@, width),
            in_raster_order(out@, width),
            forall|m: int|
                0 <= m < out@.len() && i < left@.len() ==> (#[trigger] out@[m]).raster_index(width)
                    <= left@[i as int].raster_index(width),
            forall|m: int|
                0 <= m < out@.len() && j < right@.len() ==> (#[trigger] out@[m]).raster_index(width)
                    <= right@[j as int].raster_index(width),
            forall|m: int|
                0 <= m < j && i < left@.len() ==> (#[trigger] right@[m]).raster_index(width)
                    < left@[i as int].raster_index(width),
            out@.to_multiset() == left@.take(i as int).to_multiset().add(
                right@.take(j as int).to_multiset(),
            ),
            forall|k: int| #[trigger]
                with_index(out@, width, k) == with_index(left@.take(i as int), width, k)
                    + with_index(right@.take(j as int), width, k),
        decreases left@.len() - i + right@.len() - j,
    {
        let ghost before = out@;
        let take_left = if j >= right.len() {
            true
        } else if i >= left.len() {
            false
        } else {
            left[i].index(width) <= right[j].index(width)
        };
        if take_left {
            let x = left[i];
            out.push(x);
            proof {
                let l0 = left@.take(i as int);
                let l1 = left@.take(i + 1);
                let r0 = right@.take(j as int);
                assert(l1 == l0.push(x));
                assert(l1.drop_last() == l0);
                assert(out@.drop_last() == before);
                to_multiset_build(before, x);
                to_multiset_build(l0, x);
                assert(out@.to_multiset() =~= l1.to_multiset().add(r0.to_multiset()));
                assert forall|k: int| #[trigger]
                    with_index(out@, width, k) == with_index(l1, width, k) + with_index(
                        r0,
                        width,
                        k,
                    ) by {
                    assert(with_index(before, width, k) == with_index(l0, width, k) + with_index(
                        r0,
                        width,
                        k,
                    ));
                    if x.raster_index(width) == k {
                        lemma_with_index_absent(r0, width, k);
                        assert(with_index(l0, width, k) + Seq::<Pixel>::empty() == with_index(
                            l0,
                            width,
                            k,
                        ));
                        assert(with_index(l1, width, k) + Seq::<Pixel>::empty() == with_index(
                            l1,
                            width,
                            k,
                        ));
                    }
                }
            }
            i = i + 1;
        } else {
            let y = right[j];
            out.push(y);
            proof {
                let l0 = left@.take(i as int);
                let r0 = right@.take(j as int);
                let r1 = right@.take(j + 1);
                assert(r1 == r0.push(y));
                assert(r1.drop_last() == r0);
                assert(out@.drop_last() == before);
                to_multiset_build(before, y);
                to_multiset_build(r0, y);
                assert(out@.to_multiset() =~= l0.to_multiset().add(r1.to_multiset()));
                assert forall|k: int| #[trigger]
                    with_index(out@, width, k) == with_index(l0, width, k) + with_index(
                        r1,
                        width,
                        k,
                    ) by {
                    assert(with_index(before, width, k) == with_index(l0, width, k) + with_index(
                        r0,
                        width,
                        k,
                    ));
                    if y.raster_index(width) == k {
                        assert((with_index(l0, width, k) + with_index(r0, width, k)).push(y)
                            == with_index(l0, width, k) + with_index(r0, width, k).push(y));
                    }
                }
            }
            j = j + 1;
        }
    }
    proof {
        assert(left@.take(i as int) == left@);
        assert(right@.take(j as int) == right@);
        lemma_multiset_commutative(left@, right@);
        assert forall|k: int| #[trigger]
            with_index(out@, width, k) == with_index(left@ + right@, width, k) by {
            lemma_with_index_concat(left@, right@, width, k);
        }
    }
    out
}

/// Brings the pixels from place `lo` up to place `hi` of `v` into raster
/// order, by merging its sorted halves.
fn sort_range(v: &Vec<Pixel>, lo: usize, hi: usize, width: u32) -> (out: Vec<Pixel>)
    requires
        lo <= hi <= v@.len(),
        indexable(v@, width),
    ensures
        is_raster_order_of(out@, v@.subrange(lo as int, hi as int), width),
        indexable(out@, width),
    decreases hi - lo,
{
    if hi - lo <= 1 {
        let mut out: Vec<Pixel> = Vec::new();
        if hi - lo == 1 {
            out.push(v[lo]);
        }
        proof {
            assert(out@ == v@.subrange(lo as int, hi as int));
        }
        out
    } else {
        let mid = lo + (hi - lo) / 2;
        let left = sort_range(v, lo, mid, width);
        let right = sort_range(v, mid, hi, width);
        let out = merge(&left, &right, width);
        proof {
            let a = v@.subrange(lo as int, mid as int);
            let b = v@.subrange(mid as int, hi as int);
            assert(a + b == v@.subrange(lo as int, hi as int));
            lemma_multiset_commutative(left@, right@);
            lemma_multiset_commutative(a, b);
            assert forall|k: int| #[trigger]
                with_index(out@, width, k) == with_index(a + b, width, k) by {
                lemma_with_index_concat(left@, right@, width, k);
                lemma_with_index_concat(a, b, width, k);
                assert(with_index(left@, width, k) == with_index(a, width, k));
                assert(with_index(right@, width, k) == with_index(b, width, k));
            }
        }
        out
    }
}

/// Brings the pixel results into raster order, whatever order they were
/// produced in: afterwards the raster indices never fall, and results of
/// one raster index keep the order they came in.
pub fn order_pixels(data: &mut Vec<Pixel>, width: u32)
    requires
        indexable(old(data)@, width),
    ensures
        is_raster_order_of(final(data)@, old(data)@, width),
{
    let n = data.len();
    let sorted = sort_range(data, 0, n, width);
    proof {
        assert(data@.subrange(0, n as int) == data@);
    }
    *data = sorted;
}

/// Whether no two pixels of `s` have the same raster index.
pub open spec fn distinct_indices(s: Seq<Pixel>, width: u32) -> bool {
    forall|i: int, j: int|
        0 <= i < s.len() && 0 <= j < s.len() && i != j ==> s[i].raster_index(width)
            != s[j].raster_index(width)
}

/// A selection that is not empty was made from a sequence that holds a
/// pixel of that raster index.
proof fn lemma_with_index_witness(s: Seq<Pixel>, width: u32, k: int) -> (i: int)
    requires
        with_index(s, width, k).len() > 0,
    ensures
        0 <= i < s.len(),
        s[i].raster_index(width) == k,
{
    if forall|i: int| 0 <= i < s.len() ==> (#[trigger] s[i]).raster_index(width) != k {
        lemma_with_index_absent(s, width, k);
        0
    } else {
        choose|i: int| 0 <= i < s.len() && (#[trigger] s[i]).raster_index(width) == k
    }
}

/// Among pixels of distinct raster indices, the selection for the index of
/// one of them is that pixel alone.
proof fn lemma_with_index_single(s: Seq<Pixel>, width: u32, i: int)
    requires
        distinct_indices(s, width),
        0 <= i < s.len(),
    ensures
        with_index(s, width, s[i].raster_index(width)) == seq![s[i]],
    decreases s.len(),
{
    let k = s[i].raster_index(width);
    let rest = s.drop_last();
    if i == s.len() - 1 {
        assert forall|m: int| 0 <= m < rest.len() implies (#[trigger] rest[m]).raster_index(width)
            != k by {
            assert(rest[m] == s[m]);
        }
        lemma_with_index_absent(rest, width, k);
        assert(Seq::<Pixel>::empty().push(s[i]) == seq![s[i]]);
    } else {
        assert(distinct_indices(rest, width)) by {
            assert forall|a: int, b: int|
                0 <= a < rest.len() && 0 <= b < rest.len() && a != b implies rest[a].raster_index(
                width,
            ) != rest[b].raster_index(width) by {
                assert(rest[a] == s[a] && rest[b] == s[b]);
            }
        }
        assert(rest[i] == s[i]);
        lemma_with_index_single(rest, width, i);
    }
}

/// There is one way only to bring pixels into raster order: two sequences
/// in raster order that agree on the pixels of each raster index, and on
/// their order, are the same sequence.
pub proof fn lemma_raster_order_is_unique(a: Seq<Pixel>, b: Seq<Pixel>, width: u32)
    requires
        in_raster_order(a, width),
        in_raster_order(b, width),
        forall|k: int| #[trigger] with_index(a, width, k) == with_index(b, width, k),
    ensures
        a == b,
    decreases a.len(),
{
    if a.len() == 0 {
        if b.len() > 0 {
            let k = b.last().raster_index(width);
            assert(with_index(b, width, k).len() > 0);
            assert(with_index(a, width, k).len() == 0);
        }
        assert(a =~= b);
    } else {
        let x = a.last();
        let m = x.raster_index(width);
        assert(with_index(a, width, m).last() == x);
        assert(with_index(b, width, m).len() > 0);
        let jb = lemma_with_index_witness(b, width, m);
        let y = b.last();
        let n = y.raster_index(width);
        assert(with_index(b, width, n).last() == y);
        assert(with_index(a, width, n).len() > 0);
        let ia = lemma_with_index_witness(a, width, n);
        assert(n <= m);
        assert(m <= n);
        assert(x == y);
        let a0 = a.drop_last();
        let b0 = b.drop_last();
        assert forall|k: int| #[trigger] with_index(a0, width, k) == with_index(b0, width, k) by {
            assert(with_index(a, width, k) == with_index(b, width, k));
            if k == m {
                assert(with_index(a0, width, k) == with_index(a, width, k).drop_last());
                assert(with_index(b0, width, k) == with_index(b, width, k).drop_last());
            }
        }
        lemma_raster_order_is_unique(a0, b0, width);
        assert(a == a0.push(x));
        assert(b == b0.push(y));
    }
}

/// Pixels of distinct raster indices stay so however they are shuffled.
proof fn lemma_shuffle_keeps_distinct(a: Seq<Pixel>, b: Seq<Pixel>, width: u32)
    requires
        a.to_multiset() == b.to_multiset(),
        distinct_indices(a, width),
    ensures
        distinct_indices(b, width),
{
    assert(a.no_duplicates());
    a.lemma_multiset_has_no_duplicates();
    b.lemma_multiset_has_no_duplicates_conv();
    assert forall|i: int, j: int|
        0 <= i < b.len() && 0 <= j < b.len() && i != j implies b[i].raster_index(width)
        != b[j].raster_index(width) by {
        to_multiset_contains(a, b[i]);
        to_multiset_contains(b, b[i]);
        to_multiset_contains(a, b[j]);
        to_multiset_contains(b, b[j]);
        assert(b.contains(b[i]));
        assert(b.contains(b[j]));
        let p = choose|p: int| 0 <= p < a.len() && a[p] == b[i];
        let q = choose|q: int| 0 <= q < a.len() && a[q] == b[j];
        assert(b[i] != b[j]);
        assert(p != q);
    }
}

/// The order in which the pixel results were produced does not show in the
/// raster: where every pixel has one result, two collections of the same
/// results come out of the ordering as the same sequence.
pub proof fn lemma_shuffle_invariance(
    a: Seq<Pixel>,
    b: Seq<Pixel>,
    out_a: Seq<Pixel>,
    out_b: Seq<Pixel>,
    width: u32,
)
    requires
        a.to_multiset() == b.to_multiset(),
        distinct_indices(a, width),
        is_raster_order_of(out_a, a, width),
        is_raster_order_of(out_b, b, width),
    ensures
        out_a == out_b,
{
    lemma_shuffle_keeps_distinct(a, b, width);
    assert forall|k: int| #[trigger] with_index(out_a, width, k) == with_index(out_b, width, k) by {
        assert(with_index(out_a, width, k) == with_index(a, width, k));
        assert(with_index(out_b, width, k) == with_index(b, width, k));
        if with_index(a, width, k).len() > 0 {
            let i = lemma_with_index_witness(a, width, k);
            lemma_with_index_single(a, width, i);
            to_multiset_contains(a, a[i]);
            to_multiset_contains(b, a[i]);
            assert(a.contains(a[i]));
            let j = choose|j: int| 0 <= j < b.len() && b[j] == a[i];
            lemma_with_index_single(b, width, j);
        } else if with_index(b, width, k).len() > 0 {
            let j = lemma_with_index_witness(b, width, k);
            lemma_with_index_single(b, width, j);
            to_multiset_contains(a, b[j]);
            to_multiset_contains(b, b[j]);
            assert(b.contains(b[j]));
            let i = choose|i: int| 0 <= i < a.len() && a[i] == b[j];
            lemma_with_index_single(a, width, i);
        } else {
            assert(with_index(a, width, k) =~= with_index(b, width, k));
        }
    }
    lemma_raster_order_is_unique(out_a, out_b, width);
}

/// Results that were produced in raster order are left as they are.
pub proof fn lemma_raster_order_is_kept(a: Seq<Pixel>, out: Seq<Pixel>, width: u32)
    requires
        in_raster_order(a, width),
        is_raster_order_of(out, a, width),
    ensures
        out == a,
{
    lemma_raster_order_is_unique(out, a, width);
}

/// Whether `s` holds one result for every pixel of a raster `width` wide
/// and `height` high, its rows numbered from 1.
pub open spec fn fills_raster(s: Seq<Pixel>, width: u32, height: u32) -> bool {
    &&& s.len() == width * height
    &&& distinct_indices(s, width)
    &&& forall|m: int|
        0 <= m < s.len() ==> (#[trigger] s[m]).x < width && 1 <= s[m].y <= height
}

/// Raster indices that never fall and never repeat grow by one at least
/// from each pixel to the next.
proof fn lemma_indices_grow(s: Seq<Pixel>, width: u32, lo: int, hi: int)
    requires
        in_raster_order(s, width),
        distinct_indices(s, width),
        0 <= lo <= hi < s.len(),
    ensures
        s[lo].raster_index(width) + (hi - lo) <= s[hi].raster_index(width),
    decreases hi - lo,
{
    if lo < hi {
        lemma_indices_grow(s, width, lo, hi - 1);
        assert(s[hi - 1].raster_index(width) <= s[hi].raster_index(width));
        assert(s[hi - 1].raster_index(width) != s[hi].raster_index(width));
    }
}

/// A raster with one result for every pixel comes out of the ordering row
/// after row from the top, each row from the left: place `k` holds the
/// result of column `k % width` in raster row `k / width + 1`.
pub proof fn lemma_full_raster_layout(
    results: Seq<Pixel>,
    out: Seq<Pixel>,
    width: u32,
    height: u32,
)
    requires
        fills_raster(results, width, height),
        is_raster_order_of(out, results, width),
    ensures
        out.len() == width * height,
        forall|k: int|
            0 <= k < out.len() ==> (#[trigger] out[k]).x == k % (width as int) && out[k].y == k / (
            width as int) + 1,
{
    to_multiset_len(results);
    to_multiset_len(out);
    lemma_shuffle_keeps_distinct(results, out, width);
    let n = out.len() as int;
    assert forall|k: int| 0 <= k < n implies (#[trigger] out[k]).x < width && 1 <= out[k].y
        <= height by {
        to_multiset_contains(results, out[k]);
        to_multiset_contains(out, out[k]);
        assert(out.contains(out[k]));
        let m = choose|m: int| 0 <= m < results.len() && results[m] == out[k];
        assert(results[m].x < width);
    }
    assert forall|k: int| 0 <= k < n implies (#[trigger] out[k]).x == k % (width as int)
        && out[k].y == k / (width as int) + 1 by {
        let first = out[0];
        let last = out[n - 1];
        let p = out[k];
        lemma_indices_grow(out, width, 0, k);
        lemma_indices_grow(out, width, k, n - 1);
        assert(width <= first.raster_index(width)) by (nonlinear_arith)
            requires
                first.raster_index(width) == first.y * width + first.x,
                1 <= first.y,
                0 <= first.x,
        ;
        assert(last.raster_index(width) <= width * height + width - 1) by (nonlinear_arith)
            requires
                last.raster_index(width) == last.y * width + last.x,
                last.y <= height,
                last.x < width,
        ;
        assert(p.raster_index(width) == width + k);
        assert((p.y - 1) * width + p.x == k) by (nonlinear_arith)
            requires
                p.y * width + p.x == width + k,
        ;
        lemma_fundamental_div_mod_converse(k, width as int, p.y - 1, p.x as int);
    }
}

} // verus!
