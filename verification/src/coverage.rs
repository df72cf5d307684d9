//! How the pixels of one raster cover those of another.
//!
//! Two rows of `source_len` and `dest_len` pixels are laid over the same
//! stretch, which is cut into `source_len * dest_len` units: a source pixel is
//! `dest_len` units wide and a destination pixel `source_len` units. All
//! boundaries are then whole numbers, at non-integral ratios too.

use vstd::prelude::*;

verus! {

/// The sum of `f` over `lo..hi`.
pub open spec fn sum(f: spec_fn(int) -> int, lo: int, hi: int) -> int
    decreases hi - lo,
{
    if hi <= lo {
        0
    } else {
        sum(f, lo, hi - 1) + f(hi - 1)
    }
}

/// How many units source pixel `source` and destination pixel `dest` share.
pub open spec fn overlap(dest: int, source_len: int, dest_len: int, source: int) -> int {
    let begin = if dest * source_len >= source * dest_len {
        dest * source_len
    } else {
        source * dest_len
    };
    let end = if (dest + 1) * source_len <= (source + 1) * dest_len {
        (dest + 1) * source_len
    } else {
        (source + 1) * dest_len
    };
    if begin < end {
        end - begin
    } else {
        0
    }
}

/// What each source pixel contributes to destination pixel `dest`.
pub open spec fn overlaps(dest: int, source_len: int, dest_len: int) -> spec_fn(int) -> int {
    |source: int| overlap(dest, source_len, dest_len, source)
}

/// Comparing two scaled sums term by term.
pub proof fn lemma_sum_scaled_le(
    f: spec_fn(int) -> int,
    a: int,
    g: spec_fn(int) -> int,
    b: int,
    lo: int,
    hi: int,
)
    requires
        forall|i: int| lo <= i < hi ==> a * #[trigger] f(i) <= b * g(i),
    ensures
        a * sum(f, lo, hi) <= b * sum(g, lo, hi),
    decreases hi - lo,
{
    if lo < hi {
        lemma_sum_scaled_le(f, a, g, b, lo, hi - 1);
        vstd::arithmetic::mul::lemma_mul_is_distributive_add(a, sum(f, lo, hi - 1), f(hi - 1));
        vstd::arithmetic::mul::lemma_mul_is_distributive_add(b, sum(g, lo, hi - 1), g(hi - 1));
        assert(a * f(hi - 1) <= b * g(hi - 1));
    }
}

/// Sums of equal terms are equal.
pub proof fn lemma_sum_same(f: spec_fn(int) -> int, g: spec_fn(int) -> int, lo: int, hi: int)
    requires
        forall|i: int| lo <= i < hi ==> #[trigger] f(i) == g(i),
    ensures
        sum(f, lo, hi) == sum(g, lo, hi),
    decreases hi - lo,
{
    if lo < hi {
        lemma_sum_same(f, g, lo, hi - 1);
        assert(f(hi - 1) == g(hi - 1));
    }
}

/// A sum is not changed by terms that are zero.
pub proof fn lemma_sum_zero_ends(f: spec_fn(int) -> int, lo: int, first: int, last: int, hi: int)
    requires
        lo <= first <= last <= hi,
        forall|i: int| lo <= i < first ==> #[trigger] f(i) == 0,
        forall|i: int| last <= i < hi ==> #[trigger] f(i) == 0,
    ensures
        sum(f, lo, first) == 0,
        sum(f, lo, last) == sum(f, first, last),
        sum(f, lo, hi) == sum(f, first, last),
    decreases hi - lo,
{
    if lo < hi {
        if last < hi {
            lemma_sum_zero_ends(f, lo, first, last, hi - 1);
            assert(f(hi - 1) == 0);
        } else if first < last {
            lemma_sum_zero_ends(f, lo, first, last - 1, hi - 1);
        } else {
            lemma_sum_zero_ends(f, lo, first - 1, first - 1, hi - 1);
            assert(f(hi - 1) == 0);
        }
    }
}

/// Sums of terms that are not negative grow with the range.
pub proof fn lemma_sum_grows(f: spec_fn(int) -> int, lo: int, mid: int, hi: int)
    requires
        lo <= mid <= hi,
        forall|i: int| lo <= i < hi ==> 0 <= #[trigger] f(i),
    ensures
        0 <= sum(f, lo, mid) <= sum(f, lo, hi),
    decreases hi - lo,
{
    if mid < hi {
        lemma_sum_grows(f, lo, mid, hi - 1);
        assert(0 <= f(hi - 1));
    } else if lo < mid {
        lemma_sum_grows(f, lo, mid - 1, hi - 1);
        assert(0 <= f(hi - 1));
    }
}

spec fn clamp(value: int, lo: int, hi: int) -> int {
    if value < lo {
        lo
    } else if value > hi {
        hi
    } else {
        value
    }
}

proof fn lemma_overlaps_sum_to(dest: int, source_len: int, dest_len: int, n: int)
    requires
        0 <= dest,
        0 <= source_len,
        0 <= dest_len,
        0 <= n,
    ensures
        sum(overlaps(dest, source_len, dest_len), 0, n) == clamp(
            n * dest_len,
            dest * source_len,
            (dest + 1) * source_len,
        ) - dest * source_len,
    decreases n,
{
    assert(0 <= dest * source_len) by (nonlinear_arith)
        requires
            0 <= dest,
            0 <= source_len,
    ;
    assert((dest + 1) * source_len == dest * source_len + source_len) by (nonlinear_arith);
    if n > 0 {
        lemma_overlaps_sum_to(dest, source_len, dest_len, n - 1);
        assert(n * dest_len == (n - 1) * dest_len + dest_len) by (nonlinear_arith);
        assert(overlaps(dest, source_len, dest_len)(n - 1) == overlap(
            dest,
            source_len,
            dest_len,
            n - 1,
        ));
    } else {
        assert(0 * dest_len == 0);
    }
}

/// The source pixels cover each destination pixel completely, and no unit twice.
pub proof fn coverage_is_complete(dest: int, source_len: int, dest_len: int)
    requires
        0 <= dest < dest_len,
        0 <= source_len,
    ensures
        sum(overlaps(dest, source_len, dest_len), 0, source_len) == source_len,
{
    lemma_overlaps_sum_to(dest, source_len, dest_len, source_len);
    assert(source_len * dest_len >= (dest + 1) * source_len) by (nonlinear_arith)
        requires
            dest < dest_len,
            0 <= source_len,
    ;
    assert((dest + 1) * source_len == dest * source_len + source_len) by (nonlinear_arith);
}

/// Every source pixel is spread over the destination pixels without loss: none
/// is dropped, however thin the stroke it belongs to.
pub proof fn coverage_drops_no_source_pixel(source: int, source_len: int, dest_len: int)
    requires
        0 <= source < source_len,
        0 <= dest_len,
    ensures
        sum(|dest: int| overlap(dest, source_len, dest_len, source), 0, dest_len) == dest_len,
{
    let shares = |dest: int| overlap(dest, source_len, dest_len, source);
    let mirrored = overlaps(source, dest_len, source_len);
    coverage_is_complete(source, dest_len, source_len);
    assert forall|dest: int| 0 <= dest < dest_len implies 1 * #[trigger] shares(dest) <= 1
        * mirrored(dest) by {}
    assert forall|dest: int| 0 <= dest < dest_len implies 1 * #[trigger] mirrored(dest) <= 1
        * shares(dest) by {}
    lemma_sum_scaled_le(shares, 1, mirrored, 1, 0, dest_len);
    lemma_sum_scaled_le(mirrored, 1, shares, 1, 0, dest_len);
}

/// The first source pixel that destination pixel `dest` may share units with.
pub open spec fn first_covered(dest: int, source_len: int, dest_len: int) -> int {
    (dest * source_len) / dest_len
}

/// One past the last source pixel that destination pixel `dest` may share units with.
pub open spec fn last_covered(dest: int, source_len: int, dest_len: int) -> int {
    ((dest + 1) * source_len + dest_len - 1) / dest_len
}

/// The source pixels under one destination pixel, with the units they share.
#[derive(Debug)]
pub struct Footprint {
    pub first: u32,
    pub weights: Vec<u64>,
}

impl Footprint {
    /// This is the footprint of `dest`.
    pub open spec fn covers(self, dest: int, source_len: int, dest_len: int) -> bool {
        &&& self.first + self.weights@.len() <= source_len
        &&& forall|i: int|
            0 <= i < self.weights@.len() ==> #[trigger] self.weights@[i] == overlap(
                dest,
                source_len,
                dest_len,
                self.first + i,
            )
        &&& forall|s: int|
            0 <= s < source_len && !(self.first <= s < self.first + self.weights@.len())
                ==> #[trigger] overlap(dest, source_len, dest_len, s) == 0
    }
}

proof fn lemma_covered_range(dest: int, source_len: int, dest_len: int)
    requires
        0 <= dest < dest_len,
        0 <= source_len,
    ensures
        0 <= first_covered(dest, source_len, dest_len) <= last_covered(dest, source_len, dest_len)
            <= source_len,
        forall|s: int|
            0 <= s < source_len && !(first_covered(dest, source_len, dest_len) <= s < last_covered(
                dest,
                source_len,
                dest_len,
            )) ==> #[trigger] overlap(dest, source_len, dest_len, s) == 0,
        forall|s: int|
            first_covered(dest, source_len, dest_len) <= s < last_covered(
                dest,
                source_len,
                dest_len,
            ) ==> #[trigger] overlap(dest, source_len, dest_len, s) == (if (dest + 1) * source_len
                <= (s + 1) * dest_len {
                (dest + 1) * source_len
            } else {
                (s + 1) * dest_len
            }) - (if dest * source_len >= s * dest_len {
                dest * source_len
            } else {
                s * dest_len
            }),
{
    let begin = dest * source_len;
    let end = (dest + 1) * source_len;
    let first = first_covered(dest, source_len, dest_len);
    let last = last_covered(dest, source_len, dest_len);
    assert(end == begin + source_len) by (nonlinear_arith)
        requires
            begin == dest * source_len,
            end == (dest + 1) * source_len,
    ;
    assert(0 <= begin) by (nonlinear_arith)
        requires
            begin == dest * source_len,
            0 <= dest,
            0 <= source_len,
    ;
    assert(end <= source_len * dest_len) by (nonlinear_arith)
        requires
            end == (dest + 1) * source_len,
            dest < dest_len,
            0 <= source_len,
    ;
    assert(first * dest_len <= begin < (first + 1) * dest_len && 0 <= first) by (nonlinear_arith)
        requires
            first == begin / dest_len,
            0 < dest_len,
            0 <= begin,
    ;
    assert((last - 1) * dest_len < end <= last * dest_len) by (nonlinear_arith)
        requires
            last == (end + dest_len - 1) / dest_len,
            0 < dest_len,
    ;
    assert(first <= last) by (nonlinear_arith)
        requires
            first * dest_len <= begin,
            begin <= end,
            end <= last * dest_len,
            0 < dest_len,
    ;
    assert(last <= source_len) by (nonlinear_arith)
        requires
            (last - 1) * dest_len < end,
            end <= source_len * dest_len,
            0 < dest_len,
    ;
    assert forall|s: int| 0 <= s < source_len && !(first <= s < last) implies #[trigger] overlap(
        dest,
        source_len,
        dest_len,
        s,
    ) == 0 by {
        if s < first {
            assert((s + 1) * dest_len <= begin) by (nonlinear_arith)
                requires
                    s + 1 <= first,
                    first * dest_len <= begin,
                    0 < dest_len,
            ;
        } else {
            assert(s * dest_len >= end) by (nonlinear_arith)
                requires
                    s >= last,
                    end <= last * dest_len,
                    0 < dest_len,
            ;
        }
    }
    assert forall|s: int| first <= s < last implies #[trigger] overlap(
        dest,
        source_len,
        dest_len,
        s,
    ) == (if end <= (s + 1) * dest_len {
        end
    } else {
        (s + 1) * dest_len
    }) - (if begin >= s * dest_len {
        begin
    } else {
        s * dest_len
    }) by {
        assert(s * dest_len <= (last - 1) * dest_len && (s + 1) * dest_len >= (first + 1)
            * dest_len && (s + 1) * dest_len == s * dest_len + dest_len) by (nonlinear_arith)
            requires
                first <= s < last,
                0 < dest_len,
        ;
    }
}

/// The footprint of destination pixel `dest`.
pub fn footprint(dest: u32, source_len: u32, dest_len: u32) -> (result: Footprint)
    requires
        dest < dest_len,
    ensures
        result.covers(dest as int, source_len as int, dest_len as int),
{
    proof {
        assert(0 <= dest * source_len <= (dest + 1) * source_len <= 0xffff_ffff * 0xffff_ffff)
            by (nonlinear_arith)
            requires
                0 <= dest < 0xffff_ffff,
                0 <= source_len <= 0xffff_ffff,
        ;
        assert((dest + 1) * source_len == dest * source_len + source_len) by (nonlinear_arith);
        lemma_covered_range(dest as int, source_len as int, dest_len as int);
    }
    let begin: u64 = dest as u64 * source_len as u64;
    let end: u64 = begin + source_len as u64;
    let first: u64 = begin / dest_len as u64;
    let last: u64 = (end + (dest_len as u64 - 1)) / dest_len as u64;
    assert(first == first_covered(dest as int, source_len as int, dest_len as int));
    assert(last == last_covered(dest as int, source_len as int, dest_len as int));
    let mut weights: Vec<u64> = Vec::new();
    let mut s: u64 = first;
    while s < last
        invariant
            dest < dest_len,
            begin == dest * source_len,
            end == (dest + 1) * source_len,
            first == first_covered(dest as int, source_len as int, dest_len as int),
            last == last_covered(dest as int, source_len as int, dest_len as int),
            first <= s <= last <= source_len,
            weights@.len() == s - first,
            forall|i: int|
                0 <= i < weights@.len() ==> #[trigger] weights@[i] == overlap(
                    dest as int,
                    source_len as int,
                    dest_len as int,
                    first + i,
                ),
        decreases last - s,
    {
        proof {
            lemma_covered_range(dest as int, source_len as int, dest_len as int);
            assert((s + 1) * dest_len <= 0xffff_ffff * 0xffff_ffff && s * dest_len <= (s + 1)
                * dest_len) by (nonlinear_arith)
                requires
                    0 <= s < 0xffff_ffff,
                    0 <= dest_len <= 0xffff_ffff,
            ;
        }
        let pixel_begin: u64 = s * dest_len as u64;
        let pixel_end: u64 = (s + 1) * dest_len as u64;
        let from: u64 = if begin >= pixel_begin {
            begin
        } else {
            pixel_begin
        };
        let to: u64 = if end <= pixel_end {
            end
        } else {
            pixel_end
        };
        assert(overlap(dest as int, source_len as int, dest_len as int, s as int) == to - from);
        assert(to - from >= 0);
        weights.push(to - from);
        s += 1;
    }
    Footprint { first: first as u32, weights }
}

} // verus!
