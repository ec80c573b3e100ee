//! The free-space bookkeeping of the stable-storage allocator: a list of
//! memory holes kept in power-of-two size classes, with best-fit/worst-fit
//! lookup and merging of neighbouring holes.

use vstd::prelude::*;
use vstd::arithmetic::power2::{pow2, lemma_pow2_strictly_increases, lemma_pow2_adds, lemma2_to64};
use vstd::bits::{lemma_u64_shl_is_mul, lemma_u64_pow2_no_overflow};
use vstd::bytes::spec_u64_to_le_bytes;
use crate::memory::{Memory, write_bytes};

verus! {

/// The size of the smallest block that can stand alone: its size header
/// (8 bytes) and the address of the next hole (8 bytes).
pub const MIN_ALLOCATION_SIZE: u64 = 16;

/// The ceiling of log2 of `x`, for `x >= 1`: zero for one, and one more than
/// the ceiling of log2 of `x / 2` (rounded up) above it.
pub open spec fn ceil_log2_spec(x: int) -> nat
    decreases x,
{
    if x <= 1 {
        0
    } else {
        1 + ceil_log2_spec((x + 1) / 2)
    }
}

/// The size class of a hole of `size` bytes: the index of the list that
/// keeps it.
pub open spec fn size_class(size: int) -> int {
    ceil_log2_spec(size) - 4
}

/// `ceil_log2_spec` is the least `r` with `x <= 2^r`.
pub proof fn lemma_ceil_log2_spec(x: int)
    requires
        x >= 1,
    ensures
        is_ceil_log2(x, ceil_log2_spec(x) as int),
    decreases x,
{
    if x > 1 {
        let y = (x + 1) / 2;
        lemma_ceil_log2_spec(y);
        let c = ceil_log2_spec(y);
        lemma_pow2_adds(c, 1);
        lemma2_to64();
        assert(ceil_log2_spec(x) == c + 1);
        assert(pow2(c + 1) == pow2(c) * 2);
        assert(x <= 2 * y);
        if c > 0 {
            lemma_pow2_adds((c - 1) as nat, 1);
            assert(pow2(c) == pow2((c - 1) as nat) * 2);
            assert(pow2((c - 1) as nat) <= y - 1);
            assert(pow2(c) < x);
        } else {
            assert(y == 1);
            assert(x == 2);
        }
    } else {
        lemma2_to64();
    }
}

/// `r` is the ceiling of log2 of `x`: the least `r` with `x <= 2^r`.
pub open spec fn is_ceil_log2(x: int, r: int) -> bool {
    &&& r >= 0
    &&& x <= pow2(r as nat)
    &&& (r == 0 || pow2((r - 1) as nat) < x)
}

/// The mask that selects bits `[j, 2j)` of a value below `2^(2j)`, for the
/// `i`-th halving step (`j = 32 >> i`).
spec fn step_mask(i: int) -> u64 {
    if i == 0 {
        0xFFFFFFFF00000000u64
    } else if i == 1 {
        0x00000000FFFF0000u64
    } else if i == 2 {
        0x000000000000FF00u64
    } else if i == 3 {
        0x00000000000000F0u64
    } else if i == 4 {
        0x000000000000000Cu64
    } else {
        0x0000000000000002u64
    }
}

/// The shift width `j` of the `i`-th halving step.
spec fn step_width(i: int) -> u64 {
    if i == 0 {
        32
    } else if i == 1 {
        16
    } else if i == 2 {
        8
    } else if i == 3 {
        4
    } else if i == 4 {
        2
    } else if i == 5 {
        1
    } else {
        0
    }
}

/// The bound `x < step_bound(i)` that holds before the `i`-th halving step
/// (`2^64` is written as `0`, meaning no bound).
spec fn step_bound(i: int) -> u64 {
    if i == 0 {
        0u64
    } else if i == 1 {
        0x100000000u64
    } else if i == 2 {
        0x10000u64
    } else if i == 3 {
        0x100u64
    } else if i == 4 {
        0x10u64
    } else if i == 5 {
        0x4u64
    } else {
        0x2u64
    }
}

proof fn lemma_step(x: u64, i: int, j: u64)
    requires
        0 <= i < 6,
        j == step_width(i),
        x >= 1,
        i > 0 ==> x < step_bound(i),
    ensures
        (x & step_mask(i)) != 0 ==> (x >> j) >= 1 && (x >> j) < step_bound(i + 1),
        (x & step_mask(i)) == 0 ==> x < step_bound(i + 1),
{
    if i == 0 {
        assert(((x & 0xFFFFFFFF00000000u64) != 0 ==> (x >> 32u64) >= 1 && (x >> 32u64) < 0x100000000u64)
            && ((x & 0xFFFFFFFF00000000u64) == 0 ==> x < 0x100000000u64)) by (bit_vector);
    } else if i == 1 {
        assert(x < 0x100000000u64 ==> ((x & 0x00000000FFFF0000u64) != 0 ==> (x >> 16u64) >= 1 && (x >> 16u64) < 0x10000u64)
            && ((x & 0x00000000FFFF0000u64) == 0 ==> x < 0x10000u64)) by (bit_vector);
    } else if i == 2 {
        assert(x < 0x10000u64 ==> ((x & 0xFF00u64) != 0 ==> (x >> 8u64) >= 1 && (x >> 8u64) < 0x100u64)
            && ((x & 0xFF00u64) == 0 ==> x < 0x100u64)) by (bit_vector);
    } else if i == 3 {
        assert(x < 0x100u64 ==> ((x & 0xF0u64) != 0 ==> (x >> 4u64) >= 1 && (x >> 4u64) < 0x10u64)
            && ((x & 0xF0u64) == 0 ==> x < 0x10u64)) by (bit_vector);
    } else if i == 4 {
        assert(x < 0x10u64 ==> ((x & 0xCu64) != 0 ==> (x >> 2u64) >= 1 && (x >> 2u64) < 0x4u64)
            && ((x & 0xCu64) == 0 ==> x < 0x4u64)) by (bit_vector);
    } else {
        assert(x < 0x4u64 ==> ((x & 0x2u64) != 0 ==> (x >> 1u64) >= 1 && (x >> 1u64) < 0x2u64)
            && ((x & 0x2u64) == 0 ==> x < 0x2u64)) by (bit_vector);
    }
}

/// The ceiling of log2 of `x`, computed with a branch-free binary search over
/// the bit positions.
pub fn ceiling_log2(x: u64) -> (r: usize)
    requires
        x >= 1,
    ensures
        is_ceil_log2(x as int, r as int),
        r == ceil_log2_spec(x as int),
{
    let x0: u64 = x;
    let mut x: u64 = x;
    let t: [u64; 6] = [
        0xFFFFFFFF00000000,
        0x00000000FFFF0000,
        0x000000000000FF00,
        0x00000000000000F0,
        0x000000000000000C,
        0x0000000000000002,
    ];
    let mut y: usize = if x & (x - 1) == 0 { 0 } else { 1 };
    let y0: usize = y;
    let mut j: u64 = 32;
    let mut i: usize = 0;
    let ghost mut k: u64 = 0;
    proof {
        vstd::arithmetic::power2::lemma2_to64();
    }
    while i < 6
        invariant
            0 <= i <= 6,
            t@ == seq![step_mask(0), step_mask(1), step_mask(2), step_mask(3), step_mask(4), step_mask(5)],
            j == step_width(i as int),
            x >= 1,
            i > 0 ==> x < step_bound(i as int),
            k < 64,
            k + 2 * j <= 64,
            i == 6 ==> k <= 63,
            x == x0 as nat / pow2(k as nat),
            y == y0 + k,
            y0 <= 1,
        decreases 6 - i,
    {
        proof {
            lemma_step(x, i as int, j);
        }
        let kk: u64 = if (x & t[i]) == 0 { 0 } else { j };
        proof {
            let kj: u64 = (k + kk) as u64;
            vstd::bits::lemma_u64_shr_is_div(x, kk);
            vstd::arithmetic::power2::lemma_pow2_pos(k as nat);
            vstd::arithmetic::power2::lemma_pow2_pos(kk as nat);
            vstd::arithmetic::div_mod::lemma_div_denominator(x0 as int, pow2(k as nat) as int, pow2(kk as nat) as int);
            lemma_pow2_adds(k as nat, kk as nat);
            k = kj;
        }
        y += kk as usize;
        x >>= kk;
        j >>= 1;
        proof {
            assert(j == step_width(i + 1)) by {
                if i == 0 {
                    assert(32u64 >> 1u64 == 16u64) by (bit_vector);
                } else if i == 1 {
                    assert(16u64 >> 1u64 == 8u64) by (bit_vector);
                } else if i == 2 {
                    assert(8u64 >> 1u64 == 4u64) by (bit_vector);
                } else if i == 3 {
                    assert(4u64 >> 1u64 == 2u64) by (bit_vector);
                } else if i == 4 {
                    assert(2u64 >> 1u64 == 1u64) by (bit_vector);
                } else {
                    assert(1u64 >> 1u64 == 0u64) by (bit_vector);
                }
            }
        }
        i += 1;
    }
    proof {
        assert(x == 1);
        vstd::bits::lemma_u64_shr_is_div(x0, k);
        assert(x0 >> k == 1);
        assert((1u64 << k) <= x0 && (k == 63 || x0 < (1u64 << ((k + 1) as u64)))
            && ((x0 & ((x0 - 1) as u64)) == 0 <==> x0 == (1u64 << k))) by (bit_vector)
            requires
                x0 >> k == 1u64,
                k < 64,
                x0 >= 1,
        ;
        lemma_u64_pow2_no_overflow(k as nat);
        lemma_u64_shl_is_mul(1u64, k);
        lemma_pow2_adds(k as nat, 1);
        lemma2_to64();
        if k < 63 {
            lemma_u64_pow2_no_overflow((k + 1) as nat);
            lemma_u64_shl_is_mul(1u64, (k + 1) as u64);
        } else {
            vstd::arithmetic::power2::lemma2_to64_rest();
        }
        if k > 0 {
            lemma_pow2_adds((k - 1) as nat, 1);
        }
        lemma_ceil_log2_spec(x0 as int);
        lemma_ceil_log2_unique(x0 as int, y as int, ceil_log2_spec(x0 as int) as int);
    }
    y
}

/// The index of the size class of a hole of `size` bytes: size classes start
/// at `MIN_ALLOCATION_SIZE`, so blocks of up to 16 bytes fall in class 0.
pub fn get_log2_index(size: u64) -> (r: usize)
    requires
        size > 8,
    ensures
        is_ceil_log2(size as int, r + 4),
        r == size_class(size as int),
{
    let offset = ceiling_log2(MIN_ALLOCATION_SIZE);
    let c = ceiling_log2(size);
    proof {
        lemma2_to64();
        lemma_ceil_log2_unique(16, offset as int, 4);
        if c < 4 {
            lemma_pow2_le(c as nat, 3);
        }
    }
    c - offset
}

/// The ceiling of log2 is a function of its argument.
pub proof fn lemma_ceil_log2_unique(x: int, r1: int, r2: int)
    requires
        is_ceil_log2(x, r1),
        is_ceil_log2(x, r2),
    ensures
        r1 == r2,
{
    if r1 < r2 {
        lemma_pow2_le(r1 as nat, (r2 - 1) as nat);
    } else if r2 < r1 {
        lemma_pow2_le(r2 as nat, (r1 - 1) as nat);
    }
}

/// `pow2` is monotone.
pub proof fn lemma_pow2_le(a: nat, b: nat)
    requires
        a <= b,
    ensures
        pow2(a) <= pow2(b),
{
    if a < b {
        lemma_pow2_strictly_increases(a, b);
    }
}

/// The ceiling of log2 is monotone.
pub proof fn lemma_ceil_log2_monotone(x1: int, r1: int, x2: int, r2: int)
    requires
        is_ceil_log2(x1, r1),
        is_ceil_log2(x2, r2),
        1 <= x1 <= x2,
    ensures
        r1 <= r2,
{
    if r2 < r1 {
        lemma_pow2_le(r2 as nat, (r1 - 1) as nat);
    }
}

} // verus!

verus! {

/// The running state of a best-fit/worst-fit scan over the holes `s` for a
/// request of `size` bytes, in list order: `(worst delta, worst address,
/// best delta, best address)`. A hole fits if it is at least `size` bytes; its
/// delta is the number of bytes left over. A later hole replaces the worst
/// fit only with a strictly larger delta, and the best fit only with a
/// strictly smaller one.
pub open spec fn scan_holes(s: Seq<(u64, u64)>, size: u64) -> (u64, Option<u64>, u64, Option<u64>)
    decreases s.len(),
{
    if s.len() == 0 {
        (0, None, u64::MAX, None)
    } else {
        let prev = scan_holes(s.drop_last(), size);
        let addr = s.last().0;
        let b_size = s.last().1;
        if b_size < size {
            prev
        } else {
            let delta = (b_size - size) as u64;
            let w = if delta > prev.0 { (delta, Some(addr)) } else { (prev.0, prev.1) };
            let b = if delta < prev.2 { (delta, Some(addr)) } else { (prev.2, prev.3) };
            (w.0, w.1, b.0, b.1)
        }
    }
}

/// The hole a list `s` yields for a request of `size` bytes, as
/// `(address, delta)`: a perfect best fit if there is one; otherwise the
/// worst fit, unless its leftover would be too small to stand as a hole
/// (below `MIN_ALLOCATION_SIZE`), in which case the best fit.
pub open spec fn level_find(s: Seq<(u64, u64)>, size: u64) -> Option<(u64, u64)> {
    let st = scan_holes(s, size);
    if s.len() == 0 {
        None
    } else if st.2 == 0 {
        match st.3 {
            Some(a) => Some((a, 0u64)),
            None => None,
        }
    } else if st.0 < MIN_ALLOCATION_SIZE {
        match st.3 {
            Some(a) => Some((a, st.2)),
            None => None,
        }
    } else {
        match st.1 {
            Some(a) => Some((a, st.0)),
            None => None,
        }
    }
}

/// An iterator over the holes of one size class, head first.
pub struct HoleIterator<'a> {
    holes: &'a [(u64, u64)],
    index: usize,
}

impl<'a> HoleIterator<'a> {
    /// The holes this iterator has yet to yield, as `(address, size)`.
    pub closed spec fn remaining(&self) -> Seq<(u64, u64)> {
        self.holes@.skip(self.index as int)
    }

    /// Whether the iterator's position lies within its list.
    pub closed spec fn wf(&self) -> bool {
        self.index <= self.holes@.len()
    }

    /// Create a new hole iterator over the given list.
    pub fn new(holes: &'a [(u64, u64)]) -> (r: Self)
        ensures
            r.wf(),
            r.remaining() == holes@,
    {
        let r = HoleIterator { holes, index: 0 };
        proof {
            assert(r.remaining() =~= holes@);
        }
        r
    }

    /// Yield the next hole as `(address, size)`.
    pub fn next(&mut self) -> (r: Option<(u64, u64)>)
        requires
            old(self).wf(),
        ensures
            final(self).wf(),
            old(self).remaining().len() == 0 ==> r is None && final(self).remaining() == old(self).remaining(),
            old(self).remaining().len() > 0 ==> r == Some(old(self).remaining()[0])
                && final(self).remaining() == old(self).remaining().drop_first(),
    {
        if self.index < self.holes.len() {
            let h = self.holes[self.index];
            let ghost before = self.remaining();
            self.index = self.index + 1;
            proof {
                assert(self.remaining() =~= before.drop_first());
            }
            Some(h)
        } else {
            None
        }
    }

    /// Tries to find a hole with size larger than or equal to the provided
    /// size; the address of the hole along side the delta is returned.
    pub fn find(self, size: u64) -> (r: Option<(u64, u64)>)
        requires
            self.wf(),
        ensures
            r == level_find(self.remaining(), size),
            r is None <==> forall|k: int| 0 <= k < self.remaining().len() ==> #[trigger] self.remaining()[k].1 < size,
            r matches Some(found) ==> exists|k: int|
                0 <= k < self.remaining().len() && (#[trigger] self.remaining()[k]).0 == found.0
                    && self.remaining()[k].1 == size + found.1,
    {
        let ghost s = self.remaining();
        if self.index >= self.holes.len() {
            return None;
        }
        let mut it = self;
        let mut worst_fit_delta: u64 = 0;
        let mut worst_fit_addr: Option<u64> = None;
        let mut best_fit_delta: u64 = u64::MAX;
        let mut best_fit_addr: Option<u64> = None;
        let ghost mut n: int = 0;
        loop
            invariant
                it.wf(),
                0 <= n <= s.len(),
                it.remaining() == s.skip(n),
                (worst_fit_delta, worst_fit_addr, best_fit_delta, best_fit_addr) == scan_holes(s.take(n), size),
                (best_fit_addr is None && worst_fit_addr is None) <==> forall|k: int| 0 <= k < n ==> #[trigger] s[k].1 < size,
                best_fit_addr is None ==> best_fit_delta == u64::MAX,
                best_fit_addr matches Some(a) ==> exists|k: int|
                    0 <= k < n && (#[trigger] s[k]).0 == a && s[k].1 == size + best_fit_delta,
                worst_fit_addr matches Some(a) ==> exists|k: int|
                    0 <= k < n && (#[trigger] s[k]).0 == a && s[k].1 == size + worst_fit_delta,
                worst_fit_addr is None ==> worst_fit_delta == 0,
                worst_fit_delta > 0 ==> worst_fit_addr is Some,
                best_fit_addr is Some ==> best_fit_delta <= worst_fit_delta,
                worst_fit_addr is Some ==> worst_fit_delta > 0,
                best_fit_addr is None && worst_fit_addr is Some ==> worst_fit_delta == u64::MAX,
            ensures
                n == s.len(),
                (worst_fit_delta, worst_fit_addr, best_fit_delta, best_fit_addr) == scan_holes(s, size),
                (best_fit_addr is None && worst_fit_addr is None) <==> forall|k: int| 0 <= k < s.len() ==> #[trigger] s[k].1 < size,
                best_fit_addr is None ==> best_fit_delta == u64::MAX,
                best_fit_addr matches Some(a) ==> exists|k: int|
                    0 <= k < s.len() && (#[trigger] s[k]).0 == a && s[k].1 == size + best_fit_delta,
                worst_fit_addr matches Some(a) ==> exists|k: int|
                    0 <= k < s.len() && (#[trigger] s[k]).0 == a && s[k].1 == size + worst_fit_delta,
                worst_fit_addr is None ==> worst_fit_delta == 0,
                worst_fit_delta > 0 ==> worst_fit_addr is Some,
                best_fit_addr is Some ==> best_fit_delta <= worst_fit_delta,
                worst_fit_addr is Some ==> worst_fit_delta > 0,
                best_fit_addr is None && worst_fit_addr is Some ==> worst_fit_delta == u64::MAX,
            decreases s.len() - n,
        {
            let item = it.next();
            match item {
                None => {
                    proof {
                        assert(s.take(n) =~= s);
                    }
                    break;
                },
                Some(h) => {
                    let (addr, b_size) = h;
                    proof {
                        assert(s[n] == h);
                        assert(s.take(n + 1).drop_last() =~= s.take(n));
                        assert(s.take(n + 1).last() == h);
                    }
                    if b_size >= size {
                        let delta = b_size - size;
                        if delta > worst_fit_delta {
                            worst_fit_delta = delta;
                            worst_fit_addr = Some(addr);
                        }
                        if delta < best_fit_delta {
                            best_fit_delta = delta;
                            best_fit_addr = Some(addr);
                        }
                    }
                    proof {
                        n = n + 1;
                        assert(it.remaining() =~= s.skip(n));
                    }
                },
            }
        }
        if best_fit_delta == 0 {
            return Some((best_fit_addr.unwrap(), 0));
        }
        if worst_fit_delta < MIN_ALLOCATION_SIZE {
            return match best_fit_addr {
                Some(a) => Some((a, best_fit_delta)),
                None => None,
            };
        }
        match worst_fit_addr {
            Some(a) => Some((a, worst_fit_delta)),
            None => None,
        }
    }
}

} // verus!

verus! {

/// The number of size classes: class `i` keeps holes of `2^(i+3) + 1` to
/// `2^(i+4)` bytes (class 0 from 16 bytes), so the largest hole is `2^39`
/// bytes.
pub const NUM_SIZE_CLASSES: usize = 36;

/// Holes lie below this address, which keeps every hole in a size class.
pub const MAX_HOLE_END: u64 = 0x80_0000_0000;

/// The bytes of a hole header as it is written at the start of a hole: the
/// hole's size, then the address of the next hole of its size class (or 0),
/// both little-endian.
pub open spec fn header_bytes(size: u64, next: u64) -> Seq<u8> {
    spec_u64_to_le_bytes(size) + spec_u64_to_le_bytes(next)
}

/// The ranges of two holes do not overlap.
pub open spec fn disjoint(a: (u64, u64), b: (u64, u64)) -> bool {
    a.0 + a.1 <= b.0 || b.0 + b.1 <= a.0
}

/// `(l, k)` names a hole of `levels`.
pub open spec fn valid_slot(levels: Seq<Seq<(u64, u64)>>, l: int, k: int) -> bool {
    0 <= l < levels.len() && 0 <= k < levels[l].len()
}

/// A hole kept in class `l` of a storage of `mem_len` bytes.
pub open spec fn hole_ok(h: (u64, u64), l: int, mem_len: int) -> bool {
    &&& h.1 >= MIN_ALLOCATION_SIZE
    &&& h.0 + h.1 <= MAX_HOLE_END
    &&& h.0 + h.1 <= mem_len
    &&& size_class(h.1 as int) == l
}

/// The size-class lists are well formed: one list per class, each hole in
/// the list of its class and within the storage, and no two holes overlapping.
pub open spec fn levels_wf(levels: Seq<Seq<(u64, u64)>>, mem_len: int) -> bool {
    &&& levels.len() == NUM_SIZE_CLASSES
    &&& forall|l: int, k: int| valid_slot(levels, l, k) ==> hole_ok(#[trigger] levels[l][k], l, mem_len)
    &&& forall|l1: int, k1: int, l2: int, k2: int|
        valid_slot(levels, l1, k1) && valid_slot(levels, l2, k2) && (l1 != l2 || k1 != k2)
            ==> disjoint(#[trigger] levels[l1][k1], #[trigger] levels[l2][k2])
}

/// `r` is the right boundary of the lists: every class from `r` up is empty,
/// and class `r - 1` is not.
pub open spec fn is_right_boundary(levels: Seq<Seq<(u64, u64)>>, r: int) -> bool {
    &&& 0 <= r <= NUM_SIZE_CLASSES
    &&& forall|l: int| r <= l < NUM_SIZE_CLASSES ==> (#[trigger] levels[l]).len() == 0
    &&& r > 0 ==> levels[r - 1].len() > 0
}

/// `r` is the left boundary of the lists: every class below `r` is empty, and
/// class `r` (when it exists) is not.
pub open spec fn is_left_boundary(levels: Seq<Seq<(u64, u64)>>, r: int) -> bool {
    &&& 0 <= r <= NUM_SIZE_CLASSES
    &&& forall|l: int| 0 <= l < r ==> (#[trigger] levels[l]).len() == 0
    &&& r < NUM_SIZE_CLASSES ==> levels[r].len() > 0
}

/// `h` is one of the holes.
pub open spec fn has_hole(levels: Seq<Seq<(u64, u64)>>, h: (u64, u64)) -> bool {
    exists|l: int, k: int| valid_slot(levels, l, k) && levels[l][k] == h
}

/// The region `h` overlaps none of the holes.
pub open spec fn disjoint_from_all(levels: Seq<Seq<(u64, u64)>>, h: (u64, u64)) -> bool {
    forall|l: int, k: int| valid_slot(levels, l, k) ==> disjoint(#[trigger] levels[l][k], h)
}

/// The lists after `h` was pushed at the head of the list of class `l`.
pub open spec fn push_head(levels: Seq<Seq<(u64, u64)>>, l: int, h: (u64, u64)) -> Seq<Seq<(u64, u64)>> {
    levels.update(l, levels[l].insert(0, h))
}

/// The address of the head of a list, or 0 for an empty list.
pub open spec fn head_addr(s: Seq<(u64, u64)>) -> u64 {
    if s.len() > 0 { s[0].0 } else { 0 }
}

/// A list of holes of memory with a merge-on-free policy, over the storage
/// `M` in which each hole keeps its header.
pub struct HoleList<M: Memory> {
    roots: Vec<Vec<(u64, u64)>>,
    roots_right_boundary: usize,
    roots_left_boundary: usize,
    memory: M,
}

impl<M: Memory> HoleList<M> {
    /// The holes, as `(address, size)`, by size class, each list head first.
    pub closed spec fn levels(&self) -> Seq<Seq<(u64, u64)>> {
        self.roots@.map_values(|v: Vec<(u64, u64)>| v@)
    }

    /// The right boundary of the size classes in use.
    pub closed spec fn right_boundary(&self) -> int {
        self.roots_right_boundary as int
    }

    /// The left boundary of the size classes in use.
    pub closed spec fn left_boundary(&self) -> int {
        self.roots_left_boundary as int
    }

    /// The storage the holes are in.
    pub closed spec fn memory_spec(&self) -> M {
        self.memory
    }

    /// The bytes of the storage.
    pub open spec fn storage(&self) -> Seq<u8> {
        self.memory_spec().content()
    }

    /// The list is well formed.
    pub closed spec fn wf(&self) -> bool {
        &&& self.memory.inv()
        &&& self.roots@.len() == NUM_SIZE_CLASSES
        &&& levels_wf(self.levels(), self.memory.content().len() as int)
        &&& is_right_boundary(self.levels(), self.roots_right_boundary as int)
        &&& is_left_boundary(self.levels(), self.roots_left_boundary as int)
    }

    /// What the well-formedness gives a caller.
    pub proof fn lemma_wf(&self)
        requires
            self.wf(),
        ensures
            self.memory_spec().inv(),
            levels_wf(self.levels(), self.storage().len() as int),
            is_right_boundary(self.levels(), self.right_boundary()),
            is_left_boundary(self.levels(), self.left_boundary()),
    {
    }

    /// Create a new empty list over the given storage.
    pub fn new(memory: M) -> (r: Self)
        requires
            memory.inv(),
        ensures
            r.wf(),
            r.levels() == Seq::new(NUM_SIZE_CLASSES as nat, |i: int| Seq::<(u64, u64)>::empty()),
            r.right_boundary() == 0,
            r.left_boundary() == NUM_SIZE_CLASSES,
            r.memory_spec() == memory,
    {
        let mut roots: Vec<Vec<(u64, u64)>> = Vec::new();
        let mut i: usize = 0;
        while i < NUM_SIZE_CLASSES
            invariant
                i <= NUM_SIZE_CLASSES,
                roots@.len() == i,
                forall|j: int| 0 <= j < i ==> (#[trigger] roots@[j])@.len() == 0,
            decreases NUM_SIZE_CLASSES - i,
        {
            roots.push(Vec::new());
            i = i + 1;
        }
        let r = HoleList {
            roots,
            roots_right_boundary: 0,
            roots_left_boundary: NUM_SIZE_CLASSES,
            memory,
        };
        proof {
            assert forall|j: int| 0 <= j < NUM_SIZE_CLASSES implies r.levels()[j] =~= Seq::<(u64, u64)>::empty() by {
                assert(r.roots@[j]@.len() == 0);
            }
            assert(r.levels() =~= Seq::new(NUM_SIZE_CLASSES as nat, |i: int| Seq::<(u64, u64)>::empty()));
        }
        r
    }

    /// The right boundary: every size class from it up is empty.
    pub fn roots_right_boundary(&self) -> (r: usize)
        requires
            self.wf(),
        ensures
            r == self.right_boundary(),
            is_right_boundary(self.levels(), r as int),
    {
        self.roots_right_boundary
    }

    /// The left boundary: every size class below it is empty.
    pub fn roots_left_boundary(&self) -> (r: usize)
        requires
            self.wf(),
        ensures
            r == self.left_boundary(),
            is_left_boundary(self.levels(), r as int),
    {
        self.roots_left_boundary
    }

    /// The storage the holes are in.
    pub fn memory(&self) -> (r: &M)
        ensures
            *r == self.memory_spec(),
    {
        &self.memory
    }

    /// Replace the list of class `l`, returning the old one.
    fn replace_level(&mut self, l: usize, v: Vec<(u64, u64)>) -> (r: Vec<(u64, u64)>)
        requires
            l < old(self).roots@.len(),
        ensures
            final(self).roots@ == old(self).roots@.update(l as int, v),
            r == old(self).roots@[l as int],
            final(self).memory == old(self).memory,
            final(self).roots_right_boundary == old(self).roots_right_boundary,
            final(self).roots_left_boundary == old(self).roots_left_boundary,
    {
        let r = self.roots.remove(l);
        self.roots.insert(l, v);
        proof {
            assert(self.roots@ =~= old(self).roots@.update(l as int, v));
        }
        r
    }

    /// Insert the given hole to this list without attempting to merge with
    /// neighbouring holes. Only use this method when you are SURE the block
    /// does not have a neighbour, for example when attempting to form a
    /// HoleList from a serialization. Unless `skip_write` is set, the hole's
    /// header is written at its start.
    pub fn raw_insert(&mut self, addr: u64, size: u64, skip_write: bool)
        requires
            old(self).wf(),
            size >= MIN_ALLOCATION_SIZE,
            addr + size <= MAX_HOLE_END,
            addr + size <= old(self).storage().len(),
            disjoint_from_all(old(self).levels(), (addr, size)),
        ensures
            final(self).wf(),
            final(self).storage().len() == old(self).storage().len(),
            final(self).levels() == push_head(old(self).levels(), size_class(size as int), (addr, size)),
            skip_write ==> final(self).storage() == old(self).storage(),
            !skip_write ==> final(self).storage() == write_bytes(
                old(self).storage(),
                addr as int,
                header_bytes(size, head_addr(old(self).levels()[size_class(size as int)])),
            ),
    {
        let index = get_log2_index(size);
        proof {
            lemma_ceil_log2_spec(size as int);
            lemma_size_class_bound(size);
        }
        let ghost old_levels = self.levels();
        let mut level = self.replace_level(index, Vec::new());
        let next: u64 = if level.len() > 0 { level[0].0 } else { 0 };
        if !skip_write {
            let mut header = vstd::bytes::u64_to_le_bytes(size);
            let mut next_bytes = vstd::bytes::u64_to_le_bytes(next);
            header.append(&mut next_bytes);
            self.memory.stable_write(addr, header.as_slice());
        }
        level.insert(0, (addr, size));
        let _ = self.replace_level(index, level);
        if index >= self.roots_right_boundary {
            self.roots_right_boundary = index + 1;
        }
        if index < self.roots_left_boundary {
            self.roots_left_boundary = index;
        }
        proof {
            let new_levels = push_head(old_levels, index as int, (addr, size));
            assert(self.levels() =~= new_levels);
            assert forall|l: int, k: int| valid_slot(new_levels, l, k) implies hole_ok(
                #[trigger] new_levels[l][k],
                l,
                self.memory.content().len() as int,
            ) by {
                if l == index && k > 0 {
                    assert(new_levels[l][k] == old_levels[l][k - 1]);
                }
            }
            assert forall|l1: int, k1: int, l2: int, k2: int|
                valid_slot(new_levels, l1, k1) && valid_slot(new_levels, l2, k2) && (l1 != l2 || k1 != k2)
                implies disjoint(#[trigger] new_levels[l1][k1], #[trigger] new_levels[l2][k2]) by {
                let o1 = if l1 == index { k1 - 1 } else { k1 };
                let o2 = if l2 == index { k2 - 1 } else { k2 };
                if l1 == index && k1 == 0 {
                    assert(valid_slot(old_levels, l2, o2));
                    assert(disjoint(old_levels[l2][o2], (addr, size)));
                } else if l2 == index && k2 == 0 {
                    assert(valid_slot(old_levels, l1, o1));
                    assert(disjoint(old_levels[l1][o1], (addr, size)));
                } else {
                    assert(new_levels[l1][k1] == old_levels[l1][o1]);
                    assert(new_levels[l2][k2] == old_levels[l2][o2]);
                    assert(valid_slot(old_levels, l1, o1));
                    assert(valid_slot(old_levels, l2, o2));
                }
            }
            if !skip_write {
                vstd::bytes::lemma_auto_spec_u64_to_from_le_bytes();
            }
        }
    }

    /// Unlink the hole at slot `(l, k)`, keeping the boundaries up to date.
    fn remove_at(&mut self, l: usize, k: usize) -> (r: (u64, u64))
        requires
            old(self).wf(),
            valid_slot(old(self).levels(), l as int, k as int),
        ensures
            final(self).wf(),
            r == old(self).levels()[l as int][k as int],
            final(self).levels() == old(self).levels().update(l as int, old(self).levels()[l as int].remove(k as int)),
            final(self).memory_spec() == old(self).memory_spec(),
    {
        let ghost old_levels = self.levels();
        let mut level = self.replace_level(l, Vec::new());
        let h = level.remove(k);
        let _ = self.replace_level(l, level);
        let ghost nl = old_levels.update(l as int, old_levels[l as int].remove(k as int));
        let ghost mem = self.memory;
        let ghost r0 = self.roots_right_boundary as int;
        let ghost lb0 = self.roots_left_boundary as int;
        proof {
            assert(self.levels() =~= nl);
            lemma_remove_slot(old_levels, self.memory.content().len() as int, l as int, k as int);
            assert(old_levels[l as int].len() > 0);
            assert(l < r0) by {
                if l >= r0 {
                    assert(old_levels[l as int].len() == 0);
                }
            }
            assert(lb0 <= l) by {
                if l < lb0 {
                    assert(old_levels[l as int].len() == 0);
                }
            }
            assert forall|j: int| 0 <= j < NUM_SIZE_CLASSES && j != l implies nl[j] == old_levels[j] by {}
            assert(k > 0 ==> nl[l as int].len() > 0);
        }
        if k == 0 {
            if self.roots_right_boundary == l + 1 {
                while self.roots_right_boundary > 0 && self.roots[self.roots_right_boundary - 1].len() == 0
                    invariant
                        self.levels() == nl,
                        self.memory == mem,
                        self.roots_left_boundary == lb0,
                        self.roots@.len() == NUM_SIZE_CLASSES,
                        self.roots_right_boundary <= NUM_SIZE_CLASSES,
                        forall|j: int| self.roots_right_boundary <= j < NUM_SIZE_CLASSES ==> (#[trigger] nl[j]).len() == 0,
                    decreases self.roots_right_boundary,
                {
                    self.roots_right_boundary = self.roots_right_boundary - 1;
                }
            }
            let ghost r1 = self.roots_right_boundary as int;
            if self.roots_left_boundary == l {
                while self.roots_left_boundary < NUM_SIZE_CLASSES && self.roots[self.roots_left_boundary].len() == 0
                    invariant
                        self.levels() == nl,
                        self.memory == mem,
                        self.roots_right_boundary == r1,
                        self.roots@.len() == NUM_SIZE_CLASSES,
                        self.roots_left_boundary <= NUM_SIZE_CLASSES,
                        forall|j: int| 0 <= j < self.roots_left_boundary ==> (#[trigger] nl[j]).len() == 0,
                    decreases NUM_SIZE_CLASSES - self.roots_left_boundary,
                {
                    self.roots_left_boundary = self.roots_left_boundary + 1;
                }
            }
        }
        proof {
            assert(is_right_boundary(nl, self.roots_right_boundary as int)) by {
                if self.roots_right_boundary as int == r0 {
                    assert forall|j: int| r0 <= j < NUM_SIZE_CLASSES implies (#[trigger] nl[j]).len() == 0 by {
                        assert(old_levels[j].len() == 0);
                    }
                    if r0 > 0 && r0 - 1 != l {
                        assert(nl[r0 - 1] == old_levels[r0 - 1]);
                    }
                }
            }
            assert(is_left_boundary(nl, self.roots_left_boundary as int)) by {
                if self.roots_left_boundary as int == lb0 {
                    assert forall|j: int| 0 <= j < lb0 implies (#[trigger] nl[j]).len() == 0 by {
                        assert(old_levels[j].len() == 0);
                    }
                    if lb0 < NUM_SIZE_CLASSES && lb0 != l {
                        assert(nl[lb0] == old_levels[lb0]);
                    }
                }
            }
        }
        h
    }

    /// Find the slot of the hole at address `addr`.
    fn locate(&self, addr: u64) -> (r: Option<(usize, usize)>)
        requires
            self.wf(),
        ensures
            r matches Some((l, k)) ==> valid_slot(self.levels(), l as int, k as int)
                && self.levels()[l as int][k as int].0 == addr,
            r is None ==> !has_hole_at(self.levels(), addr),
    {
        let ghost levels = self.levels();
        let mut l: usize = 0;
        while l < NUM_SIZE_CLASSES
            invariant
                l <= NUM_SIZE_CLASSES,
                self.wf(),
                levels == self.levels(),
                forall|l1: int, k1: int| 0 <= l1 < l && valid_slot(levels, l1, k1) ==> (#[trigger] levels[l1][k1]).0 != addr,
            decreases NUM_SIZE_CLASSES - l,
        {
            let mut k: usize = 0;
            let len = self.roots[l].len();
            while k < len
                invariant
                    l < NUM_SIZE_CLASSES,
                    k <= len,
                    self.wf(),
                    levels == self.levels(),
                    len == levels[l as int].len(),
                    forall|l1: int, k1: int| 0 <= l1 < l && valid_slot(levels, l1, k1) ==> (#[trigger] levels[l1][k1]).0 != addr,
                    forall|k1: int| 0 <= k1 < k ==> (#[trigger] levels[l as int][k1]).0 != addr,
                decreases len - k,
            {
                if self.roots[l][k].0 == addr {
                    return Some((l, k));
                }
                k = k + 1;
            }
            l = l + 1;
        }
        None
    }

    /// Remove the hole at the given block address.
    fn remove_hole(&mut self, addr: u64)
        requires
            old(self).wf(),
            has_hole_at(old(self).levels(), addr),
        ensures
            final(self).wf(),
            final(self).levels() == remove_hole_spec(old(self).levels(), addr),
            final(self).memory_spec() == old(self).memory_spec(),
    {
        let loc = self.locate(addr);
        match loc {
            Some((l, k)) => {
                proof {
                    lemma_remove_slot(self.levels(), self.memory.content().len() as int, l as int, k as int);
                }
                let _ = self.remove_at(l, k);
            },
            None => {},
        }
    }

    /// Returns true if the hole at `addr` is the head of its list.
    pub fn is_root(&self, addr: u64) -> (r: bool)
        requires
            self.wf(),
        ensures
            r <==> (has_hole_at(self.levels(), addr) && slot_of(self.levels(), addr).1 == 0),
    {
        match self.locate(addr) {
            Some((l, k)) => {
                proof {
                    lemma_remove_slot(self.levels(), self.memory.content().len() as int, l as int, k as int);
                }
                k == 0
            },
            None => false,
        }
    }

    /// Insert a new hole to the list at the given address and size. The hole
    /// is merged with the empty holes right before and right after it, to
    /// resolve fragmentation and form a larger hole.
    pub fn insert(&mut self, addr: u64, size: u64)
        requires
            old(self).wf(),
            size >= MIN_ALLOCATION_SIZE,
            addr + size <= MAX_HOLE_END,
            addr + size <= old(self).storage().len(),
            disjoint_from_all(old(self).levels(), (addr, size)),
        ensures
            final(self).wf(),
            final(self).storage().len() == old(self).storage().len(),
            ({
                let m = merged_hole(old(self).levels(), addr, size);
                let ml = merge_levels(old(self).levels(), addr, size);
                &&& m.1 >= size
                &&& m.0 + m.1 <= MAX_HOLE_END
                &&& 0 <= size_class(m.1 as int) < NUM_SIZE_CLASSES
                &&& final(self).levels() == push_head(ml, size_class(m.1 as int), m)
                &&& final(self).storage() == write_bytes(
                    old(self).storage(),
                    m.0 as int,
                    header_bytes(m.1, head_addr(ml[size_class(m.1 as int)])),
                )
            }),
    {
        let ghost levels0 = self.levels();
        let ghost mem_len = self.memory.content().len() as int;
        let next_block = self.get_next_block(addr, size);
        let previous_block = self.get_previous_block(addr);
        let mut new_hole_addr = addr;
        let mut new_hole_size = size;
        proof {
            if let Some(n) = next_block {
                let (l, k) = choose|l: int, k: int| valid_slot(levels0, l, k) && levels0[l][k].0 == addr + size;
                assert(levels0[l][k] == n);
                assert(hole_ok(n, l, mem_len));
            }
            if let Some(pb) = previous_block {
                let (l, k) = choose|l: int, k: int| valid_slot(levels0, l, k) && levels0[l][k].0 + levels0[l][k].1 == addr;
                assert(levels0[l][k] == pb);
                assert(hole_ok(pb, l, mem_len));
            }
        }
        if let Some((next_addr, next_size)) = next_block {
            proof {
                let (l, k) = choose|l: int, k: int| valid_slot(levels0, l, k) && levels0[l][k].0 == addr + size;
                assert(has_hole_at(levels0, next_addr));
                lemma_remove_slot(levels0, mem_len, l, k);
            }
            new_hole_size = new_hole_size + next_size;
            self.remove_hole(next_addr);
        }
        let ghost levels1 = self.levels();
        if let Some((prev_addr, prev_size)) = previous_block {
            proof {
                let (l, k) = choose|l: int, k: int| valid_slot(levels0, l, k) && levels0[l][k].0 + levels0[l][k].1 == addr;
                assert(has_hole(levels0, (prev_addr, prev_size)));
                assert(has_hole(levels1, (prev_addr, prev_size)));
                let (l1, k1) = choose|l1: int, k1: int| valid_slot(levels1, l1, k1) && levels1[l1][k1] == (prev_addr, prev_size);
                assert(has_hole_at(levels1, prev_addr));
                lemma_remove_slot(levels1, mem_len, l1, k1);
            }
            new_hole_size = new_hole_size + prev_size;
            new_hole_addr = prev_addr;
            self.remove_hole(prev_addr);
        }
        let ghost levels2 = self.levels();
        proof {
            let m = (new_hole_addr, new_hole_size);
            assert(levels2 == merge_levels(levels0, addr, size));
            assert(m == merged_hole(levels0, addr, size));
            assert forall|l: int, k: int| valid_slot(levels2, l, k) implies disjoint(#[trigger] levels2[l][k], m) by {
                let g = levels2[l][k];
                assert(has_hole(levels2, g));
                assert(has_hole(levels0, g));
                let (l0, k0) = choose|l0: int, k0: int| valid_slot(levels0, l0, k0) && levels0[l0][k0] == g;
                assert(disjoint(g, (addr, size)));
                assert(hole_ok(g, l0, mem_len));
                if let Some(n) = next_block {
                    let (ln, kn) = choose|ln: int, kn: int| valid_slot(levels0, ln, kn) && levels0[ln][kn].0 == addr + size;
                    assert(g != n);
                    assert(l0 != ln || k0 != kn);
                    assert(disjoint(g, n));
                }
                if let Some(pb) = previous_block {
                    let (lp, kp) = choose|lp: int, kp: int| valid_slot(levels0, lp, kp) && levels0[lp][kp].0 + levels0[lp][kp].1 == addr;
                    assert(g != pb);
                    assert(l0 != lp || k0 != kp);
                    assert(disjoint(g, pb));
                }
            }
        }
        proof {
            lemma_size_class_bound(new_hole_size);
        }
        self.raw_insert(new_hole_addr, new_hole_size, false);
    }

    /// An iterator over the holes of size class `level`.
    fn iter(&self, level: usize) -> (r: HoleIterator<'_>)
        requires
            self.wf(),
            level < NUM_SIZE_CLASSES,
        ensures
            r.wf(),
            r.remaining() == self.levels()[level as int],
    {
        HoleIterator::new(self.roots[level].as_slice())
    }

    /// Find a hole for a block of `size` bytes (at least
    /// `MIN_ALLOCATION_SIZE`), take it out of the list, and return the block
    /// as `(address, size)`. The search starts at the block's size class and
    /// goes up, taking the first hole any class yields. What is left of the
    /// hole goes back to the list if it can stand as a hole; otherwise it is
    /// handed out with the block.
    pub fn find(&mut self, size: u64) -> (r: Option<(u64, u64)>)
        requires
            old(self).wf(),
        ensures
            final(self).wf(),
            final(self).storage().len() == old(self).storage().len(),
            r is None ==> final(self).memory_spec() == old(self).memory_spec(),
            ({
                let s: u64 = if size < MIN_ALLOCATION_SIZE { MIN_ALLOCATION_SIZE } else { size };
                let c = size_class(s as int);
                let start = if c > old(self).left_boundary() { c } else { old(self).left_boundary() };
                match first_level_hit(old(self).levels(), start, old(self).right_boundary(), s) {
                    None => {
                        &&& r is None
                        &&& final(self).levels() == old(self).levels()
                        &&& final(self).storage() == old(self).storage()
                    },
                    Some(hit) => {
                        let a = hit.1;
                        let d = hit.2;
                        let l1 = remove_hole_spec(old(self).levels(), a);
                        if d >= MIN_ALLOCATION_SIZE {
                            &&& r == Some((a, s))
                            &&& final(self).levels() == push_head(l1, size_class(d as int), ((a + s) as u64, d))
                            &&& final(self).storage() == write_bytes(
                                old(self).storage(),
                                a + s,
                                header_bytes(d, head_addr(l1[size_class(d as int)])),
                            )
                        } else {
                            &&& r == Some((a, (s + d) as u64))
                            &&& final(self).levels() == l1
                            &&& final(self).storage() == old(self).storage()
                        }
                    },
                }
            }),
    {
        let size = if size < MIN_ALLOCATION_SIZE { MIN_ALLOCATION_SIZE } else { size };
        let idx = get_log2_index(size);
        let mut i: usize = if idx > self.roots_left_boundary { idx } else { self.roots_left_boundary };
        let ghost start = i as int;
        let ghost levels = self.levels();
        let ghost mem_len = self.memory.content().len() as int;
        let mut found: Option<(u64, u64)> = None;
        loop
            invariant_except_break
                self.wf(),
                self.levels() == levels,
                self.memory.content().len() == mem_len,
                start <= i,
                first_level_hit(levels, start, self.right_boundary(), size)
                    == first_level_hit(levels, i as int, self.right_boundary(), size),
                found is None,
            ensures
                self.wf(),
                self.levels() == levels,
                self.memory.content().len() == mem_len,
                found is None ==> first_level_hit(levels, start, self.right_boundary(), size) is None,
                found matches Some(f) ==> {
                    &&& i < NUM_SIZE_CLASSES
                    &&& first_level_hit(levels, start, self.right_boundary(), size) == Some((i as int, f.0, f.1))
                    &&& exists|k: int| 0 <= k < levels[i as int].len() && (#[trigger] levels[i as int][k]).0 == f.0
                        && levels[i as int][k].1 == size + f.1
                },
            decreases NUM_SIZE_CLASSES + 64 - i,
        {
            if i >= self.roots_right_boundary {
                break;
            }
            let r = self.iter(i).find(size);
            if r.is_some() {
                found = r;
                break;
            }
            i = i + 1;
        }
        let (addr, delta) = match found {
            None => {
                return None;
            },
            Some(f) => f,
        };
        proof {
            let k = choose|k: int| 0 <= k < levels[i as int].len() && (#[trigger] levels[i as int][k]).0 == addr
                && levels[i as int][k].1 == size + delta;
            assert(valid_slot(levels, i as int, k));
            assert(has_hole_at(levels, addr));
            assert(hole_ok(levels[i as int][k], i as int, mem_len));
            lemma_remove_slot(levels, mem_len, i as int, k);
        }
        self.remove_hole(addr);
        if delta >= MIN_ALLOCATION_SIZE {
            proof {
                let k = choose|k: int| 0 <= k < levels[i as int].len() && (#[trigger] levels[i as int][k]).0 == addr
                    && levels[i as int][k].1 == size + delta;
                let hole = levels[i as int][k];
                let l1 = self.levels();
                assert forall|l: int, kk: int| valid_slot(l1, l, kk) implies disjoint(#[trigger] l1[l][kk], ((addr + size) as u64, delta)) by {
                    let g = l1[l][kk];
                    assert(has_hole(l1, g));
                    assert(has_hole(levels, g) && g != hole);
                    let (l0, k0) = choose|l0: int, k0: int| valid_slot(levels, l0, k0) && levels[l0][k0] == g;
                    assert(l0 != i || k0 != k);
                    assert(disjoint(g, hole));
                }
            }
            self.raw_insert(addr + size, delta, false);
            Some((addr, size))
        } else {
            Some((addr, size + delta))
        }
    }

    /// Grow the storage by `new_pages` pages; the holes stay as they are.
    pub fn grow_memory(&mut self, new_pages: u64) -> (r: i64)
        requires
            old(self).wf(),
        ensures
            final(self).wf(),
            final(self).levels() == old(self).levels(),
            final(self).right_boundary() == old(self).right_boundary(),
            final(self).left_boundary() == old(self).left_boundary(),
            r == -1 <==> !old(self).memory_spec().can_grow(new_pages),
            r == -1 ==> final(self).storage() == old(self).storage(),
            r != -1 ==> {
                &&& r >= 0
                &&& r as int * crate::memory::WASM_PAGE_SIZE == old(self).storage().len()
                &&& final(self).storage() == old(self).storage() + crate::memory::zeros(
                    (new_pages * crate::memory::WASM_PAGE_SIZE) as nat,
                )
            },
    {
        let r = self.memory.stable_grow(new_pages);
        proof {
            assert(self.memory.content().len() >= old(self).memory.content().len());
            assert forall|l: int, k: int| valid_slot(self.levels(), l, k) implies hole_ok(
                #[trigger] self.levels()[l][k],
                l,
                self.memory.content().len() as int,
            ) by {
                assert(hole_ok(old(self).levels()[l][k], l, old(self).memory.content().len() as int));
            }
        }
        r
    }

    /// Write `buf` to the storage at `offset`; the holes stay as they are.
    pub fn write_memory(&mut self, offset: u64, buf: &[u8])
        requires
            old(self).wf(),
            offset + buf@.len() <= old(self).storage().len(),
        ensures
            final(self).wf(),
            final(self).levels() == old(self).levels(),
            final(self).right_boundary() == old(self).right_boundary(),
            final(self).left_boundary() == old(self).left_boundary(),
            final(self).storage() == write_bytes(old(self).storage(), offset as int, buf@),
            final(self).storage().len() == old(self).storage().len(),
    {
        self.memory.stable_write(offset, buf);
    }

    /// Read `len` bytes of the storage at `offset`.
    pub fn read_memory(&self, offset: u64, len: u64) -> (r: Vec<u8>)
        requires
            self.wf(),
            offset + len <= self.storage().len(),
        ensures
            r@ == self.storage().subrange(offset as int, offset + len),
    {
        self.memory.stable_read(offset, len)
    }

    /// The size of the storage in bytes, if it can be counted in a `u64`.
    pub fn storage_len(&self) -> (r: Option<u64>)
        requires
            self.wf(),
        ensures
            r matches Some(n) ==> n == self.storage().len(),
            r is None ==> self.storage().len() > u64::MAX,
    {
        let pages = self.memory.stable_size();
        if pages > (u64::MAX >> 16) {
            proof {
                assert((u64::MAX >> 16u64) == 0xffff_ffff_ffffu64) by (bit_vector);
            }
            None
        } else {
            proof {
                assert((u64::MAX >> 16u64) == 0xffff_ffff_ffffu64) by (bit_vector);
                assert(pages * 65536 <= 0xffff_ffff_ffff * 65536) by (nonlinear_arith)
                    requires pages <= 0xffff_ffff_ffffu64;
            }
            Some(pages * crate::memory::WASM_PAGE_SIZE)
        }
    }

    /// Whether the region `(addr, size)` overlaps one of the holes.
    pub fn overlaps_hole(&self, addr: u64, size: u64) -> (r: bool)
        requires
            self.wf(),
            addr + size <= u64::MAX,
        ensures
            r == !disjoint_from_all(self.levels(), (addr, size)),
    {
        let ghost levels = self.levels();
        let mut l: usize = 0;
        while l < NUM_SIZE_CLASSES
            invariant
                l <= NUM_SIZE_CLASSES,
                self.wf(),
                levels == self.levels(),
                addr + size <= u64::MAX,
                forall|l1: int, k1: int| 0 <= l1 < l && valid_slot(levels, l1, k1) ==> disjoint(#[trigger] levels[l1][k1], (addr, size)),
            decreases NUM_SIZE_CLASSES - l,
        {
            let mut k: usize = 0;
            let len = self.roots[l].len();
            while k < len
                invariant
                    l < NUM_SIZE_CLASSES,
                    k <= len,
                    self.wf(),
                    levels == self.levels(),
                    len == levels[l as int].len(),
                    addr + size <= u64::MAX,
                    forall|l1: int, k1: int| 0 <= l1 < l && valid_slot(levels, l1, k1) ==> disjoint(#[trigger] levels[l1][k1], (addr, size)),
                    forall|k1: int| 0 <= k1 < k ==> disjoint(#[trigger] levels[l as int][k1], (addr, size)),
                decreases len - k,
            {
                let h = self.roots[l][k];
                proof {
                    assert(valid_slot(levels, l as int, k as int));
                    assert(hole_ok(h, l as int, self.memory.content().len() as int));
                }
                if !(h.0 + h.1 <= addr || addr + size <= h.0) {
                    return true;
                }
                k = k + 1;
            }
            l = l + 1;
        }
        false
    }

    /// The number of holes in the list.
    pub fn len(&self) -> (r: u64)
        requires
            self.wf(),
        ensures
            r == count_holes(self.levels(), NUM_SIZE_CLASSES as int),
    {
        let ghost levels = self.levels();
        let mut total: u64 = 0;
        let mut l: usize = 0;
        while l < NUM_SIZE_CLASSES
            invariant
                l <= NUM_SIZE_CLASSES,
                self.wf(),
                levels == self.levels(),
                total == count_holes(levels, l as int),
            decreases NUM_SIZE_CLASSES - l,
        {
            proof {
                lemma_count_holes_bound(levels, self.memory.content().len() as int, l as int + 1);
            }
            total = total + self.roots[l].len() as u64;
            l = l + 1;
        }
        total
    }

    /// Return the hole right before the provided address, as
    /// `(address, size)`, if there is no gap between it and the address.
    fn get_previous_block(&self, addr: u64) -> (r: Option<(u64, u64)>)
        requires
            self.wf(),
        ensures
            r == hole_ending_at(self.levels(), addr as int),
    {
        let ghost levels = self.levels();
        let mut l: usize = 0;
        while l < NUM_SIZE_CLASSES
            invariant
                l <= NUM_SIZE_CLASSES,
                self.wf(),
                levels == self.levels(),
                forall|l1: int, k1: int| 0 <= l1 < l && valid_slot(levels, l1, k1) ==> (#[trigger] levels[l1][k1]).0 + levels[l1][k1].1 != addr,
            decreases NUM_SIZE_CLASSES - l,
        {
            let mut k: usize = 0;
            let len = self.roots[l].len();
            while k < len
                invariant
                    l < NUM_SIZE_CLASSES,
                    k <= len,
                    self.wf(),
                    levels == self.levels(),
                    len == levels[l as int].len(),
                    forall|l1: int, k1: int| 0 <= l1 < l && valid_slot(levels, l1, k1) ==> (#[trigger] levels[l1][k1]).0 + levels[l1][k1].1 != addr,
                    forall|k1: int| 0 <= k1 < k ==> (#[trigger] levels[l as int][k1]).0 + levels[l as int][k1].1 != addr,
                decreases len - k,
            {
                let h = self.roots[l][k];
                if h.0 + h.1 == addr {
                    proof {
                        assert(valid_slot(levels, l as int, k as int));
                        let (l2, k2) = choose|l2: int, k2: int| valid_slot(levels, l2, k2) && levels[l2][k2].0 + levels[l2][k2].1 == addr;
                        lemma_unique_end(levels, self.memory.content().len() as int, l as int, k as int, l2, k2);
                    }
                    return Some(h);
                }
                k = k + 1;
            }
            l = l + 1;
        }
        None
    }

    /// Return the hole that starts right after the block `(addr, size)`, as
    /// `(address, size)`.
    fn get_next_block(&self, addr: u64, size: u64) -> (r: Option<(u64, u64)>)
        requires
            self.wf(),
            addr + size <= MAX_HOLE_END,
        ensures
            r == hole_starting_at(self.levels(), addr + size),
    {
        let ghost levels = self.levels();
        let target = addr + size;
        let mut l: usize = 0;
        while l < NUM_SIZE_CLASSES
            invariant
                l <= NUM_SIZE_CLASSES,
                self.wf(),
                levels == self.levels(),
                target == addr + size,
                forall|l1: int, k1: int| 0 <= l1 < l && valid_slot(levels, l1, k1) ==> (#[trigger] levels[l1][k1]).0 != target,
            decreases NUM_SIZE_CLASSES - l,
        {
            let mut k: usize = 0;
            let len = self.roots[l].len();
            while k < len
                invariant
                    l < NUM_SIZE_CLASSES,
                    k <= len,
                    self.wf(),
                    levels == self.levels(),
                    len == levels[l as int].len(),
                    target == addr + size,
                    forall|l1: int, k1: int| 0 <= l1 < l && valid_slot(levels, l1, k1) ==> (#[trigger] levels[l1][k1]).0 != target,
                    forall|k1: int| 0 <= k1 < k ==> (#[trigger] levels[l as int][k1]).0 != target,
                decreases len - k,
            {
                let h = self.roots[l][k];
                if h.0 == target {
                    proof {
                        assert(valid_slot(levels, l as int, k as int));
                        let (l2, k2) = choose|l2: int, k2: int| valid_slot(levels, l2, k2) && levels[l2][k2].0 == target;
                        lemma_unique_addr(levels, self.memory.content().len() as int, l as int, k as int, l2, k2);
                    }
                    return Some(h);
                }
                k = k + 1;
            }
            l = l + 1;
        }
        None
    }
}

/// The slot of the hole at address `a`.
pub open spec fn slot_of(levels: Seq<Seq<(u64, u64)>>, a: u64) -> (int, int) {
    choose|l: int, k: int| valid_slot(levels, l, k) && levels[l][k].0 == a
}

/// A hole starts at address `a`.
pub open spec fn has_hole_at(levels: Seq<Seq<(u64, u64)>>, a: u64) -> bool {
    exists|l: int, k: int| valid_slot(levels, l, k) && (#[trigger] levels[l][k]).0 == a
}

/// The lists after the hole at address `a` was unlinked from its list.
pub open spec fn remove_hole_spec(levels: Seq<Seq<(u64, u64)>>, a: u64) -> Seq<Seq<(u64, u64)>> {
    let (l, k) = slot_of(levels, a);
    levels.update(l, levels[l].remove(k))
}

/// The hole that ends exactly at `addr`, if there is one.
pub open spec fn hole_ending_at(levels: Seq<Seq<(u64, u64)>>, addr: int) -> Option<(u64, u64)> {
    if exists|l: int, k: int| valid_slot(levels, l, k) && (#[trigger] levels[l][k]).0 + levels[l][k].1 == addr {
        let (l, k) = choose|l: int, k: int| valid_slot(levels, l, k) && levels[l][k].0 + levels[l][k].1 == addr;
        Some(levels[l][k])
    } else {
        None
    }
}

/// The hole that starts exactly at `addr`, if there is one.
pub open spec fn hole_starting_at(levels: Seq<Seq<(u64, u64)>>, addr: int) -> Option<(u64, u64)> {
    if exists|l: int, k: int| valid_slot(levels, l, k) && (#[trigger] levels[l][k]).0 == addr {
        let (l, k) = choose|l: int, k: int| valid_slot(levels, l, k) && levels[l][k].0 == addr;
        Some(levels[l][k])
    } else {
        None
    }
}

/// The lists after the free block `(addr, size)` was merged with the hole
/// right after it, then with the hole right before it.
pub open spec fn merge_levels(levels: Seq<Seq<(u64, u64)>>, addr: u64, size: u64) -> Seq<Seq<(u64, u64)>> {
    let n = hole_starting_at(levels, addr + size);
    let l1 = match n {
        Some(h) => remove_hole_spec(levels, h.0),
        None => levels,
    };
    let p = hole_ending_at(levels, addr as int);
    match p {
        Some(h) => remove_hole_spec(l1, h.0),
        None => l1,
    }
}

/// The hole that the free block `(addr, size)` forms with its neighbours.
pub open spec fn merged_hole(levels: Seq<Seq<(u64, u64)>>, addr: u64, size: u64) -> (u64, u64) {
    let n_size: int = match hole_starting_at(levels, addr + size) {
        Some(h) => h.1 as int,
        None => 0,
    };
    match hole_ending_at(levels, addr as int) {
        Some(h) => (h.0, (size + n_size + h.1) as u64),
        None => (addr, (size + n_size) as u64),
    }
}

/// The first size class in `[from, to)` whose list yields a hole for a
/// request of `size` bytes, with that hole's address and delta.
pub open spec fn first_level_hit(levels: Seq<Seq<(u64, u64)>>, from: int, to: int, size: u64) -> Option<(int, u64, u64)>
    decreases to - from,
{
    if from >= to || from < 0 {
        None
    } else {
        match level_find(levels[from], size) {
            Some(f) => Some((from, f.0, f.1)),
            None => first_level_hit(levels, from + 1, to, size),
        }
    }
}

/// A list that holds a hole of at least `size` bytes yields a hole for a
/// request of `size` bytes; in a scan, a worst fit with a nonzero delta has an
/// address.
pub proof fn lemma_scan_fits(s: Seq<(u64, u64)>, size: u64)
    requires
        size > 0,
    ensures
        (exists|k: int| 0 <= k < s.len() && (#[trigger] s[k]).1 >= size) ==> scan_holes(s, size).3 is Some,
        scan_holes(s, size).0 > 0 ==> scan_holes(s, size).1 is Some,
        scan_holes(s, size).3 is Some ==> scan_holes(s, size).2 < u64::MAX,
        scan_holes(s, size).3 is None ==> scan_holes(s, size).2 == u64::MAX,
    decreases s.len(),
{
    if s.len() > 0 {
        lemma_scan_fits(s.drop_last(), size);
        if exists|k: int| 0 <= k < s.len() && (#[trigger] s[k]).1 >= size {
            let k = choose|k: int| 0 <= k < s.len() && (#[trigger] s[k]).1 >= size;
            if k < s.len() - 1 {
                assert(s.drop_last()[k] == s[k]);
            }
        }
    }
}

/// A list that holds a hole of at least `size` bytes yields a hole.
pub proof fn lemma_level_find_some(s: Seq<(u64, u64)>, size: u64, k: int)
    requires
        size > 0,
        0 <= k < s.len(),
        s[k].1 >= size,
    ensures
        level_find(s, size) is Some,
{
    lemma_scan_fits(s, size);
}

/// If a class in `[from, to)` holds a hole of at least `size` bytes, some
/// class in that range yields a hole.
pub proof fn lemma_first_level_hit_some(levels: Seq<Seq<(u64, u64)>>, from: int, to: int, size: u64, j: int, k: int)
    requires
        size > 0,
        0 <= from <= j < to,
        j < levels.len(),
        0 <= k < levels[j].len(),
        levels[j][k].1 >= size,
    ensures
        first_level_hit(levels, from, to, size) is Some,
    decreases j - from,
{
    if from < j {
        if level_find(levels[from], size) is None {
            lemma_first_level_hit_some(levels, from + 1, to, size, j, k);
        }
    } else {
        lemma_level_find_some(levels[j], size, k);
    }
}

/// In a scan, a best or worst fit with an address is a hole of the list with
/// that many bytes left over.
pub proof fn lemma_scan_found(s: Seq<(u64, u64)>, size: u64)
    ensures
        scan_holes(s, size).3 matches Some(a) ==> exists|k: int|
            0 <= k < s.len() && (#[trigger] s[k]).0 == a && s[k].1 == size + scan_holes(s, size).2,
        scan_holes(s, size).1 matches Some(a) ==> exists|k: int|
            0 <= k < s.len() && (#[trigger] s[k]).0 == a && s[k].1 == size + scan_holes(s, size).0,
    decreases s.len(),
{
    if s.len() > 0 {
        let p = s.drop_last();
        lemma_scan_found(p, size);
        if scan_holes(p, size).3 is Some {
            let k = choose|k: int| 0 <= k < p.len() && (#[trigger] p[k]).0 == scan_holes(p, size).3.unwrap()
                && p[k].1 == size + scan_holes(p, size).2;
            assert(s[k] == p[k]);
        }
        if scan_holes(p, size).1 is Some {
            let k = choose|k: int| 0 <= k < p.len() && (#[trigger] p[k]).0 == scan_holes(p, size).1.unwrap()
                && p[k].1 == size + scan_holes(p, size).0;
            assert(s[k] == p[k]);
        }
        assert(s[s.len() - 1] == s.last());
    }
}

/// The hole a list yields is one of its holes, with `delta` bytes more than
/// asked for.
pub proof fn lemma_level_find_found(s: Seq<(u64, u64)>, size: u64)
    ensures
        level_find(s, size) matches Some(f) ==> exists|k: int|
            0 <= k < s.len() && (#[trigger] s[k]).0 == f.0 && s[k].1 == size + f.1,
{
    lemma_scan_found(s, size);
}

/// The class `first_level_hit` names lies in the searched range, and holds
/// the hole it names.
pub proof fn lemma_first_level_hit_found(levels: Seq<Seq<(u64, u64)>>, from: int, to: int, size: u64)
    requires
        to <= levels.len(),
    ensures
        first_level_hit(levels, from, to, size) matches Some(h) ==> {
            &&& from <= h.0 < to
            &&& level_find(levels[h.0], size) == Some((h.1, h.2))
            &&& exists|k: int| valid_slot(levels, h.0, k) && (#[trigger] levels[h.0][k]).0 == h.1 && levels[h.0][k].1 == size + h.2
        },
    decreases to - from,
{
    if from < to && from >= 0 {
        if level_find(levels[from], size) is None {
            lemma_first_level_hit_found(levels, from + 1, to, size);
        } else {
            lemma_level_find_found(levels[from], size);
            let f = level_find(levels[from], size).unwrap();
            let k = choose|k: int| 0 <= k < levels[from].len() && (#[trigger] levels[from][k]).0 == f.0 && levels[from][k].1 == size + f.1;
            assert(valid_slot(levels, from, k));
        }
    }
}

/// The number of holes in the first `n` size classes.
pub open spec fn count_holes(levels: Seq<Seq<(u64, u64)>>, n: int) -> nat
    decreases n,
{
    if n <= 0 {
        0
    } else {
        count_holes(levels, n - 1) + levels[n - 1].len()
    }
}

/// Holes are at least 16 bytes and lie below `MAX_HOLE_END`, so there are
/// fewer of them than `usize` can count.
proof fn lemma_count_holes_bound(levels: Seq<Seq<(u64, u64)>>, mem_len: int, n: int)
    requires
        levels_wf(levels, mem_len),
        0 <= n <= NUM_SIZE_CLASSES,
    ensures
        count_holes(levels, n) <= n * 0x8_0000_0000,
    decreases n,
{
    if n > 0 {
        lemma_count_holes_bound(levels, mem_len, n - 1);
        lemma_level_len_bound(levels, mem_len, n - 1);
    }
}

/// A list holds at most `MAX_HOLE_END / 16` holes: they are disjoint, at
/// least 16 bytes each and below `MAX_HOLE_END`, so distinct holes start in
/// distinct 16-byte granules.
proof fn lemma_level_len_bound(levels: Seq<Seq<(u64, u64)>>, mem_len: int, l: int)
    requires
        levels_wf(levels, mem_len),
        0 <= l < NUM_SIZE_CLASSES,
    ensures
        levels[l].len() <= 0x8_0000_0000,
{
    let s = levels[l];
    let f = |k: int| (s[k].0 / 16) as int;
    let dom = vstd::set_lib::set_int_range(0, s.len() as int);
    let img = vstd::set_lib::set_int_range(0, 0x8_0000_0000);
    assert forall|i: int, j: int| dom.contains(i) && dom.contains(j) && #[trigger] f(i) == #[trigger] f(j) implies i == j by {
        if i != j {
            assert(valid_slot(levels, l, i));
            assert(valid_slot(levels, l, j));
            assert(disjoint(levels[l][i], levels[l][j]));
            assert(hole_ok(levels[l][i], l, mem_len));
            assert(hole_ok(levels[l][j], l, mem_len));
        }
    }
    vstd::set_lib::lemma_int_range(0, s.len() as int);
    vstd::set_lib::lemma_int_range(0, 0x8_0000_0000);
    let mapped = dom.map(f);
    assert forall|g: int| mapped.contains(g) implies img.contains(g) by {
        let k = choose|k: int| dom.contains(k) && f(k) == g;
        assert(valid_slot(levels, l, k));
        assert(hole_ok(levels[l][k], l, mem_len));
    }
    vstd::set_lib::lemma_map_size(dom, mapped, f);
    vstd::set_lib::lemma_len_subset(mapped, img);
}

/// Two slots that hold holes at the same address are the same slot.
pub proof fn lemma_unique_addr(levels: Seq<Seq<(u64, u64)>>, mem_len: int, l1: int, k1: int, l2: int, k2: int)
    requires
        levels_wf(levels, mem_len),
        valid_slot(levels, l1, k1),
        valid_slot(levels, l2, k2),
        levels[l1][k1].0 == levels[l2][k2].0,
    ensures
        l1 == l2 && k1 == k2,
{
    if l1 != l2 || k1 != k2 {
        assert(disjoint(levels[l1][k1], levels[l2][k2]));
        assert(hole_ok(levels[l1][k1], l1, mem_len));
        assert(hole_ok(levels[l2][k2], l2, mem_len));
    }
}

/// Two slots that hold holes ending at the same address are the same slot.
pub proof fn lemma_unique_end(levels: Seq<Seq<(u64, u64)>>, mem_len: int, l1: int, k1: int, l2: int, k2: int)
    requires
        levels_wf(levels, mem_len),
        valid_slot(levels, l1, k1),
        valid_slot(levels, l2, k2),
        levels[l1][k1].0 + levels[l1][k1].1 == levels[l2][k2].0 + levels[l2][k2].1,
    ensures
        l1 == l2 && k1 == k2,
{
    if l1 != l2 || k1 != k2 {
        assert(disjoint(levels[l1][k1], levels[l2][k2]));
        assert(hole_ok(levels[l1][k1], l1, mem_len));
        assert(hole_ok(levels[l2][k2], l2, mem_len));
    }
}

/// Unlinking the hole at slot `(l, k)` keeps the lists well formed, keeps
/// every other hole where it was, and unlinks exactly the hole at its address.
pub proof fn lemma_remove_slot(levels: Seq<Seq<(u64, u64)>>, mem_len: int, l: int, k: int)
    requires
        levels_wf(levels, mem_len),
        valid_slot(levels, l, k),
    ensures
        slot_of(levels, levels[l][k].0) == (l, k),
        remove_hole_spec(levels, levels[l][k].0) == levels.update(l, levels[l].remove(k)),
        levels_wf(levels.update(l, levels[l].remove(k)), mem_len),
        forall|h: (u64, u64)| has_hole(levels.update(l, levels[l].remove(k)), h) <==> (has_hole(levels, h) && h != levels[l][k]),
        forall|h: (u64, u64)| disjoint_from_all(levels, h) ==> disjoint_from_all(levels.update(l, levels[l].remove(k)), h),
{
    let a = levels[l][k].0;
    assert(valid_slot(levels, l, k) && levels[l][k].0 == a);
    let (l0, k0) = slot_of(levels, a);
    lemma_unique_addr(levels, mem_len, l, k, l0, k0);
    let nl = levels.update(l, levels[l].remove(k));
    assert forall|l1: int, k1: int| valid_slot(nl, l1, k1) implies hole_ok(#[trigger] nl[l1][k1], l1, mem_len) by {
        let o1 = if l1 == l && k1 >= k { k1 + 1 } else { k1 };
        assert(nl[l1][k1] == levels[l1][o1]);
        assert(valid_slot(levels, l1, o1));
    }
    assert forall|l1: int, k1: int, l2: int, k2: int|
        valid_slot(nl, l1, k1) && valid_slot(nl, l2, k2) && (l1 != l2 || k1 != k2)
        implies disjoint(#[trigger] nl[l1][k1], #[trigger] nl[l2][k2]) by {
        let o1 = if l1 == l && k1 >= k { k1 + 1 } else { k1 };
        let o2 = if l2 == l && k2 >= k { k2 + 1 } else { k2 };
        assert(nl[l1][k1] == levels[l1][o1]);
        assert(nl[l2][k2] == levels[l2][o2]);
        assert(valid_slot(levels, l1, o1));
        assert(valid_slot(levels, l2, o2));
    }
    assert forall|h: (u64, u64)| has_hole(nl, h) <==> (has_hole(levels, h) && h != levels[l][k]) by {
        if has_hole(nl, h) {
            let (l1, k1) = choose|l1: int, k1: int| valid_slot(nl, l1, k1) && nl[l1][k1] == h;
            let o1 = if l1 == l && k1 >= k { k1 + 1 } else { k1 };
            assert(nl[l1][k1] == levels[l1][o1]);
            assert(valid_slot(levels, l1, o1));
            if h == levels[l][k] {
                lemma_unique_addr(levels, mem_len, l, k, l1, o1);
            }
        }
        if has_hole(levels, h) && h != levels[l][k] {
            let (l1, k1) = choose|l1: int, k1: int| valid_slot(levels, l1, k1) && levels[l1][k1] == h;
            let n1 = if l1 == l && k1 > k { k1 - 1 } else { k1 };
            assert(l1 != l || k1 != k);
            assert(nl[l1][n1] == h);
            assert(valid_slot(nl, l1, n1));
        }
    }
    assert forall|h: (u64, u64)| disjoint_from_all(levels, h) implies disjoint_from_all(nl, h) by {
        assert forall|l1: int, k1: int| valid_slot(nl, l1, k1) implies disjoint(#[trigger] nl[l1][k1], h) by {
            let o1 = if l1 == l && k1 >= k { k1 + 1 } else { k1 };
            assert(nl[l1][k1] == levels[l1][o1]);
            assert(valid_slot(levels, l1, o1));
        }
    }
}

/// The size class of every hole the lists can keep is below
/// `NUM_SIZE_CLASSES`.
pub proof fn lemma_size_class_bound(size: u64)
    requires
        MIN_ALLOCATION_SIZE <= size <= MAX_HOLE_END,
    ensures
        0 <= size_class(size as int) < NUM_SIZE_CLASSES,
{
    lemma_ceil_log2_spec(size as int);
    lemma2_to64();
    lemma_ceil_log2_unique(16, 4, 4);
    lemma_ceil_log2_spec(16);
    lemma_ceil_log2_monotone(16, 4, size as int, ceil_log2_spec(size as int) as int);
    vstd::arithmetic::power2::lemma2_to64_rest();
    assert(pow2(39) == 0x80_0000_0000);
    assert(pow2(38) == 0x40_0000_0000);
    lemma_ceil_log2_monotone(size as int, ceil_log2_spec(size as int) as int, 0x80_0000_0000, 39);
}

} // verus!
