//! Slot and region geometry of a pool: how wide each slot is and how large
//! and how aligned the single backing region must be.
use vstd::prelude::*;

verus! {

/// Width in bytes of one machine word: the smallest slot a pool hands out.
pub const WORD_BYTES: usize = 8;

/// Largest size a single region may have (`isize::MAX`), the bound that
/// std places on one allocation.
pub const MAX_REGION_BYTES: usize = usize::MAX / 2;

/// The least power of two that is at least `n`, searching upward from `p`.
pub open spec fn pow2_from(n: nat, p: nat) -> nat
    decreases (if p >= n { 0 } else { n - p }),
    when p >= 1
{
    if p >= n {
        p
    } else {
        pow2_from(n, 2 * p)
    }
}

/// The least power of two that is at least `n` (1 when `n` is 0).
pub open spec fn pow2_ceil(n: nat) -> nat {
    pow2_from(n, 1)
}

/// `p` is a power of two.
pub open spec fn is_pow2(p: nat) -> bool
    decreases p,
{
    if p == 1 {
        true
    } else if p >= 2 && p % 2 == 0 {
        is_pow2(p / 2)
    } else {
        false
    }
}

/// Distance between consecutive slots for a requested slot size: the size
/// raised to one word, then rounded up to a power of two.
pub open spec fn stride_for(size: nat) -> nat {
    pow2_ceil(if size < WORD_BYTES { WORD_BYTES as nat } else { size })
}

/// Bytes of the region that holds `count` slots of the given size.
pub open spec fn region_bytes(size: nat, count: nat) -> nat {
    stride_for(size) * count
}

/// Alignment the region is reserved with: the least power of two that is at
/// least the region's size. This is a chosen policy, not a necessity: it
/// grows with the pool, and it is what bounds the largest pool that can be
/// laid out.
pub open spec fn region_align(size: nat, count: nat) -> nat {
    pow2_ceil(region_bytes(size, count))
}

/// A pool of `count` slots of `size` bytes can be laid out: neither is zero,
/// and the region, rounded up to its alignment, is a valid allocation.
pub open spec fn layout_fits(size: nat, count: nat) -> bool {
    &&& size >= 1
    &&& count >= 1
    &&& region_align(size, count) <= MAX_REGION_BYTES
}

proof fn lemma_pow2_from_facts(n: nat, p: nat)
    requires
        p >= 1,
        is_pow2(p),
    ensures
        pow2_from(n, p) >= n,
        pow2_from(n, p) >= p,
        is_pow2(pow2_from(n, p)),
    decreases (if p >= n { 0 } else { n - p }),
{
    if p < n {
        assert(is_pow2(2 * p)) by {
            assert((2 * p) / 2 == p);
        }
        lemma_pow2_from_facts(n, 2 * p);
    }
}

/// The rounding is a power of two, at least its argument.
pub proof fn lemma_pow2_ceil_facts(n: nat)
    ensures
        pow2_ceil(n) >= n,
        pow2_ceil(n) >= 1,
        is_pow2(pow2_ceil(n)),
{
    lemma_pow2_from_facts(n, 1);
}

/// A power of two that is at least `n` is at least the rounding of `n`.
pub proof fn lemma_pow2_ceil_least(n: nat, q: nat)
    requires
        is_pow2(q),
        q >= n,
    ensures
        pow2_ceil(n) <= q,
{
    lemma_pow2_from_least(n, 1, q);
}

proof fn lemma_pow2_from_least(n: nat, p: nat, q: nat)
    requires
        p >= 1,
        is_pow2(p),
        is_pow2(q),
        q >= n,
        p <= q,
    ensures
        pow2_from(n, p) <= q,
    decreases (if p >= n { 0 } else { n - p }),
{
    if p < n {
        lemma_pow2_step(p, q);
        assert(is_pow2(2 * p)) by {
            assert((2 * p) / 2 == p);
        }
        lemma_pow2_from_least(n, 2 * p, q);
    }
}

/// Between two powers of two `p < q`, doubling `p` does not pass `q`.
proof fn lemma_pow2_step(p: nat, q: nat)
    requires
        is_pow2(p),
        is_pow2(q),
        p < q,
    ensures
        2 * p <= q,
    decreases q,
{
    if p == 1 {
        assert(q >= 2);
        assert(q % 2 == 0);
    } else {
        assert(q != 1);
        assert(q >= 2 && q % 2 == 0);
        assert(p >= 2 && p % 2 == 0);
        lemma_pow2_step(p / 2, q / 2);
    }
}

/// Rounds `n` up to a power of two; `None` when that power exceeds
/// `MAX_REGION_BYTES`.
pub fn pow2_ceil_checked(n: usize) -> (r: Option<usize>)
    ensures
        r == (if pow2_ceil(n as nat) <= MAX_REGION_BYTES {
            Some(pow2_ceil(n as nat) as usize)
        } else {
            None
        }),
{
    let mut p: usize = 1;
    proof {
        lemma_pow2_ceil_facts(n as nat);
    }
    while p < n
        invariant
            1 <= p <= MAX_REGION_BYTES,
            is_pow2(p as nat),
            pow2_from(n as nat, p as nat) == pow2_ceil(n as nat),
        decreases MAX_REGION_BYTES - p,
    {
        if p > MAX_REGION_BYTES / 2 {
            proof {
                assert(pow2_from(n as nat, p as nat) == pow2_from(n as nat, 2 * p as nat));
                assert(is_pow2(2 * (p as nat))) by {
                    assert((2 * (p as nat)) / 2 == p as nat);
                }
                lemma_pow2_from_facts(n as nat, 2 * (p as nat));
            }
            return None;
        }
        proof {
            assert(is_pow2(2 * (p as nat))) by {
                assert((2 * (p as nat)) / 2 == p as nat);
            }
        }
        p = p * 2;
    }
    Some(p)
}

/// Geometry of a pool's region.
pub struct RegionLayout {
    /// Distance in bytes between consecutive slot starts.
    pub stride: usize,
    /// Number of slots.
    pub count: usize,
    /// Size of the region in bytes, `stride * count`.
    pub size: usize,
    /// Alignment the region is reserved with.
    pub align: usize,
}

impl RegionLayout {
    /// This is the geometry for `count` slots of `slot_size` bytes.
    pub open spec fn describes(&self, slot_size: nat, count: nat) -> bool {
        &&& self.stride as nat == stride_for(slot_size)
        &&& self.count as nat == count
        &&& self.size as nat == region_bytes(slot_size, count)
        &&& self.align as nat == region_align(slot_size, count)
    }
}

/// Computes the geometry of a pool of `count` slots of `slot_size` bytes;
/// `None` when either is zero or the region would not be a valid allocation.
pub fn region_layout(slot_size: usize, count: usize) -> (r: Option<RegionLayout>)
    ensures
        r is Some <==> layout_fits(slot_size as nat, count as nat),
        r matches Some(l) ==> l.describes(slot_size as nat, count as nat),
{
    if slot_size == 0 || count == 0 {
        return None;
    }
    let widened: usize = if slot_size < WORD_BYTES { WORD_BYTES } else { slot_size };
    let stride = match pow2_ceil_checked(widened) {
        Some(s) => {
            proof {
                lemma_pow2_ceil_facts(widened as nat);
            }
            s
        },
        None => {
            proof {
                lemma_region_grows(slot_size as nat, count as nat);
            }
            return None;
        },
    };
    if count > MAX_REGION_BYTES / stride {
        proof {
            lemma_region_grows(slot_size as nat, count as nat);
            assert(stride * count > MAX_REGION_BYTES) by (nonlinear_arith)
                requires
                    count > MAX_REGION_BYTES / stride,
                    stride >= 1,
            ;
        }
        return None;
    }
    proof {
        assert(stride * count <= MAX_REGION_BYTES) by (nonlinear_arith)
            requires
                count <= MAX_REGION_BYTES / stride,
                stride >= 1,
        ;
    }
    let size: usize = stride * count;
    match pow2_ceil_checked(size) {
        Some(align) => Some(RegionLayout { stride, count, size, align }),
        None => None,
    }
}

proof fn lemma_region_grows(slot_size: nat, count: nat)
    requires
        count >= 1,
    ensures
        region_align(slot_size, count) >= region_bytes(slot_size, count),
        region_bytes(slot_size, count) >= stride_for(slot_size),
{
    lemma_pow2_ceil_facts(region_bytes(slot_size, count));
    assert(stride_for(slot_size) * count >= stride_for(slot_size)) by (nonlinear_arith)
        requires
            count >= 1,
    ;
}

/// Every pool of 1 to 256 slots of 1 to 256 bytes has a valid layout, so
/// making one fails only when its memory cannot be reserved.
pub proof fn lemma_small_pools_fit(size: nat, count: nat)
    requires
        1 <= size <= 256,
        1 <= count <= 256,
    ensures
        layout_fits(size, count),
{
    let w: nat = if size < WORD_BYTES { WORD_BYTES as nat } else { size };
    lemma_pow2_up_to(8);
    lemma_pow2_up_to(16);
    lemma_pow2_ceil_least(w, 256);
    lemma_pow2_ceil_facts(w);
    let r = stride_for(size) * count;
    assert(r <= 65536) by (nonlinear_arith)
        requires
            stride_for(size) <= 256,
            count <= 256,
            r == stride_for(size) * count,
    ;
    lemma_pow2_ceil_least(r, 65536);
}

/// Two to the `k` is a power of two.
proof fn lemma_pow2_up_to(k: nat)
    requires
        k <= 16,
    ensures
        is_pow2(vstd::arithmetic::power2::pow2(k) as nat),
        k == 8 ==> vstd::arithmetic::power2::pow2(k) == 256,
        k == 16 ==> vstd::arithmetic::power2::pow2(k) == 65536,
    decreases k,
{
    vstd::arithmetic::power2::lemma2_to64();
    if k > 0 {
        lemma_pow2_up_to((k - 1) as nat);
        let p = vstd::arithmetic::power2::pow2((k - 1) as nat);
        vstd::arithmetic::power2::lemma_pow2_unfold(k);
        assert((2 * p) / 2 == p);
        if k == 16 {
            lemma_pow2_up_to(8);
        }
    }
}

} // verus!
