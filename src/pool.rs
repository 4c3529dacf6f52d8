//! The pool itself: a region of equal slots, a stack of free slot addresses,
//! and the abstract model its contracts are stated over.
//!
//! Slot addresses are byte offsets into the pool's region. A free slot is
//! found on the free stack; the slot most recently released is the next one
//! handed out.
use vstd::prelude::*;
use vstd::set_lib::{lemma_int_range, lemma_len_subset, set_int_range};

use crate::layout::{
    is_pow2, layout_fits, pow2_ceil, region_align, region_layout, stride_for, MAX_REGION_BYTES,
    WORD_BYTES,
};

verus! {

/// What a pool is, as far as its users can tell.
pub struct PoolModel {
    /// Distance in bytes between consecutive slot starts.
    pub stride: nat,
    /// Number of slots.
    pub capacity: nat,
    /// Alignment the region was reserved with.
    pub align: nat,
    /// Free slots, the next one to be handed out last.
    pub free: Seq<usize>,
    /// Contents of the region.
    pub bytes: Seq<u8>,
}

impl PoolModel {
    /// Size of the region in bytes.
    pub open spec fn region_size(self) -> nat {
        self.stride * self.capacity
    }

    /// `a` is the start of one of the slots.
    pub open spec fn is_slot(self, a: int) -> bool {
        &&& 0 <= a < self.region_size()
        &&& a % (self.stride as int) == 0
    }

    /// The state a pool keeps at all times.
    pub open spec fn wf(self) -> bool {
        &&& is_pow2(self.stride)
        &&& self.stride >= WORD_BYTES
        &&& self.capacity >= 1
        &&& self.region_size() <= MAX_REGION_BYTES
        &&& self.align == pow2_ceil(self.region_size())
        &&& self.align <= MAX_REGION_BYTES
        &&& self.bytes.len() == self.region_size()
        &&& self.free.len() <= self.capacity
        &&& forall|i: int| 0 <= i < self.free.len() ==> self.is_slot(#[trigger] self.free[i] as int)
        &&& self.free.no_duplicates()
    }

    /// Every slot is free.
    pub open spec fn is_full(self) -> bool {
        self.free.len() == self.capacity
    }

    /// The slot that the next acquisition hands out, if any is free.
    pub open spec fn acquired(self) -> Option<usize> {
        if self.free.len() > 0 {
            Some(self.free.last())
        } else {
            None
        }
    }

    /// The pool after one acquisition.
    pub open spec fn after_acquire(self) -> PoolModel {
        if self.free.len() > 0 {
            PoolModel { free: self.free.drop_last(), ..self }
        } else {
            self
        }
    }

    /// The pool after releasing `a`: it is pushed on the free stack when it
    /// is the start of a slot, and nothing changes otherwise.
    pub open spec fn after_release(self, a: usize) -> PoolModel {
        if self.is_slot(a as int) {
            PoolModel { free: self.free.push(a), ..self }
        } else {
            self
        }
    }

    /// The pool after writing `data` at the start of slot `a`: the region
    /// changes there when `a` is a slot that `data` fits in, nowhere otherwise.
    pub open spec fn after_write(self, a: int, data: Seq<u8>) -> PoolModel {
        if self.is_slot(a) && data.len() <= self.stride {
            PoolModel {
                bytes: self.bytes.subrange(0, a) + data + self.bytes.subrange(
                    a + data.len(),
                    self.bytes.len() as int,
                ),
                ..self
            }
        } else {
            self
        }
    }

    /// The byte at `offset` within slot `a`, when `a` is a slot and the
    /// offset lies within it.
    pub open spec fn byte_at(self, a: int, offset: int) -> Option<u8> {
        if self.is_slot(a) && 0 <= offset < self.stride {
            Some(self.bytes[a + offset])
        } else {
            None
        }
    }

    /// The pool after `k` acquisitions in a row.
    pub open spec fn acquire_times(self, k: nat) -> PoolModel
        decreases k,
    {
        if k == 0 {
            self
        } else {
            self.after_acquire().acquire_times((k - 1) as nat)
        }
    }

    /// The slots handed out by `k` acquisitions in a row, in order; `None`
    /// for an acquisition that found the pool exhausted.
    pub open spec fn acquisitions(self, k: nat) -> Seq<Option<usize>> {
        Seq::new(k, |i: int| self.acquire_times(i as nat).acquired())
    }

    /// The pool after releasing each of `addrs`, first to last.
    pub open spec fn release_all(self, addrs: Seq<usize>) -> PoolModel
        decreases addrs.len(),
    {
        if addrs.len() == 0 {
            self
        } else {
            self.after_release(addrs[0]).release_all(addrs.drop_first())
        }
    }
}

/// Slots of `stride` bytes numbered `0..count`, lowest first.
pub open spec fn ascending_slots(stride: nat, count: nat) -> Seq<usize> {
    Seq::new(count, |k: int| (k * stride) as usize)
}

/// Two distinct slot starts are a whole stride apart.
proof fn lemma_slots_apart(m: PoolModel, a: int, b: int)
    requires
        m.wf(),
        m.is_slot(a),
        m.is_slot(b),
        a < b,
    ensures
        a + m.stride <= b,
{
    let s = m.stride as int;
    assert(a == s * (a / s)) by {
        vstd::arithmetic::div_mod::lemma_fundamental_div_mod(a, s);
    }
    assert(b == s * (b / s)) by {
        vstd::arithmetic::div_mod::lemma_fundamental_div_mod(b, s);
    }
    let ka = a / s;
    let kb = b / s;
    assert(ka < kb) by (nonlinear_arith)
        requires
            a == s * ka,
            b == s * kb,
            a < b,
            s > 0,
    ;
    assert(s * ka + s <= s * kb) by (nonlinear_arith)
        requires
            ka < kb,
            s > 0,
    ;
}

/// The slot index of a slot start.
spec fn slot_index(m: PoolModel, a: usize) -> int {
    (a as int) / (m.stride as int)
}

/// A stack of distinct slots never holds more than there are slots.
proof fn lemma_free_bounded(m: PoolModel, s: Seq<usize>)
    requires
        m.stride >= 1,
        forall|i: int| 0 <= i < s.len() ==> m.is_slot(#[trigger] s[i] as int),
        s.no_duplicates(),
    ensures
        s.len() <= m.capacity,
{
    let idx = s.map_values(|a: usize| slot_index(m, a));
    assert forall|i: int, j: int| 0 <= i < idx.len() && 0 <= j < idx.len() && i != j implies idx[i]
        != idx[j] by {
        if idx[i] == idx[j] {
            let (x, y) = (s[i] as int, s[j] as int);
            assert(m.is_slot(x) && m.is_slot(y));
            if x < y {
                lemma_slots_apart_raw(m.stride as int, x, y);
            } else if y < x {
                lemma_slots_apart_raw(m.stride as int, y, x);
            }
        }
    }
    assert(idx.no_duplicates());
    idx.unique_seq_to_set();
    lemma_int_range(0, m.capacity as int);
    assert forall|v: int| idx.to_set().contains(v) implies set_int_range(
        0,
        m.capacity as int,
    ).contains(v) by {
        let i = choose|i: int| 0 <= i < idx.len() && idx[i] == v;
        let x = s[i] as int;
        assert(m.is_slot(x));
        let st = m.stride as int;
        lemma_index_below(st, x, m.capacity as int);
    }
    lemma_len_subset(idx.to_set(), set_int_range(0, m.capacity as int));
}

/// Of two multiples of `s`, the smaller has the smaller quotient by `s`.
proof fn lemma_slots_apart_raw(s: int, x: int, y: int)
    requires
        s > 0,
        x >= 0,
        y >= 0,
        x % s == 0,
        y % s == 0,
        x < y,
    ensures
        x / s < y / s,
{
    vstd::arithmetic::div_mod::lemma_fundamental_div_mod(x, s);
    vstd::arithmetic::div_mod::lemma_fundamental_div_mod(y, s);
    let (kx, ky) = (x / s, y / s);
    assert(kx < ky) by (nonlinear_arith)
        requires
            x == s * kx,
            y == s * ky,
            x < y,
            s > 0,
    ;
}

/// One acquisition keeps the pool well formed.
proof fn lemma_acquire_keeps_wf(m: PoolModel)
    requires
        m.wf(),
    ensures
        m.after_acquire().wf(),
        m.acquired() matches Some(a) ==> m.is_slot(a as int),
{
    if m.free.len() > 0 {
        let n = m.after_acquire();
        assert(m.is_slot(m.free[m.free.len() - 1] as int));
        assert forall|i: int, j: int| 0 <= i < n.free.len() && 0 <= j < n.free.len() && i != j implies
            n.free[i] != n.free[j] by {
            assert(n.free[i] == m.free[i] && n.free[j] == m.free[j]);
        }
        assert forall|i: int| 0 <= i < n.free.len() implies n.is_slot(#[trigger] n.free[i] as int) by {
            assert(n.free[i] == m.free[i]);
        }
    }
}

/// Releasing a slot that is not free keeps the pool well formed.
proof fn lemma_release_keeps_wf(m: PoolModel, a: usize)
    requires
        m.wf(),
        m.is_slot(a as int) ==> !m.free.contains(a),
    ensures
        m.after_release(a).wf(),
{
    if m.is_slot(a as int) {
        let n = m.after_release(a);
        assert forall|i: int| 0 <= i < n.free.len() implies n.is_slot(#[trigger] n.free[i] as int) by {
            if i < m.free.len() {
                assert(n.free[i] == m.free[i]);
            }
        }
        assert forall|i: int, j: int| 0 <= i < n.free.len() && 0 <= j < n.free.len() && i != j implies
            n.free[i] != n.free[j] by {
            if i < m.free.len() && j < m.free.len() {
                assert(n.free[i] == m.free[i] && n.free[j] == m.free[j]);
            } else if i < m.free.len() {
                assert(n.free[i] == m.free[i]);
            } else if j < m.free.len() {
                assert(n.free[j] == m.free[j]);
            }
        }
        lemma_free_bounded(n, n.free);
    }
}

/// Writing into the region keeps the pool well formed.
proof fn lemma_write_keeps_wf(m: PoolModel, a: int, data: Seq<u8>)
    requires
        m.wf(),
    ensures
        m.after_write(a, data).wf(),
        m.after_write(a, data).free == m.free,
{
    if m.is_slot(a) && data.len() <= m.stride {
        lemma_slot_room(m, a);
    }
}

/// A slot lies wholly inside the region.
proof fn lemma_slot_room(m: PoolModel, a: int)
    requires
        m.wf(),
        m.is_slot(a),
    ensures
        a + m.stride <= m.region_size(),
{
    let s = m.stride as int;
    let c = m.capacity as int;
    lemma_index_below(s, a, c);
    vstd::arithmetic::div_mod::lemma_fundamental_div_mod(a, s);
    let k = a / s;
    assert(a + s <= s * c) by (nonlinear_arith)
        requires
            a == s * k + 0,
            k < c,
            s > 0,
    ;
}

/// A number below `s * c` has a quotient by `s` below `c`.
proof fn lemma_index_below(s: int, x: int, c: int)
    requires
        s > 0,
        0 <= x < s * c,
    ensures
        0 <= x / s < c,
{
    vstd::arithmetic::div_mod::lemma_fundamental_div_mod(x, s);
    let k = x / s;
    let r = x % s;
    assert(0 <= k < c) by (nonlinear_arith)
        requires
            x == s * k + r,
            0 <= r < s,
            0 <= x < s * c,
            s > 0,
    ;
}

/// A fixed-size object pool over one contiguous region.
///
/// Slots are `stride()` bytes apart, and a slot is addressed by the offset
/// of its first byte in the region. Free slots sit on a stack that is
/// reserved in full when the pool is made, so handing slots out and taking
/// them back never reserves memory. The pool does not track which slots are
/// out, only which are free; the region is released, all at once, when the
/// pool is dropped.
pub struct Pool {
    stride: usize,
    capacity: usize,
    align: usize,
    region: Vec<u8>,
    free: Vec<usize>,
}

impl View for Pool {
    type V = PoolModel;

    closed spec fn view(&self) -> PoolModel {
        PoolModel {
            stride: self.stride as nat,
            capacity: self.capacity as nat,
            align: self.align as nat,
            free: self.free@,
            bytes: self.region@,
        }
    }
}

impl Pool {
    /// Makes a pool of `slot_count` slots that hold at least `slot_size`
    /// bytes each. Fails when either is zero, when the region would not be
    /// a valid allocation, or when its memory cannot be reserved. A new pool
    /// has every slot free, and hands out the highest slot first.
    pub fn new(slot_size: usize, slot_count: usize) -> (r: Option<Pool>)
        ensures
            !layout_fits(slot_size as nat, slot_count as nat) ==> r is None,
            r matches Some(p) ==> {
                &&& p@.wf()
                &&& p@.stride == stride_for(slot_size as nat)
                &&& p@.capacity == slot_count
                &&& p@.align == region_align(slot_size as nat, slot_count as nat)
                &&& p@.free == ascending_slots(p@.stride, p@.capacity)
            },
    {
        let layout = match region_layout(slot_size, slot_count) {
            Some(l) => l,
            None => return None,
        };
        let stride = layout.stride;
        let count = layout.count;
        proof {
            crate::layout::lemma_pow2_ceil_facts(layout.size as nat);
            lemma_stride_facts(slot_size as nat);
        }
        let mut region: Vec<u8> = Vec::new();
        if region.try_reserve(layout.size).is_err() {
            return None;
        }
        let mut free: Vec<usize> = Vec::new();
        if free.try_reserve(count).is_err() {
            return None;
        }
        let blank: Vec<u8> = vec![0u8; stride];
        let mut k: usize = 0;
        while k < count
            invariant
                k <= count,
                count == slot_count,
                stride as nat == stride_for(slot_size as nat),
                stride >= 1,
                stride * count <= MAX_REGION_BYTES,
                blank@.len() == stride,
                region@.len() == k * stride,
                free@ == ascending_slots(stride as nat, k as nat),
            decreases count - k,
        {
            proof {
                assert((k + 1) * stride <= stride * count) by (nonlinear_arith)
                    requires
                        k < count,
                ;
                assert(k * stride + stride == (k + 1) * stride) by (nonlinear_arith);
            }
            free.push(k * stride);
            region.extend_from_slice(blank.as_slice());
            k = k + 1;
            proof {
                assert(free@ =~= ascending_slots(stride as nat, k as nat));
            }
        }
        let pool = Pool { stride, capacity: count, align: layout.align, region, free };
        proof {
            assert(pool@.region_size() == stride * count);
            assert(region@.len() == stride * count) by (nonlinear_arith)
                requires
                    region@.len() == count * stride,
            ;
            assert forall|i: int| 0 <= i < pool@.free.len() implies pool@.is_slot(
                #[trigger] pool@.free[i] as int,
            ) by {
                let st = stride as int;
                assert(i * st < st * count) by (nonlinear_arith)
                    requires
                        0 <= i < count,
                        st > 0,
                ;
                assert(pool@.free[i] == i * st);
                vstd::arithmetic::div_mod::lemma_mod_multiples_basic(i, st);
            }
            assert forall|i: int, j: int|
                0 <= i < pool@.free.len() && 0 <= j < pool@.free.len() && i != j implies pool@.free[i]
                != pool@.free[j] by {
                let st = stride as int;
                assert(i * st < st * count && j * st < st * count) by (nonlinear_arith)
                    requires
                        0 <= i < count,
                        0 <= j < count,
                        st > 0,
                ;
                if i < j {
                    assert(i * st < j * st) by (nonlinear_arith)
                        requires
                            i < j,
                            st > 0,
                    ;
                } else {
                    assert(j * st < i * st) by (nonlinear_arith)
                        requires
                            j < i,
                            st > 0,
                    ;
                }
            }
        }
        Some(pool)
    }

    /// Hands out the slot on top of the free stack, or `None` when every
    /// slot is out.
    pub fn acquire(&mut self) -> (r: Option<usize>)
        requires
            old(self)@.wf(),
        ensures
            final(self)@ == old(self)@.after_acquire(),
            r == old(self)@.acquired(),
            final(self)@.wf(),
            r matches Some(a) ==> old(self)@.is_slot(a as int),
    {
        proof {
            lemma_acquire_keeps_wf(self@);
        }
        let r = self.free.pop();
        proof {
            assert(self@ =~= old(self)@.after_acquire());
        }
        r
    }

    /// Takes slot `addr` back, on top of the free stack. An address that is
    /// not the start of a slot of this pool is refused, with `false`, and
    /// changes nothing. Releasing a slot that is already free is not
    /// detected, and is left out here.
    pub fn dealloc(&mut self, addr: usize) -> (r: bool)
        requires
            old(self)@.wf(),
            old(self)@.is_slot(addr as int) ==> !old(self)@.free.contains(addr),
        ensures
            r == old(self)@.is_slot(addr as int),
            final(self)@ == old(self)@.after_release(addr),
            final(self)@.wf(),
    {
        proof {
            lemma_release_keeps_wf(self@, addr);
        }
        if !self.is_manage(addr) {
            return false;
        }
        self.free.push(addr);
        true
    }

    /// Whether `addr` is the start of one of this pool's slots.
    pub fn is_manage(&self, addr: usize) -> (r: bool)
        requires
            self@.wf(),
        ensures
            r == self@.is_slot(addr as int),
    {
        proof {
            assert(self.stride * self.capacity == self@.region_size());
        }
        addr < self.stride * self.capacity && addr % self.stride == 0
    }

    /// Writes `data` at the start of slot `addr`. Refused, with `false` and
    /// nothing written, when `addr` is not a slot of this pool or `data` is
    /// longer than a slot.
    pub fn write_bytes(&mut self, addr: usize, data: &[u8]) -> (r: bool)
        requires
            old(self)@.wf(),
        ensures
            r == (old(self)@.is_slot(addr as int) && data@.len() <= old(self)@.stride),
            final(self)@ == old(self)@.after_write(addr as int, data@),
            final(self)@.wf(),
    {
        proof {
            lemma_write_keeps_wf(self@, addr as int, data@);
        }
        if !self.is_manage(addr) || data.len() > self.stride {
            return false;
        }
        proof {
            lemma_slot_room(self@, addr as int);
        }
        let ghost before = self.region@;
        let n = data.len();
        let mut i: usize = 0;
        while i < n
            invariant
                self.stride == old(self).stride,
                self.capacity == old(self).capacity,
                self.align == old(self).align,
                self.free == old(self).free,
                before == old(self).region@,
                n == data@.len(),
                i <= n,
                addr + n <= before.len(),
                before.len() <= MAX_REGION_BYTES,
                self.region@.len() == before.len(),
                forall|j: int| 0 <= j < addr ==> self.region@[j] == before[j],
                forall|j: int| addr + i <= j < before.len() ==> self.region@[j] == before[j],
                forall|j: int| addr <= j < addr + i ==> self.region@[j] == data@[j - addr],
            decreases n - i,
        {
            self.region.set(addr + i, data[i]);
            i = i + 1;
        }
        proof {
            assert(self.region@ =~= before.subrange(0, addr as int) + data@ + before.subrange(
                addr + n,
                before.len() as int,
            ));
            assert(self@ =~= old(self)@.after_write(addr as int, data@));
        }
        true
    }

    /// The byte at `offset` within slot `addr`; `None` when `addr` is not a
    /// slot of this pool or the offset lies past the slot's end.
    pub fn read_byte(&self, addr: usize, offset: usize) -> (r: Option<u8>)
        requires
            self@.wf(),
        ensures
            r == self@.byte_at(addr as int, offset as int),
    {
        if !self.is_manage(addr) || offset >= self.stride {
            return None;
        }
        proof {
            lemma_slot_room(self@, addr as int);
        }
        Some(self.region[addr + offset])
    }

    /// Number of slots that are free.
    pub fn available(&self) -> (r: usize)
        requires
            self@.wf(),
        ensures
            r == self@.free.len(),
            r <= self@.capacity,
    {
        self.free.len()
    }

    /// Number of slots, fixed when the pool was made.
    pub fn capacity(&self) -> (r: usize)
        ensures
            r == self@.capacity,
    {
        self.capacity
    }

    /// Distance in bytes between consecutive slot starts: the room each slot
    /// has.
    pub fn stride(&self) -> (r: usize)
        ensures
            r == self@.stride,
    {
        self.stride
    }

    /// Alignment the region was reserved with.
    pub fn align(&self) -> (r: usize)
        ensures
            r == self@.align,
    {
        self.align
    }
}

/// The stride for a slot size is a power of two of at least one word.
proof fn lemma_stride_facts(size: nat)
    ensures
        is_pow2(stride_for(size)),
        stride_for(size) >= WORD_BYTES,
{
    let w: nat = if size < WORD_BYTES { WORD_BYTES as nat } else { size };
    crate::layout::lemma_pow2_ceil_facts(w);
}

/// Acquiring `i` times takes the top `i` entries off the free stack and
/// changes nothing else.
proof fn lemma_acquire_times_free(m: PoolModel, i: nat)
    requires
        m.wf(),
        i <= m.free.len(),
    ensures
        m.acquire_times(i).wf(),
        m.acquire_times(i).free == m.free.subrange(0, m.free.len() - i),
        m.acquire_times(i).stride == m.stride,
        m.acquire_times(i).capacity == m.capacity,
        m.acquire_times(i).align == m.align,
        m.acquire_times(i).bytes == m.bytes,
    decreases i,
{
    if i == 0 {
        assert(m.free.subrange(0, m.free.len() as int) =~= m.free);
    } else {
        lemma_acquire_keeps_wf(m);
        let n = m.after_acquire();
        lemma_acquire_times_free(n, (i - 1) as nat);
        assert(n.free.subrange(0, n.free.len() - (i - 1)) =~= m.free.subrange(
            0,
            m.free.len() - i,
        ));
    }
}

/// The `i`-th of a run of acquisitions hands out the `i`-th free slot
/// counted from the top of the stack.
proof fn lemma_acquisition_at(m: PoolModel, i: nat)
    requires
        m.wf(),
        i < m.free.len(),
    ensures
        m.acquire_times(i).acquired() == Some(m.free[m.free.len() - 1 - i]),
{
    lemma_acquire_times_free(m, i);
}

/// A pool with every slot free hands out `capacity` slots in a row, each a
/// slot of the pool and no two alike, and the acquisition after them finds
/// the pool exhausted.
pub proof fn lemma_full_pool_drains(m: PoolModel)
    requires
        m.wf(),
        m.is_full(),
    ensures
        forall|i: int|
            0 <= i < m.capacity ==> ((#[trigger] m.acquisitions(m.capacity)[i]) matches Some(a)
                && m.is_slot(a as int)),
        forall|i: int, j: int|
            0 <= i < j < m.capacity ==> #[trigger] m.acquisitions(m.capacity)[i]
                != #[trigger] m.acquisitions(m.capacity)[j],
        m.acquire_times(m.capacity).acquired() is None,
{
    let n = m.capacity;
    assert forall|i: int| 0 <= i < n implies ((#[trigger] m.acquisitions(n)[i]) matches Some(a)
        && m.is_slot(a as int)) by {
        lemma_acquisition_at(m, i as nat);
    }
    assert forall|i: int, j: int| 0 <= i < j < n implies #[trigger] m.acquisitions(n)[i]
        != #[trigger] m.acquisitions(n)[j] by {
        lemma_acquisition_at(m, i as nat);
        lemma_acquisition_at(m, j as nat);
    }
    lemma_acquire_times_free(m, n);
}

/// The byte just before a slot and the byte just after a slot's start are
/// never slot starts: an address inside a slot is refused even though it
/// lies in the region.
pub proof fn lemma_slot_neighbours_refused(m: PoolModel, a: int)
    requires
        m.wf(),
        m.is_slot(a),
    ensures
        !m.is_slot(a - 1),
        !m.is_slot(a + 1),
{
    if m.is_slot(a - 1) {
        lemma_slots_apart(m, a - 1, a);
    }
    if m.is_slot(a + 1) {
        lemma_slots_apart(m, a, a + 1);
    }
}

/// Bytes written into a slot are read back as written, and the other
/// slots, as well as the free stack, are left as they were.
pub proof fn lemma_written_bytes_read_back(m: PoolModel, a: int, data: Seq<u8>)
    requires
        m.wf(),
        m.is_slot(a),
        data.len() <= m.stride,
    ensures
        forall|i: int|
            0 <= i < data.len() ==> #[trigger] m.after_write(a, data).byte_at(a, i) == Some(
                data[i],
            ),
        forall|b: int, o: int|
            m.is_slot(b) && b != a ==> #[trigger] m.after_write(a, data).byte_at(b, o)
                == m.byte_at(b, o),
        m.after_write(a, data).free == m.free,
{
    lemma_slot_room(m, a);
    let w = m.after_write(a, data);
    assert forall|i: int| 0 <= i < data.len() implies #[trigger] w.byte_at(a, i) == Some(
        data[i],
    ) by {
        assert(w.bytes[a + i] == data[i]);
    }
    assert forall|b: int, o: int| m.is_slot(b) && b != a implies #[trigger] w.byte_at(b, o)
        == m.byte_at(b, o) by {
        if 0 <= o < m.stride {
            lemma_slot_room(m, b);
            if b < a {
                lemma_slots_apart(m, b, a);
            } else {
                lemma_slots_apart(m, a, b);
            }
            assert(w.bytes[b + o] == m.bytes[b + o]);
        }
    }
}

/// Releasing distinct slots that are not free pushes them in order and
/// keeps the pool well formed.
proof fn lemma_release_all_pushes(m: PoolModel, addrs: Seq<usize>)
    requires
        m.wf(),
        addrs.no_duplicates(),
        forall|i: int| 0 <= i < addrs.len() ==> m.is_slot(#[trigger] addrs[i] as int),
        forall|i: int| 0 <= i < addrs.len() ==> !m.free.contains(#[trigger] addrs[i]),
    ensures
        m.release_all(addrs).wf(),
        m.release_all(addrs).free == m.free + addrs,
        m.release_all(addrs).stride == m.stride,
        m.release_all(addrs).capacity == m.capacity,
        m.release_all(addrs).align == m.align,
        m.release_all(addrs).bytes == m.bytes,
    decreases addrs.len(),
{
    if addrs.len() == 0 {
        assert(m.free + addrs =~= m.free);
    } else {
        assert(m.is_slot(addrs[0] as int));
        assert(!m.free.contains(addrs[0]));
        lemma_release_keeps_wf(m, addrs[0]);
        let n = m.after_release(addrs[0]);
        let rest = addrs.drop_first();
        assert forall|i: int| 0 <= i < rest.len() implies !n.free.contains(#[trigger] rest[i]) by {
            assert(rest[i] == addrs[i + 1]);
            assert(!m.free.contains(addrs[i + 1]));
            assert(addrs[i + 1] != addrs[0]);
            if n.free.contains(rest[i]) {
                let k = choose|k: int| 0 <= k < n.free.len() && n.free[k] == rest[i];
                if k < m.free.len() {
                    assert(m.free[k] == rest[i]);
                }
            }
        }
        assert forall|i: int| 0 <= i < rest.len() implies n.is_slot(#[trigger] rest[i] as int) by {
            assert(rest[i] == addrs[i + 1]);
        }
        assert forall|i: int, j: int| 0 <= i < rest.len() && 0 <= j < rest.len() && i != j implies
            rest[i] != rest[j] by {
            assert(rest[i] == addrs[i + 1] && rest[j] == addrs[j + 1]);
        }
        lemma_release_all_pushes(n, rest);
        assert(n.free + rest =~= m.free + addrs);
    }
}

/// The slots that `k` acquisitions in a row hand out, when none finds the
/// pool exhausted.
pub open spec fn acquired_slots(m: PoolModel, k: nat) -> Seq<usize> {
    Seq::new(k, |i: int| m.acquire_times(i as nat).acquired().unwrap())
}

/// A pool with every slot free that hands all of them out and takes each of
/// them back, in the order they were handed out, has every slot free again,
/// with its geometry and its contents as they were: a pool can be drained
/// and refilled any number of times.
pub proof fn lemma_drain_and_refill_restores(m: PoolModel)
    requires
        m.wf(),
        m.is_full(),
    ensures
        ({
            let back = m.acquire_times(m.capacity).release_all(acquired_slots(m, m.capacity));
            &&& back.wf()
            &&& back.is_full()
            &&& back.stride == m.stride
            &&& back.capacity == m.capacity
            &&& back.align == m.align
            &&& back.bytes == m.bytes
            &&& back.free.to_set() == m.free.to_set()
        }),
{
    let c = m.capacity;
    let addrs = acquired_slots(m, c);
    lemma_acquire_times_free(m, c);
    let drained = m.acquire_times(c);
    assert(drained.free =~= Seq::<usize>::empty());
    assert forall|i: int| 0 <= i < c implies #[trigger] addrs[i] == m.free[c - 1 - i] by {
        lemma_acquisition_at(m, i as nat);
    }
    assert forall|i: int| 0 <= i < addrs.len() implies drained.is_slot(#[trigger] addrs[i] as int) by {
        assert(addrs[i] == m.free[c - 1 - i]);
    }
    assert forall|i: int, j: int| 0 <= i < addrs.len() && 0 <= j < addrs.len() && i != j implies
        addrs[i] != addrs[j] by {
        assert(addrs[i] == m.free[c - 1 - i] && addrs[j] == m.free[c - 1 - j]);
    }
    lemma_release_all_pushes(drained, addrs);
    let back = drained.release_all(addrs);
    assert(back.free =~= addrs);
    assert forall|x: usize| back.free.to_set().contains(x) <==> m.free.to_set().contains(x) by {
        if back.free.to_set().contains(x) {
            let i = choose|i: int| 0 <= i < back.free.len() && back.free[i] == x;
            assert(m.free[c - 1 - i] == x);
        }
        if m.free.to_set().contains(x) {
            let k = choose|k: int| 0 <= k < m.free.len() && m.free[k] == x;
            assert(addrs[c - 1 - k] == x);
        }
    }
    assert(back.free.to_set() =~= m.free.to_set());
}

} // verus!
