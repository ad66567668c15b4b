//! How slots lie in a page behind a block's header.
use vstd::prelude::*;

verus! {

pub const BLOCK_LAYOUT_CACHE_BUCKETS: usize = 64;

/// Size and alignment of a value.
#[derive(Clone, Copy, Debug, PartialEq, Eq, Structural)]
pub struct Shape {
    pub size: usize,
    pub align: usize,
}

impl Shape {
    /// The size is a multiple of the alignment.
    pub open spec fn wf(&self) -> bool {
        self.align > 0 && self.size as int % self.align as int == 0
    }

    /// How far apart two slots are. Values without a size get slots of their
    /// own too.
    pub open spec fn stride(&self) -> int {
        if self.size > self.align {
            self.size as int
        } else {
            self.align as int
        }
    }

    pub fn slot_stride(&self) -> (stride: usize)
        ensures
            stride == self.stride(),
    {
        if self.size > self.align {
            self.size
        } else {
            self.align
        }
    }
}

/// The first multiple of `align` that is not below `size`.
pub open spec fn rounded_up(size: int, align: int) -> int {
    (size + align - 1) / align * align
}

/// Where the slots begin behind a header.
pub fn slots_offset(header: Shape, slot: Shape) -> (offset: usize)
    requires
        header.wf(),
        slot.wf(),
        header.size + slot.align <= usize::MAX,
    ensures
        offset == rounded_up(header.size as int, slot.align as int),
        header.size <= offset < header.size + slot.align,
        offset as int % slot.align as int == 0,
{
    let above: usize = header.size + (slot.align - 1);
    let whole: usize = above / slot.align;
    proof {
        let a = slot.align as int;
        vstd::arithmetic::div_mod::lemma_fundamental_div_mod(above as int, a);
        vstd::arithmetic::div_mod::lemma_mod_bound(above as int, a);
        assert(a * whole as int == whole as int * a) by (nonlinear_arith);
        vstd::arithmetic::div_mod::lemma_mod_multiples_basic(whole as int, a);
    }
    whole * slot.align
}

/// The geometry of a block: its page and the slots that fit.
#[derive(Clone, Copy, Debug, PartialEq, Eq, Structural)]
pub struct BlockLayout {
    /// Size and alignment of the allocation.
    pub page: usize,
    pub slots_len: usize,
}

/// A header and at least one slot fit into the page, which can be aligned for
/// both.
pub open spec fn fits(page: int, header: Shape, slot: Shape) -> bool {
    &&& header.align <= page
    &&& slot.align <= page
    &&& rounded_up(header.size as int, slot.align as int) + slot.stride() <= page
}

/// The slots in what a page has left.
pub open spec fn slots_in(page: int, offset: int, stride: int) -> int {
    (page - offset) / stride
}

/// Whether a page can be used for a header and slots.
pub fn page_fits(page: usize, header: Shape, slot: Shape) -> (fit: bool)
    requires
        header.wf(),
        slot.wf(),
        header.size + slot.align <= usize::MAX,
    ensures
        fit == fits(page as int, header, slot),
{
    let offset: usize = slots_offset(header, slot);
    let stride: usize = slot.slot_stride();
    header.align <= page && slot.align <= page && offset <= page && stride <= page - offset
}

impl BlockLayout {
    /// As many slots as fit behind the header.
    pub fn new(page: usize, header: Shape, slot: Shape) -> (layout: BlockLayout)
        requires
            header.wf(),
            slot.wf(),
            header.size + slot.align <= usize::MAX,
            fits(page as int, header, slot),
        ensures
            layout.page == page,
            layout.slots_len == slots_in(
                page as int,
                rounded_up(header.size as int, slot.align as int),
                slot.stride(),
            ),
            layout.slots_len > 0,
    {
        let offset: usize = slots_offset(header, slot);
        let stride: usize = slot.slot_stride();
        Self::behind(page, offset, stride)
    }

    /// As many slots as fit behind an offset.
    fn behind(page: usize, offset: usize, stride: usize) -> (layout: BlockLayout)
        requires
            stride > 0,
            offset + stride <= page,
        ensures
            layout.page == page,
            layout.slots_len == slots_in(page as int, offset as int, stride as int),
            layout.slots_len > 0,
    {
        let slots_len: usize = (page - offset) / stride;
        proof {
            law_slots_are_maximal(page as int, offset as int, stride as int);
            assert(1 * stride as int == stride as int) by (nonlinear_arith);
            if slots_len == 0 {
                assert((0 + 1) * stride as int == stride as int) by (nonlinear_arith);
            }
        }
        BlockLayout { page, slots_len }
    }

    /// Where a slot begins.
    pub fn slot_at(&self, offset: usize, stride: usize, index: usize) -> (at: usize)
        requires
            stride > 0,
            offset + stride <= self.page,
            self.slots_len == slots_in(self.page as int, offset as int, stride as int),
            index < self.slots_len,
        ensures
            at == offset + index * stride,
            at + stride <= self.page,
    {
        proof {
            law_slots_are_maximal(self.page as int, offset as int, stride as int);
            assert(index * stride + stride <= self.slots_len * stride) by (nonlinear_arith)
                requires
                    index < self.slots_len,
                    stride > 0,
            ;
        }
        offset + index * stride
    }
}

/// The slots end inside the page, and one more would not fit.
pub proof fn law_slots_are_maximal(page: int, offset: int, stride: int)
    requires
        stride > 0,
        0 <= offset <= page,
    ensures
        ({
            let len = slots_in(page, offset, stride);
            &&& offset + len * stride <= page
            &&& offset + (len + 1) * stride > page
            &&& len >= 0
        }),
{
    let len = (page - offset) / stride;
    vstd::arithmetic::div_mod::lemma_fundamental_div_mod(page - offset, stride);
    vstd::arithmetic::div_mod::lemma_mod_bound(page - offset, stride);
    vstd::arithmetic::div_mod::lemma_div_pos_is_pos(page - offset, stride);
    assert(stride * len == len * stride && (len + 1) * stride == len * stride + stride)
        by (nonlinear_arith);
}

/// Every slot is aligned if the first one is, and no two of them overlap.
pub proof fn law_slots_are_aligned_and_apart(offset: int, slot: Shape, a: int, b: int)
    requires
        slot.wf(),
        offset % slot.align as int == 0,
        0 <= a < b,
    ensures
        (offset + a * slot.stride()) % slot.align as int == 0,
        offset + a * slot.stride() + slot.size <= offset + b * slot.stride(),
{
    let n = slot.align as int;
    let s = slot.stride();
    assert(s % n == 0) by {
        vstd::arithmetic::div_mod::lemma_mod_self_0(n);
    }
    vstd::arithmetic::div_mod::lemma_fundamental_div_mod(offset, n);
    vstd::arithmetic::div_mod::lemma_fundamental_div_mod(s, n);
    let q = offset / n + a * (s / n);
    assert(offset + a * s == q * n) by (nonlinear_arith)
        requires
            offset == n * (offset / n),
            s == n * (s / n),
            q == offset / n + a * (s / n),
    ;
    vstd::arithmetic::div_mod::lemma_mod_multiples_basic(q, n);
    assert(a * s + s <= b * s) by (nonlinear_arith)
        requires
            a + 1 <= b,
            s > 0,
    ;
}

/// The bucket for a geometry.
pub open spec fn bucket_of(stride: usize, offset: usize) -> usize {
    let hash = stride.wrapping_mul(31) ^ offset;
    (hash ^ (hash >> 6usize)) & 63
}

/// A geometry and what it came to.
#[derive(Clone, Copy, Debug, PartialEq, Eq, Structural)]
pub struct CachedBlockLayout {
    pub slots_offset: usize,
    pub slot_stride: usize,
    pub layout: BlockLayout,
}

/// The geometries that have been asked for, in buckets. Nothing is ever taken
/// out.
pub struct LayoutCache {
    page: usize,
    buckets: Vec<Vec<CachedBlockLayout>>,
}

impl LayoutCache {
    pub closed spec fn page(&self) -> int {
        self.page as int
    }

    /// The entries of each bucket, oldest first.
    pub closed spec fn buckets(&self) -> Seq<Seq<CachedBlockLayout>> {
        self.buckets@.map_values(|bucket: Vec<CachedBlockLayout>| bucket@)
    }

    /// Every entry is right and in its bucket, and no geometry is kept twice.
    pub open spec fn wf(&self) -> bool {
        &&& self.buckets().len() == BLOCK_LAYOUT_CACHE_BUCKETS
        &&& forall|b: int, i: int|
            0 <= b < self.buckets().len() && 0 <= i < self.buckets()[b].len() ==> {
                let entry = #[trigger] self.buckets()[b][i];
                &&& bucket_of(entry.slot_stride, entry.slots_offset) == b
                &&& entry.layout.page == self.page()
                &&& entry.layout.slots_len == slots_in(
                    self.page(),
                    entry.slots_offset as int,
                    entry.slot_stride as int,
                )
            }
        &&& forall|b: int, i: int, j: int|
            0 <= b < self.buckets().len() && 0 <= i < j < self.buckets()[b].len() ==> {
                let one = #[trigger] self.buckets()[b][i];
                let other = #[trigger] self.buckets()[b][j];
                one.slots_offset != other.slots_offset || one.slot_stride != other.slot_stride
            }
    }

    pub fn new(page: usize) -> (cache: LayoutCache)
        ensures
            cache.wf(),
            cache.page() == page,
            forall|b: int|
                0 <= b < cache.buckets().len() ==> (#[trigger] cache.buckets()[b]).len() == 0,
    {
        let mut buckets: Vec<Vec<CachedBlockLayout>> = Vec::new();
        let mut i: usize = 0;
        while i < BLOCK_LAYOUT_CACHE_BUCKETS
            invariant
                i <= BLOCK_LAYOUT_CACHE_BUCKETS,
                buckets@.len() == i,
                forall|b: int| 0 <= b < i ==> (#[trigger] buckets@[b])@.len() == 0,
            decreases BLOCK_LAYOUT_CACHE_BUCKETS - i,
        {
            buckets.push(Vec::new());
            i = i + 1;
        }
        let cache = LayoutCache { page, buckets };
        assert forall|b: int| 0 <= b < cache.buckets().len() implies (
        #[trigger] cache.buckets()[b]).len() == 0 by {
            assert(cache.buckets()[b] == buckets@[b]@);
        }
        cache
    }

    fn bucket(stride: usize, offset: usize) -> (bucket: usize)
        ensures
            bucket == bucket_of(stride, offset),
            bucket < BLOCK_LAYOUT_CACHE_BUCKETS,
    {
        let hash: usize = stride.wrapping_mul(31) ^ offset;
        let bucket: usize = (hash ^ (hash >> 6usize)) & 63;
        assert(bucket < 64) by (bit_vector)
            requires
                bucket == (hash ^ (hash >> 6usize)) & 63,
        ;
        bucket
    }

    /// Looks a geometry up among the entries of its bucket from one on; tells
    /// how many entries there are.
    pub fn find(&self, slots_offset: usize, slot_stride: usize, from: usize) -> (found: (
        Option<BlockLayout>,
        usize,
    ))
        requires
            self.wf(),
        ensures
            ({
                let entries = self.buckets()[bucket_of(slot_stride, slots_offset) as int];
                &&& found.1 == entries.len()
                &&& match found.0 {
                    Some(layout) => {
                        &&& layout.page == self.page()
                        &&& layout.slots_len == slots_in(
                            self.page(),
                            slots_offset as int,
                            slot_stride as int,
                        )
                        &&& exists|i: int|
                            from <= i < entries.len() && (#[trigger] entries[i]).slots_offset
                                == slots_offset && entries[i].slot_stride == slot_stride
                    },
                    None => forall|i: int|
                        from <= i < entries.len() ==> (#[trigger] entries[i]).slots_offset
                            != slots_offset || entries[i].slot_stride != slot_stride,
                }
            }),
    {
        let b: usize = Self::bucket(slot_stride, slots_offset);
        let ghost entries = self.buckets()[b as int];
        assert(entries == self.buckets@[b as int]@);
        let len: usize = self.buckets[b].len();
        let mut i: usize = from;
        while i < len
            invariant
                self.wf(),
                b < self.buckets@.len(),
                b == bucket_of(slot_stride, slots_offset),
                entries == self.buckets()[b as int],
                entries == self.buckets@[b as int]@,
                len == entries.len(),
                from <= i,
                forall|j: int|
                    from <= j < i && j < len ==> (#[trigger] entries[j]).slots_offset
                        != slots_offset || entries[j].slot_stride != slot_stride,
            decreases len - i,
        {
            let entry = self.buckets[b][i];
            assert(entry == self.buckets()[b as int][i as int]);
            if entry.slot_stride == slot_stride && entry.slots_offset == slots_offset {
                assert(entries[i as int].slots_offset == slots_offset);
                return (Some(entry.layout), len);
            }
            i = i + 1;
        }
        (None, len)
    }

    /// Enters a geometry that was looked up when its bucket had `seen`
    /// entries, unless it has been entered since.
    pub fn publish(&mut self, slots_offset: usize, slot_stride: usize, seen: usize) -> (layout:
        BlockLayout)
        requires
            old(self).wf(),
            slot_stride > 0,
            slots_offset + slot_stride <= old(self).page(),
            ({
                let entries = old(self).buckets()[bucket_of(slot_stride, slots_offset) as int];
                &&& seen <= entries.len()
                &&& forall|i: int|
                    0 <= i < seen ==> (#[trigger] entries[i]).slots_offset != slots_offset
                        || entries[i].slot_stride != slot_stride
            }),
        ensures
            final(self).wf(),
            final(self).page() == old(self).page(),
            layout.page == old(self).page(),
            layout.slots_len == slots_in(
                old(self).page(),
                slots_offset as int,
                slot_stride as int,
            ),
            ({
                let b = bucket_of(slot_stride, slots_offset) as int;
                let before = old(self).buckets();
                let known = exists|i: int|
                    0 <= i < before[b].len() && (#[trigger] before[b][i]).slots_offset
                        == slots_offset && before[b][i].slot_stride == slot_stride;
                final(self).buckets() == if known {
                    before
                } else {
                    before.update(
                        b,
                        before[b].push(CachedBlockLayout { slots_offset, slot_stride, layout }),
                    )
                }
            }),
    {
        let b: usize = Self::bucket(slot_stride, slots_offset);
        let ghost before = self.buckets();
        let (again, _) = self.find(slots_offset, slot_stride, seen);
        if let Some(layout) = again {
            return layout;
        }
        let layout = BlockLayout::behind(self.page, slots_offset, slot_stride);
        let entry = CachedBlockLayout { slots_offset, slot_stride, layout };
        assert(before[b as int] == self.buckets@[b as int]@);
        self.buckets[b].push(entry);
        proof {
            let after = self.buckets();
            assert(after =~= before.update(b as int, before[b as int].push(entry)));
            assert forall|c: int, i: int|
                0 <= c < after.len() && 0 <= i < after[c].len() implies {
                let e = #[trigger] after[c][i];
                &&& bucket_of(e.slot_stride, e.slots_offset) == c
                &&& e.layout.page == self.page()
                &&& e.layout.slots_len == slots_in(
                    self.page(),
                    e.slots_offset as int,
                    e.slot_stride as int,
                )
            } by {
                if c != b || i < before[c].len() {
                    assert(after[c][i] == before[c][i]);
                }
            }
            assert forall|c: int, i: int, j: int|
                0 <= c < after.len() && 0 <= i < j < after[c].len() implies {
                let one = #[trigger] after[c][i];
                let other = #[trigger] after[c][j];
                one.slots_offset != other.slots_offset || one.slot_stride != other.slot_stride
            } by {
                assert(after[c][i] == before[c][i]);
                if c != b || j < before[c].len() {
                    assert(after[c][j] == before[c][j]);
                }
            }
        }
        layout
    }

    /// The layout for a geometry, which is kept for the next time.
    pub fn layout(&mut self, slots_offset: usize, slot_stride: usize) -> (layout: BlockLayout)
        requires
            old(self).wf(),
            slot_stride > 0,
            slots_offset + slot_stride <= old(self).page(),
        ensures
            final(self).wf(),
            final(self).page() == old(self).page(),
            layout.page == old(self).page(),
            layout.slots_len == slots_in(
                old(self).page(),
                slots_offset as int,
                slot_stride as int,
            ),
            ({
                let b = bucket_of(slot_stride, slots_offset) as int;
                let before = old(self).buckets();
                let known = exists|i: int|
                    0 <= i < before[b].len() && (#[trigger] before[b][i]).slots_offset
                        == slots_offset && before[b][i].slot_stride == slot_stride;
                final(self).buckets() == if known {
                    before
                } else {
                    before.update(
                        b,
                        before[b].push(CachedBlockLayout { slots_offset, slot_stride, layout }),
                    )
                }
            }),
    {
        let (found, seen) = self.find(slots_offset, slot_stride, 0);
        if let Some(layout) = found {
            return layout;
        }
        self.publish(slots_offset, slot_stride, seen)
    }
}

/// Rounding up gives a multiple that is not below the size, and there is none
/// between them.
pub proof fn law_rounded_up_is_the_next_multiple(size: int, align: int, k: int)
    requires
        0 <= size,
        0 < align,
    ensures
        rounded_up(size, align) % align == 0,
        size <= rounded_up(size, align) < size + align,
        size <= k && k % align == 0 ==> rounded_up(size, align) <= k,
{
    let above = size + align - 1;
    let whole = above / align;
    vstd::arithmetic::div_mod::lemma_fundamental_div_mod(above, align);
    vstd::arithmetic::div_mod::lemma_mod_bound(above, align);
    assert(align * whole == whole * align) by (nonlinear_arith);
    vstd::arithmetic::div_mod::lemma_mod_multiples_basic(whole, align);
    if size <= k && k % align == 0 {
        vstd::arithmetic::div_mod::lemma_fundamental_div_mod(k, align);
        let q = k / align;
        assert(whole <= q) by (nonlinear_arith)
            requires
                align > 0,
                align * whole <= above,
                above < size + align,
                size <= align * q,
        ;
        assert(whole * align <= q * align && q * align == align * q) by (nonlinear_arith)
            requires
                whole <= q,
                align > 0,
        ;
    }
}

/// A geometry always falls into one of the sixty-four buckets.
pub proof fn law_there_is_a_bucket(stride: usize, offset: usize)
    ensures
        bucket_of(stride, offset) < 64,
{
    let hash = stride.wrapping_mul(31) ^ offset;
    assert((hash ^ (hash >> 6usize)) & 63 < 64) by (bit_vector);
}

} // verus!
