//! Buddy allocator for physical memory frames.
//!
//! The allocator hands out blocks of `2^order` contiguous pages from fixed
//! zones of physical memory. Each zone keeps one free list per order; the
//! lists are intrusive: every page slot has a small `Frame` metadata record,
//! and the records of free block heads are chained through integer frame
//! identifiers rather than pointers. A frame whose `prev` field holds the
//! reserved sentinel [`FRAME_STATE_USED`] is not linked into any free list;
//! a linked frame whose `prev` (resp. `next`) is its own identifier is the
//! first (resp. last) element of its list.

use vstd::prelude::*;
use vstd::arithmetic::power2::pow2;
use crate::memory::{PAGE_SIZE, align_up, align_up_spec, lemma_align_up_le_multiple};
use crate::model::{p2, buddy_of, block_wf, blocks_disjoint, lists_geometry, lists_no_dup,
    lists_disjoint, lists_coalesced, first_free_order, take_head, split_links, coalesce_lists,
    free_total, lemma_p2_pos, lemma_p2_unfold, lemma_p2_divides, lemma_buddy_props,
    lemma_ffo_props, lemma_split_links_empty, lemma_free_total_take_head,
    lemma_free_total_split_links, lemma_free_total_coalesce, lemma_remove_preserves,
    greedy_fill};

verus! {

/// Type representing the order of a memory frame: a block of order `n`
/// spans `2^n` pages.
pub type FrameOrder = u8;

/// Type representing buddy allocator flags.
pub type Flags = i32;

/// Type representing the identifier of a frame within its zone.
pub type FrameID = u32;

/// The maximum order of a buddy allocated frame.
pub const MAX_ORDER: FrameOrder = 17;

/// The number of free lists per zone: one per order in `0..=MAX_ORDER`.
pub const FREE_LIST_LEN: usize = 18;

/// The mask for the type of the zone in buddy allocator flags.
pub const ZONE_TYPE_MASK: Flags = 0b11;

/// Buddy allocator flag: allocate from the user zone.
pub const FLAG_ZONE_TYPE_USER: Flags = 0b000;

/// Buddy allocator flag: allocate from the kernel zone.
pub const FLAG_ZONE_TYPE_KERNEL: Flags = 0b001;

/// Buddy allocator flag: allocate from the DMA zone.
pub const FLAG_ZONE_TYPE_DMA: Flags = 0b010;

/// Sentinel value stored in a frame's `prev` field while the frame is not
/// linked into any free list.
pub const FRAME_STATE_USED: FrameID = 0xffff_ffff;

/// Address of the end of the kernel zone of memory with the maximum
/// possible size.
pub const KERNEL_ZONE_LIMIT: usize = 0x40000000;

/// The size in bytes of one `Frame` metadata record inside the managed
/// region: two frame identifiers and one order byte, packed.
pub const FRAME_META_SIZE: usize = 9;

/// Metadata record for one page slot of a zone.
///
/// `prev` and `next` chain free block heads into the free list of their
/// order; `id` is the index of the record in its zone's frame array.
#[derive(Clone, Copy)]
pub struct Frame {
    /// Identifier of the previous frame in the free list, the frame's own
    /// identifier if the frame is first, or [`FRAME_STATE_USED`].
    pub prev: FrameID,
    /// Identifier of the next frame in the free list, or the frame's own
    /// identifier if the frame is last.
    pub next: FrameID,
    /// Order of the block headed by this frame.
    pub order: FrameOrder,
    /// The frame's own identifier: its index within the zone.
    pub id: FrameID,
}

impl Frame {
    /// Whether this frame record carries the "not in any free list" mark.
    pub open spec fn is_used_spec(self) -> bool {
        self.prev == FRAME_STATE_USED || self.next == FRAME_STATE_USED
    }

    /// Returns the id of the current frame in its zone.
    pub fn get_id(&self) -> (r: FrameID)
        ensures
            r == self.id,
    {
        self.id
    }

    /// Tells whether the frame is marked as used, that is not linked into
    /// any free list.
    pub fn is_used(&self) -> (r: bool)
        ensures
            r == self.is_used_spec(),
    {
        self.prev == FRAME_STATE_USED || self.next == FRAME_STATE_USED
    }

    /// Marks the frame as used. The frame must not be linked to any free
    /// list.
    pub fn mark_used(&mut self)
        ensures
            *final(self) == (Frame { prev: FRAME_STATE_USED, ..*old(self) }),
    {
        self.prev = FRAME_STATE_USED;
    }

    /// Marks the frame as free. The frame must not be linked to any free
    /// list.
    pub fn mark_free(&mut self)
        ensures
            *final(self) == (Frame { prev: 0, ..*old(self) }),
    {
        self.prev = 0;
    }

    /// Returns the address of the physical page this frame describes
    /// within its zone.
    pub fn get_ptr(&self, zone: &Zone) -> (r: usize)
        requires
            zone.tables_wf(),
            (self.id as int) < zone.count(),
        ensures
            r as int == zone.data_begin_spec() + self.id as int * PAGE_SIZE as int,
    {
        let db = zone.get_data_begin();
        proof {
            lemma_data_region_fits(zone.begin_spec(), zone.size_spec());
            vstd::arithmetic::mul::lemma_mul_inequality(
                self.id as int,
                zone.count() - 1,
                PAGE_SIZE as int,
            );
            assert((zone.count() - 1) * PAGE_SIZE as int == zone.count() * PAGE_SIZE as int
                - PAGE_SIZE as int) by (nonlinear_arith);
        }
        db + (self.id as usize) * PAGE_SIZE
    }

    /// Returns the identifier of this frame's buddy at the frame's current
    /// order. The result may lie outside the zone; the caller must check
    /// it against the zone's page count.
    pub fn get_buddy_id(&self, zone: &Zone) -> (r: FrameID)
        requires
            zone.tables_wf(),
            self.order <= MAX_ORDER,
            (self.id as int) < zone.count(),
            self.id as int % p2(self.order as int) == 0,
        ensures
            r as int == buddy_of(self.id as int, self.order as int),
    {
        let ob: u32 = self.order as u32;
        let id: u32 = self.id;
        let m: u32 = 1u32 << ob;
        let r = id ^ m;
        proof {
            let oi = self.order as int;
            assert(pow2(ob as nat) <= 0x20000) by {
                vstd::arithmetic::power2::lemma_pow2_adds(
                    ob as nat,
                    (17 - ob as int) as nat,
                );
                lemma_p2_pos(17 - ob as int);
                vstd::arithmetic::power2::lemma2_to64();
                vstd::arithmetic::mul::lemma_mul_increases(
                    pow2((17 - ob as int) as nat) as int,
                    pow2(ob as nat) as int,
                );
            }
            vstd::bits::lemma_u32_shl_is_mul(1u32, ob);
            lemma_p2_unfold(oi);
            assert({
                &&& id % (m << 1u32) == 0u32 ==> id & m == 0u32
                &&& id & m == 0u32 ==> (id ^ m) == ((id + m) as u32) && id <= 0xffff_ffffu32 - m
                &&& id % (m << 1u32) != 0u32 ==> id & m != 0u32
                &&& id & m != 0u32 ==> (id ^ m) == ((id - m) as u32) && id >= m
            }) by (bit_vector)
                requires
                    m == 1u32 << ob,
                    ob <= 17u32,
                    id % m == 0u32,
            ;
            assert(pow2(1nat) == 2) by {
                vstd::arithmetic::power2::lemma2_to64();
            }
            vstd::bits::lemma_u32_shl_is_mul(m, 1u32);
            assert((m << 1u32) as int == p2(oi + 1));
        }
        r
    }
}

/// The record of the `p`-th member of free list `l` of order `o` matches
/// its place in the list: its order is `o`, its `id` is its own index, and
/// `prev`/`next` hold its neighbours, or its own identifier at an end of
/// the list.
pub open spec fn entry_ok(frames: Seq<Frame>, l: Seq<int>, o: int, p: int) -> bool {
    let id = l[p];
    &&& 0 <= id < frames.len()
    &&& frames[id].order as int == o
    &&& frames[id].id as int == id
    &&& frames[id].prev as int == if p == 0 {
        id
    } else {
        l[p - 1]
    }
    &&& frames[id].next as int == if p == l.len() - 1 {
        id
    } else {
        l[p + 1]
    }
}

/// The stored head of a free list matches its model sequence.
pub open spec fn head_ok(head: Option<FrameID>, l: Seq<int>) -> bool {
    match head {
        Option::None => l.len() == 0,
        Option::Some(h) => l.len() > 0 && l[0] == h as int,
    }
}

/// Every member record of every free list matches its place in its list.
pub open spec fn lists_entries_ok(frames: Seq<Frame>, lists: Seq<Seq<int>>) -> bool {
    forall|o: int, p: int|
        0 <= o < lists.len() && 0 <= p < lists[o].len() ==> #[trigger] entry_ok(
            frames,
            lists[o],
            o,
            p,
        )
}

/// Every frame record that does not carry the used sentinel is linked into
/// the free list of its recorded order.
pub open spec fn frames_truth(frames: Seq<Frame>, lists: Seq<Seq<int>>) -> bool {
    forall|id: int|
        0 <= id < frames.len() && (#[trigger] frames[id]).prev != FRAME_STATE_USED ==> 0 <= (
        frames[id].order as int) < FREE_LIST_LEN && lists[frames[id].order as int].contains(id)
}

/// Every frame record knows its own index, and `next` never holds the used
/// sentinel (only `prev` carries the mark).
pub open spec fn frames_ids_ok(frames: Seq<Frame>) -> bool {
    forall|id: int|
        0 <= id < frames.len() ==> (#[trigger] frames[id]).id as int == id && frames[id].next
            != FRAME_STATE_USED
}

/// An allocatable zone of physical memory.
///
/// The zone covers `size` bytes starting at address `begin`. The first
/// bytes of the region hold one metadata record per page slot (modelled by
/// the `frames` array); the pages themselves follow, starting at the
/// page-aligned `data begin` address.
pub struct Zone {
    /// The type of the zone, defining the priority.
    type_: Flags,
    /// The number of allocated pages in the zone.
    allocated_pages: usize,
    /// The address of the beginning of the zone.
    begin: usize,
    /// The size of the zone in bytes.
    size: usize,
    /// One metadata record per page slot.
    frames: Vec<Frame>,
    /// The head of the free list of each order.
    free_list: Vec<Option<FrameID>>,
    /// Model of the free lists: the members of each list, head first.
    free_seqs: Ghost<Seq<Seq<int>>>,
}

impl Zone {
    /// The number of allocatable pages: each page slot costs one page plus
    /// one metadata record.
    pub closed spec fn count(self) -> int {
        self.size as int / (PAGE_SIZE as int + FRAME_META_SIZE as int)
    }

    /// The model of the free lists: one sequence of block-start frame
    /// identifiers per order, head first.
    pub closed spec fn lists(self) -> Seq<Seq<int>> {
        self.free_seqs@
    }

    /// The number of pages currently allocated from this zone.
    pub closed spec fn allocated(self) -> int {
        self.allocated_pages as int
    }

    /// The address of the beginning of the zone.
    pub closed spec fn begin_spec(self) -> int {
        self.begin as int
    }

    /// The size of the zone in bytes.
    pub closed spec fn size_spec(self) -> int {
        self.size as int
    }

    /// The type of the zone.
    pub closed spec fn ztype(self) -> int {
        self.type_ as int
    }

    /// The metadata record of frame `id`.
    pub closed spec fn frame_at(self, id: int) -> Frame {
        self.frames@[id]
    }

    /// The address of the first page of the zone: the metadata records are
    /// skipped and the result is aligned to the next page boundary.
    pub closed spec fn data_begin_spec(self) -> int {
        align_up_spec(
            self.begin as int + self.count() * FRAME_META_SIZE as int,
            PAGE_SIZE as int,
        )
    }

    /// Structural well-formedness of the zone's tables: the free lists
    /// mirror their model, every free block is aligned, in range, disjoint
    /// from every other and maximally coalesced, and frame records are
    /// truthful about being linked.
    pub closed spec fn tables_wf(self) -> bool {
        &&& self.free_list@.len() == FREE_LIST_LEN
        &&& self.lists().len() == FREE_LIST_LEN
        &&& self.frames@.len() == self.count()
        &&& self.count() < FRAME_STATE_USED as int
        &&& self.begin as int % PAGE_SIZE as int == 0
        &&& self.size as int % PAGE_SIZE as int == 0
        &&& self.begin + self.size <= usize::MAX
        &&& forall|o: int|
            0 <= o < FREE_LIST_LEN ==> head_ok(#[trigger] self.free_list@[o], self.lists()[o])
        &&& lists_entries_ok(self.frames@, self.lists())
        &&& lists_geometry(self.count(), self.lists())
        &&& lists_no_dup(self.lists())
        &&& lists_disjoint(self.lists())
        &&& lists_coalesced(self.lists())
        &&& frames_truth(self.frames@, self.lists())
        &&& frames_ids_ok(self.frames@)
    }

    /// Full well-formedness: the tables are well formed and the allocated
    /// page counter and the free lists together account for every page of
    /// the zone.
    pub closed spec fn wf(self) -> bool {
        &&& self.tables_wf()
        &&& self.allocated() + free_total(self.lists()) == self.count()
    }

    /// The block of order `order` starting at frame `id` is currently
    /// allocated from this zone: it is aligned and in range, its head frame
    /// carries the used sentinel with the allocation order, and its pages
    /// do not overlap any free block.
    pub open spec fn is_allocated_block(self, id: int, order: int) -> bool {
        &&& block_wf(self.count(), id, order)
        &&& self.frame_at(id).prev == FRAME_STATE_USED
        &&& self.frame_at(id).order as int == order
        &&& forall|o: int, p: int|
            0 <= o < self.lists().len() && 0 <= p < self.lists()[o].len() ==> blocks_disjoint(
                id,
                order,
                #[trigger] self.lists()[o][p],
                o,
            )
    }

    /// Returns the number of allocated pages in the current zone of
    /// memory.
    pub fn get_allocated_pages(&self) -> (r: usize)
        ensures
            r as int == self.allocated(),
    {
        self.allocated_pages
    }

    /// Returns the number of allocatable pages.
    pub fn get_pages_count(&self) -> (r: FrameID)
        requires
            self.count() < FRAME_STATE_USED as int,
        ensures
            r as int == self.count(),
    {
        (self.size / (PAGE_SIZE + FRAME_META_SIZE)) as FrameID
    }

    /// Returns the address of the beginning of the allocatable pages,
    /// after the metadata records.
    pub fn get_data_begin(&self) -> (r: usize)
        requires
            self.tables_wf(),
        ensures
            r as int == self.data_begin_spec(),
    {
        proof {
            lemma_data_region_fits(self.begin as int, self.size as int);
        }
        let frames_bytes = (self.get_pages_count() as usize) * FRAME_META_SIZE;
        align_up(self.begin + frames_bytes, PAGE_SIZE)
    }

    /// Returns a copy of the metadata record of the frame with the given
    /// identifier `id`. The identifier must be in the range of the zone.
    pub fn get_frame(&self, id: FrameID) -> (r: Frame)
        requires
            self.tables_wf(),
            (id as int) < self.count(),
        ensures
            r == self.frame_at(id as int),
    {
        self.frames[id as usize]
    }

    /// Returns the identifier of the frame whose page starts at address
    /// `ptr`. The address must lie within this zone's data region.
    pub fn get_frame_id_from_ptr(&self, ptr: usize) -> (r: FrameID)
        requires
            self.tables_wf(),
            self.data_begin_spec() <= ptr as int,
            (ptr as int) < self.data_begin_spec() + self.count() * PAGE_SIZE as int,
        ensures
            r as int == (ptr as int - self.data_begin_spec()) / (PAGE_SIZE as int),
            (r as int) < self.count(),
    {
        let db = self.get_data_begin();
        let off = ptr - db;
        let id = off / PAGE_SIZE;
        proof {
            let c = self.count();
            vstd::arithmetic::div_mod::lemma_fundamental_div_mod(off as int, PAGE_SIZE as int);
            vstd::arithmetic::div_mod::lemma_mod_bound(off as int, PAGE_SIZE as int);
            vstd::arithmetic::div_mod::lemma_div_pos_is_pos(off as int, PAGE_SIZE as int);
            assert((id as int) < c) by (nonlinear_arith)
                requires
                    off as int == PAGE_SIZE as int * (id as int) + off as int % PAGE_SIZE as int,
                    off as int % PAGE_SIZE as int >= 0,
                    (off as int) < c * PAGE_SIZE as int,
                    id as int >= 0,
            ;
        }
        (id as FrameID)
    }

    /// Links the frame `id` into this zone's free list of order `order` as
    /// the new head. The frame must currently be unlinked, form a
    /// well-formed block disjoint from every free block, and its buddy
    /// must not be free at the same order, so the lists stay maximally
    /// coalesced.
    #[verifier::rlimit(100)]
    fn link(&mut self, id: FrameID, order: FrameOrder)
        requires
            old(self).tables_wf(),
            order <= MAX_ORDER,
            (id as int) < old(self).count(),
            old(self).frame_at(id as int).prev == FRAME_STATE_USED,
            block_wf(old(self).count(), id as int, order as int),
            forall|o: int, p: int|
                0 <= o < FREE_LIST_LEN && 0 <= p < old(self).lists()[o].len() ==> blocks_disjoint(
                    id as int,
                    order as int,
                    #[trigger] old(self).lists()[o][p],
                    o,
                ),
            (order as int) < MAX_ORDER as int ==> !old(self).lists()[order as int].contains(
                buddy_of(id as int, order as int),
            ),
        ensures
            final(self).tables_wf(),
            final(self).lists() == old(self).lists().update(
                order as int,
                seq![id as int] + old(self).lists()[order as int],
            ),
            final(self).allocated() == old(self).allocated(),
            final(self).begin_spec() == old(self).begin_spec(),
            final(self).size_spec() == old(self).size_spec(),
            final(self).ztype() == old(self).ztype(),
            final(self).count() == old(self).count(),
            forall|j: int|
                0 <= j < old(self).count() && (#[trigger] old(self).frames@[j]).prev
                    == FRAME_STATE_USED && j != id as int ==> final(self).frames@[j] == old(
                    self,
                ).frames@[j],
    {
        proof {
            lemma_members_linked(self.frames@, self.lists(), self.count());
        }
        let idx = id as usize;
        let o = order as usize;
        let head = self.free_list[o];
        let mut f = self.frames[idx];
        f.prev = id;
        f.order = order;
        f.next = match head {
            Option::Some(h) => h,
            Option::None => id,
        };
        self.frames[idx] = f;
        match head {
            Option::Some(h) => {
                let mut hf = self.frames[h as usize];
                hf.prev = id;
                self.frames[h as usize] = hf;
            },
            Option::None => {},
        }
        self.free_list[o] = Some(id);
        proof {
            let oi = order as int;
            let idi = id as int;
            let fr0 = old(self).frames@;
            let fr1 = self.frames@;
            let gl0 = old(self).lists();
            let s0 = gl0[oi];
            let s1 = seq![idi] + s0;
            self.free_seqs@ = gl0.update(oi, s1);
            let gl1 = self.lists();
            assert forall|o2: int, p: int|
                0 <= o2 < FREE_LIST_LEN && 0 <= p < gl0[o2].len() implies gl0[o2][p]
                != idi by {
                assert(0 <= gl0[o2][p] < old(self).count() && fr0[gl0[o2][p]].prev
                    != FRAME_STATE_USED);
            }
            // Records of members of other lists, and of tail members of this
            // list, are untouched.
            if s0.len() > 0 {
                let h = s0[0];
                assert(entry_ok(fr0, s0, oi, 0));
                assert(fr1 == fr0.update(idi, fr1[idi]).update(h, fr1[h]));
                assert(fr1[h].prev as int == idi && fr1[h].next == fr0[h].next && fr1[h].order
                    == fr0[h].order && fr1[h].id == fr0[h].id);
            } else {
                assert(fr1 == fr0.update(idi, fr1[idi]));
            }
            assert(fr1[idi].prev == id && fr1[idi].next as int == (if s0.len() > 0 {
                s0[0]
            } else {
                idi
            }) && fr1[idi].order == order && fr1[idi].id as int == idi);
            assert forall|j: int|
                0 <= j < old(self).count() && j != idi && (s0.len() == 0 || j != s0[0])
                implies fr1[j] == fr0[j] by {}
            // Heads match the model.
            assert forall|o2: int| 0 <= o2 < FREE_LIST_LEN implies head_ok(
                #[trigger] self.free_list@[o2],
                gl1[o2],
            ) by {
                if o2 != oi {
                    assert(head_ok(old(self).free_list@[o2], gl0[o2]));
                }
            }
            // Every member record matches its place.
            assert forall|o2: int, p: int|
                0 <= o2 < FREE_LIST_LEN && 0 <= p < gl1[o2].len() implies #[trigger] entry_ok(
                fr1,
                gl1[o2],
                o2,
                p,
            ) by {
                if o2 != oi {
                    assert(entry_ok(fr0, gl0[o2], o2, p));
                    if p > 0 {
                        assert(entry_ok(fr0, gl0[o2], o2, p - 1));
                    }
                    if p < gl0[o2].len() - 1 {
                        assert(entry_ok(fr0, gl0[o2], o2, p + 1));
                    }
                    if s0.len() > 0 {
                        assert(fr0[gl0[o2][p]].order as int == o2);
                        assert(fr0[s0[0]].order as int == oi);
                    }
                } else {
                    if p == 0 {
                        assert(s1[0] == idi);
                    } else {
                        assert(s1[p] == s0[p - 1]);
                        assert(entry_ok(fr0, s0, oi, p - 1));
                        if p == 1 {
                            assert(s0[0] != idi);
                        } else {
                            assert(entry_ok(fr0, s0, oi, p - 2));
                            assert(s0[p - 1] != s0[0]);
                            assert(s1[p - 1] == s0[p - 2]);
                        }
                        if p < s1.len() - 1 {
                            assert(s1[p + 1] == s0[p]);
                        }
                    }
                }
            }
            // Geometry, uniqueness, disjointness, coalescing.
            assert forall|o2: int, p: int|
                0 <= o2 < gl1.len() && 0 <= p < gl1[o2].len() implies block_wf(
                self.count(),
                #[trigger] gl1[o2][p],
                o2,
            ) by {
                if o2 == oi && p == 0 {
                } else if o2 == oi {
                    assert(gl1[o2][p] == s0[p - 1]);
                    assert(block_wf(self.count(), gl0[oi][p - 1], oi));
                } else {
                    assert(block_wf(self.count(), gl0[o2][p], o2));
                }
            }
            assert forall|o2: int, p: int, q: int|
                0 <= o2 < gl1.len() && 0 <= p < q < gl1[o2].len() implies gl1[o2][p] != gl1[o2][q]
                by {
                if o2 == oi {
                    if p == 0 {
                        assert(gl1[o2][q] == s0[q - 1]);
                    } else {
                        assert(gl1[o2][p] == s0[p - 1] && gl1[o2][q] == s0[q - 1]);
                    }
                }
            }
            assert forall|o1: int, p1: int, o2: int, p2: int|
                0 <= o1 < gl1.len() && 0 <= p1 < gl1[o1].len() && 0 <= o2 < gl1.len() && 0 <= p2
                    < gl1[o2].len() && (o1 != o2 || p1 != p2) implies blocks_disjoint(
                #[trigger] gl1[o1][p1],
                o1,
                #[trigger] gl1[o2][p2],
                o2,
            ) by {
                let m1: int = if o1 == oi && p1 > 0 {
                    s0[p1 - 1]
                } else if o1 == oi {
                    idi
                } else {
                    gl0[o1][p1]
                };
                let m2: int = if o2 == oi && p2 > 0 {
                    s0[p2 - 1]
                } else if o2 == oi {
                    idi
                } else {
                    gl0[o2][p2]
                };
                assert(gl1[o1][p1] == m1 && gl1[o2][p2] == m2);
                if m1 == idi {
                    assert(blocks_disjoint(idi, oi, m2, o2));
                } else if m2 == idi {
                    assert(blocks_disjoint(idi, oi, m1, o1));
                }
            }
            if (oi as int) < MAX_ORDER as int {
                assert forall|p1: int, p2: int|
                    0 <= p1 < s1.len() && 0 <= p2 < s1.len() implies s1[p2] != buddy_of(
                    s1[p1],
                    oi,
                ) by {
                    lemma_buddy_props(idi, oi);
                    if p1 > 0 && p2 > 0 {
                        assert(s1[p1] == s0[p1 - 1] && s1[p2] == s0[p2 - 1]);
                    } else if p1 == 0 && p2 > 0 {
                        if s1[p2] == buddy_of(idi, oi) {
                            assert(s0[p2 - 1] == buddy_of(idi, oi));
                            assert(s0.contains(buddy_of(idi, oi)));
                        }
                    } else if p1 > 0 && p2 == 0 {
                        let x = s0[p1 - 1];
                        assert(block_wf(old(self).count(), x, oi));
                        lemma_buddy_props(x, oi);
                        if idi == buddy_of(x, oi) {
                            assert(buddy_of(idi, oi) == x);
                            assert(s0.contains(buddy_of(idi, oi)));
                        }
                    }
                }
            }
            assert forall|o2: int, p1: int, p2: int|
                0 <= o2 < MAX_ORDER as int && o2 < gl1.len() && 0 <= p1 < gl1[o2].len() && 0 <= p2
                    < gl1[o2].len() implies #[trigger] gl1[o2][p2] != buddy_of(
                #[trigger] gl1[o2][p1],
                o2,
            ) by {
                if o2 != oi {
                    assert(gl1[o2][p2] == gl0[o2][p2] && gl1[o2][p1] == gl0[o2][p1]);
                }
            }
            // Truthfulness.
            assert forall|j: int|
                0 <= j < fr1.len() && (#[trigger] fr1[j]).prev != FRAME_STATE_USED implies 0 <= (
            fr1[j].order as int) < FREE_LIST_LEN && gl1[fr1[j].order as int].contains(j) by {
                if j == idi {
                    assert(gl1[oi][0] == idi);
                } else if s0.len() > 0 && j == s0[0] {
                    assert(gl1[oi][1] == s0[0]);
                } else {
                    assert(fr1[j] == fr0[j]);
                    let oj = fr0[j].order as int;
                    assert(gl0[oj].contains(j));
                    if oj == oi {
                        crate::model::lemma_cons_contains(s0, idi, j);
                    }
                }
            }
            assert(final(self).lists() == old(self).lists().update(
                oi,
                seq![idi] + old(self).lists()[oi],
            ));
        }
    }

    /// Returns the head of a non-empty free list of the smallest order
    /// that is at least `order`, if one exists.
    pub fn get_available_frame(&self, order: FrameOrder) -> (r: Option<FrameID>)
        requires
            self.tables_wf(),
            order <= MAX_ORDER,
        ensures
            match r {
                Option::None => first_free_order(self.lists(), order as int)
                    == FREE_LIST_LEN as int,
                Option::Some(h) => {
                    let f = first_free_order(self.lists(), order as int);
                    &&& f < FREE_LIST_LEN
                    &&& self.lists()[f].len() > 0
                    &&& h as int == self.lists()[f][0]
                },
            },
    {
        let mut i: usize = order as usize;
        while i < FREE_LIST_LEN
            invariant
                self.tables_wf(),
                order as int <= i as int <= FREE_LIST_LEN as int,
                first_free_order(self.lists(), order as int) == first_free_order(
                    self.lists(),
                    i as int,
                ),
            decreases FREE_LIST_LEN - i,
        {
            proof {
                assert(head_ok(self.free_list@[i as int], self.lists()[i as int]));
            }
            match self.free_list[i] {
                Option::Some(h) => {
                    return Some(h);
                },
                Option::None => {
                    i = i + 1;
                },
            }
        }
        None
    }

    /// Splits the unlinked block headed by frame `id` down to `order`,
    /// linking the split-off upper half into the free list at each step.
    /// At the end the frame heads a block of order `order` and is still not
    /// linked into any free list.
    fn split(&mut self, id: FrameID, order: FrameOrder)
        requires
            old(self).tables_wf(),
            (id as int) < old(self).count(),
            old(self).frame_at(id as int).prev == FRAME_STATE_USED,
            order as int <= old(self).frame_at(id as int).order as int,
            block_wf(old(self).count(), id as int, old(self).frame_at(id as int).order as int),
            forall|o: int, p: int|
                0 <= o < FREE_LIST_LEN && 0 <= p < old(self).lists()[o].len() ==> blocks_disjoint(
                    id as int,
                    old(self).frame_at(id as int).order as int,
                    #[trigger] old(self).lists()[o][p],
                    o,
                ),
            forall|j: int|
                (id as int) < j < id as int + p2(old(self).frame_at(id as int).order as int)
                    ==> (#[trigger] old(self).frames@[j]).prev == FRAME_STATE_USED,
        ensures
            final(self).tables_wf(),
            final(self).lists() == split_links(
                old(self).lists(),
                id as int,
                order as int,
                old(self).frame_at(id as int).order as int,
            ),
            final(self).frame_at(id as int).prev == FRAME_STATE_USED,
            final(self).frame_at(id as int).order == order,
            final(self).frame_at(id as int).id == old(self).frame_at(id as int).id,
            forall|o: int, p: int|
                0 <= o < FREE_LIST_LEN && 0 <= p < final(self).lists()[o].len()
                    ==> blocks_disjoint(
                    id as int,
                    order as int,
                    #[trigger] final(self).lists()[o][p],
                    o,
                ),
            final(self).allocated() == old(self).allocated(),
            final(self).begin_spec() == old(self).begin_spec(),
            final(self).size_spec() == old(self).size_spec(),
            final(self).ztype() == old(self).ztype(),
            final(self).count() == old(self).count(),
            forall|j: int|
                0 <= j < old(self).count() && (#[trigger] old(self).frames@[j]).prev
                    == FRAME_STATE_USED && !(id as int <= j < id as int + p2(
                    old(self).frame_at(id as int).order as int,
                )) ==> final(self).frames@[j] == old(self).frames@[j],
    {
        let ghost gl0 = old(self).lists();
        let ghost idi = id as int;
        let ghost cur0 = old(self).frame_at(id as int).order as int;
        let mut cur = self.frames[id as usize].order;
        proof {
            lemma_split_links_empty(gl0, idi, cur0);
        }
        while cur > order
            invariant
                self.tables_wf(),
                order <= cur,
                cur as int <= cur0,
                cur0 <= MAX_ORDER as int,
                (idi as int) < self.count(),
                idi == id as int,
                self.frame_at(idi).prev == FRAME_STATE_USED,
                self.frame_at(idi).order == cur,
                self.frame_at(idi).id == old(self).frame_at(idi).id,
                block_wf(self.count(), idi, cur as int),
                self.lists() == split_links(gl0, idi, cur as int, cur0),
                forall|o: int, p: int|
                    0 <= o < FREE_LIST_LEN && 0 <= p < self.lists()[o].len() ==> blocks_disjoint(
                        idi,
                        cur as int,
                        #[trigger] self.lists()[o][p],
                        o,
                    ),
                forall|j: int|
                    idi < j < idi + p2(cur as int) ==> (#[trigger] self.frames@[j]).prev
                        == FRAME_STATE_USED,
                forall|j: int|
                    0 <= j < old(self).count() && (#[trigger] old(self).frames@[j]).prev
                        == FRAME_STATE_USED && !(idi <= j < idi + p2(cur0))
                        ==> self.frames@[j] == old(self).frames@[j],
                self.allocated() == old(self).allocated(),
                self.begin_spec() == old(self).begin_spec(),
                self.size_spec() == old(self).size_spec(),
                self.ztype() == old(self).ztype(),
                self.count() == old(self).count(),
            decreases cur,
        {
            let ghost pre = *self;
            cur = cur - 1;
            let mut f = self.frames[id as usize];
            f.order = cur;
            self.frames[id as usize] = f;
            proof {
                let ci = cur as int;
                assert(pow2(cur as nat) <= 0x20000) by {
                    vstd::arithmetic::power2::lemma_pow2_adds(cur as nat, (17 - ci) as nat);
                    lemma_p2_pos(17 - ci);
                    vstd::arithmetic::power2::lemma2_to64();
                    vstd::arithmetic::mul::lemma_mul_increases(
                        pow2((17 - ci) as nat) as int,
                        pow2(cur as nat) as int,
                    );
                }
                vstd::bits::lemma_u32_shl_is_mul(1u32, cur as u32);
                lemma_p2_unfold(ci);
                lemma_p2_pos(ci);
            }
            let buddy: FrameID = id + (1u32 << (cur as u32));
            proof {
                let ci = cur as int;
                assert(buddy as int == idi + p2(ci));
                // The half block is aligned to its order and in range.
                lemma_p2_divides(idi, ci, ci + 1);
                assert(buddy as int % p2(ci) == 0) by {
                    vstd::arithmetic::div_mod::lemma_fundamental_div_mod(idi, p2(ci));
                    let q = idi / p2(ci);
                    assert(buddy as int == (q + 1) * p2(ci) + 0) by (nonlinear_arith)
                        requires
                            idi == p2(ci) * q,
                            buddy as int == idi + p2(ci),
                    ;
                    vstd::arithmetic::div_mod::lemma_fundamental_div_mod_converse(
                        buddy as int,
                        p2(ci),
                        q + 1,
                        0,
                    );
                }
                // The buddy frame is an interior frame of the larger block,
                // hence marked used; the tables did not change since the
                // loop head except for the head's own order field.
                assert(self.frames@ == pre.frames@.update(idi, self.frames@[idi]));
                assert(self.frames@[buddy as int].prev == FRAME_STATE_USED);
                assert(self.lists() == pre.lists());
                assert forall|o2: int, p2x: int|
                    0 <= o2 < FREE_LIST_LEN && 0 <= p2x < self.lists()[o2].len()
                    implies #[trigger] entry_ok(self.frames@, self.lists()[o2], o2, p2x) by {
                    assert(entry_ok(pre.frames@, pre.lists()[o2], o2, p2x));
                    lemma_members_linked(pre.frames@, pre.lists(), pre.count());
                }
                assert(self.tables_wf());
                // The buddy of the half block at its order is the head
                // itself, which is not linked.
                lemma_buddy_props(buddy as int, ci);
                assert(buddy_of(buddy as int, ci) == idi) by {
                    assert(idi % p2(ci + 1) == 0);
                    assert(buddy as int % p2(ci + 1) != 0) by {
                        if buddy as int % p2(ci + 1) == 0 {
                            vstd::arithmetic::div_mod::lemma_sub_mod_noop(
                                buddy as int,
                                idi,
                                p2(ci + 1),
                            );
                            vstd::arithmetic::div_mod::lemma_small_mod(
                                0nat,
                                p2(ci + 1) as nat,
                            );
                            assert(p2(ci) % p2(ci + 1) == 0);
                            vstd::arithmetic::div_mod::lemma_small_mod(
                                p2(ci) as nat,
                                p2(ci + 1) as nat,
                            );
                        }
                    }
                }
                lemma_members_linked(self.frames@, self.lists(), self.count());
                // The head is not a member of any list, so the link
                // precondition about coalescing holds.
                assert(!self.lists()[ci].contains(idi)) by {
                    if self.lists()[ci].contains(idi) {
                        let q = choose|q: int|
                            0 <= q < self.lists()[ci].len() && self.lists()[ci][q] == idi;
                        assert(false);
                    }
                }
                // The half block lies inside the block being split, which
                // is disjoint from every free block.
                assert forall|o2: int, p2x: int|
                    0 <= o2 < FREE_LIST_LEN && 0 <= p2x < self.lists()[o2].len()
                    implies blocks_disjoint(
                    buddy as int,
                    ci,
                    #[trigger] self.lists()[o2][p2x],
                    o2,
                ) by {
                    assert(blocks_disjoint(idi, ci + 1, self.lists()[o2][p2x], o2));
                }
            }
            let ghost mid = *self;
            self.link(buddy, cur);
            proof {
                let ci = cur as int;
                assert(mid.lists() == split_links(gl0, idi, ci + 1, cur0));
                assert(self.lists() =~= split_links(gl0, idi, ci, cur0));
                assert(self.frames@[idi] == mid.frames@[idi]);
                assert forall|o2: int, p2x: int|
                    0 <= o2 < FREE_LIST_LEN && 0 <= p2x < self.lists()[o2].len()
                    implies blocks_disjoint(
                    idi,
                    ci,
                    #[trigger] self.lists()[o2][p2x],
                    o2,
                ) by {
                    lemma_p2_unfold(ci);
                    lemma_p2_pos(ci);
                    if o2 == ci && p2x == 0 {
                        assert(self.lists()[o2][p2x] == buddy as int);
                    } else {
                        let pp: int = if o2 == ci {
                            p2x - 1
                        } else {
                            p2x
                        };
                        assert(self.lists()[o2][p2x] == mid.lists()[o2][pp]);
                        assert(blocks_disjoint(idi, ci + 1, mid.lists()[o2][pp], o2));
                    }
                }
                assert forall|j: int|
                    idi < j < idi + p2(ci) implies (#[trigger] self.frames@[j]).prev
                    == FRAME_STATE_USED by {
                    lemma_p2_unfold(ci);
                    lemma_p2_pos(ci);
                    assert(mid.frames@[j].prev == FRAME_STATE_USED);
                    assert(j != buddy as int);
                }
                // Used frames outside the block being split are untouched.
                assert forall|j: int|
                    0 <= j < old(self).count() && (#[trigger] old(self).frames@[j]).prev
                        == FRAME_STATE_USED && !(idi <= j < idi + p2(cur0))
                    implies self.frames@[j] == old(self).frames@[j] by {
                    lemma_p2_pos(ci);
                    if ci + 1 <= cur0 && ci + 1 > 0 {
                        if ci + 1 < cur0 {
                            vstd::arithmetic::power2::lemma_pow2_strictly_increases(
                                (ci + 1) as nat,
                                cur0 as nat,
                            );
                        }
                        lemma_p2_unfold(ci);
                    }
                    assert(pre.frames@[j] == old(self).frames@[j]);
                    assert(j != idi);
                    assert(mid.frames@[j] == pre.frames@[j]);
                    assert((buddy as int) < idi + p2(cur0));
                    assert(j != buddy as int);
                    assert(mid.frames@[j].prev == FRAME_STATE_USED);
                }
            }
        }
    }

    /// Coalesces the unlinked block headed by frame `id` with its free
    /// buddy blocks while one exists at the current order, then links the
    /// merged block into the free list of its final order.
    #[verifier::rlimit(100)]
    fn coalesce(&mut self, id: FrameID)
        requires
            old(self).tables_wf(),
            (id as int) < old(self).count(),
            old(self).frame_at(id as int).prev == FRAME_STATE_USED,
            block_wf(old(self).count(), id as int, old(self).frame_at(id as int).order as int),
            forall|o: int, p: int|
                0 <= o < FREE_LIST_LEN && 0 <= p < old(self).lists()[o].len() ==> blocks_disjoint(
                    id as int,
                    old(self).frame_at(id as int).order as int,
                    #[trigger] old(self).lists()[o][p],
                    o,
                ),
            forall|j: int|
                (id as int) < j < id as int + p2(old(self).frame_at(id as int).order as int)
                    ==> (#[trigger] old(self).frames@[j]).prev == FRAME_STATE_USED,
        ensures
            final(self).tables_wf(),
            final(self).lists() == coalesce_lists(
                old(self).lists(),
                id as int,
                old(self).frame_at(id as int).order as int,
            ),
            final(self).allocated() == old(self).allocated(),
            final(self).begin_spec() == old(self).begin_spec(),
            final(self).size_spec() == old(self).size_spec(),
            final(self).ztype() == old(self).ztype(),
            final(self).count() == old(self).count(),
            forall|a: int, ao: int|
                #[trigger] old(self).is_allocated_block(a, ao) && 0 <= ao <= MAX_ORDER as int
                    && blocks_disjoint(
                    a,
                    ao,
                    id as int,
                    old(self).frame_at(id as int).order as int,
                ) ==> final(self).frame_at(a) == old(self).frame_at(a) && (forall|
                    o2: int,
                    p2v: int,
                |
                    0 <= o2 < FREE_LIST_LEN && 0 <= p2v < final(self).lists()[o2].len()
                        ==> blocks_disjoint(a, ao, #[trigger] final(self).lists()[o2][p2v], o2)),
    {
        let ghost gl0 = old(self).lists();
        let ghost idi = id as int;
        let ghost oi0 = old(self).frame_at(id as int).order as int;
        let mut cur: FrameID = id;
        let mut cur_o: FrameOrder = self.frames[id as usize].order;
        let mut merging = true;
        proof {
            assert forall|o2: int, p2v: int|
                0 <= o2 < FREE_LIST_LEN && 0 <= p2v < self.lists()[o2].len()
                implies #[trigger] crate::model::member_descends(
                gl0,
                self.lists(),
                o2,
                p2v,
            ) by {
                assert(gl0[o2][p2v] == self.lists()[o2][p2v]);
            }
        }
        while merging && cur_o < MAX_ORDER
            invariant
                self.tables_wf(),
                gl0 == old(self).lists(),
                gl0.len() == FREE_LIST_LEN,
                idi == id as int,
                oi0 == old(self).frame_at(idi).order as int,
                (cur as int) < self.count(),
                cur_o <= MAX_ORDER,
                self.frame_at(cur as int).prev == FRAME_STATE_USED,
                self.frame_at(cur as int).order == cur_o,
                block_wf(self.count(), cur as int, cur_o as int),
                forall|o: int, p: int|
                    0 <= o < FREE_LIST_LEN && 0 <= p < self.lists()[o].len() ==> blocks_disjoint(
                        cur as int,
                        cur_o as int,
                        #[trigger] self.lists()[o][p],
                        o,
                    ),
                forall|j: int|
                    (cur as int) < j < cur as int + p2(cur_o as int) ==> (
                    #[trigger] self.frames@[j]).prev == FRAME_STATE_USED,
                coalesce_lists(gl0, idi, oi0) == coalesce_lists(
                    self.lists(),
                    cur as int,
                    cur_o as int,
                ),
                !merging ==> !self.lists()[cur_o as int].contains(
                    buddy_of(cur as int, cur_o as int),
                ),
                forall|o2: int, p2v: int|
                    0 <= o2 < FREE_LIST_LEN && 0 <= p2v < self.lists()[o2].len()
                        ==> #[trigger] crate::model::member_descends(gl0, self.lists(), o2, p2v),
                forall|a: int, ao: int|
                    #[trigger] old(self).is_allocated_block(a, ao) && 0 <= ao <= MAX_ORDER as int
                        && blocks_disjoint(a, ao, idi, oi0) ==> self.frames@[a] == old(
                        self,
                    ).frames@[a] && blocks_disjoint(a, ao, cur as int, cur_o as int),
                self.allocated() == old(self).allocated(),
                self.begin_spec() == old(self).begin_spec(),
                self.size_spec() == old(self).size_spec(),
                self.ztype() == old(self).ztype(),
                self.count() == old(self).count(),
            decreases 2 * (MAX_ORDER as int - cur_o as int) + (if merging {
                1int
            } else {
                0int
            }),
        {
            let fcur = self.frames[cur as usize];
            let b = fcur.get_buddy_id(self);
            let pages_count = self.get_pages_count();
            proof {
                lemma_members_linked(self.frames@, self.lists(), self.count());
                lemma_p2_pos(cur_o as int);
            }
            if b >= pages_count {
                merging = false;
                proof {
                    let co = cur_o as int;
                    if self.lists()[co].contains(b as int) {
                        let q = choose|q: int|
                            0 <= q < self.lists()[co].len() && self.lists()[co][q] == b as int;
                        assert(block_wf(self.count(), self.lists()[co][q], co));
                        assert(false);
                    }
                }
            } else {
                let bf = self.frames[b as usize];
                if bf.is_used() || bf.order != cur_o {
                    merging = false;
                    proof {
                        let co = cur_o as int;
                        if self.lists()[co].contains(b as int) {
                            let q = choose|q: int|
                                0 <= q < self.lists()[co].len() && self.lists()[co][q]
                                    == b as int;
                            assert(entry_ok(self.frames@, self.lists()[co], co, q));
                            assert(false);
                        }
                    }
                } else {
                    let ghost pre = *self;
                    let ghost co = cur_o as int;
                    let ghost bi = b as int;
                    proof {
                        // The buddy record looks free, so it heads a free
                        // block of the current order.
                        assert(self.lists()[co].contains(bi));
                        let qb = choose|q: int|
                            0 <= q < pre.lists()[co].len() && pre.lists()[co][q] == bi;
                        assert(block_wf(pre.count(), bi, co));
                        lemma_interior_used(
                            pre.frames@,
                            pre.lists(),
                            pre.count(),
                            bi,
                            co,
                        );
                        lemma_buddy_props(cur as int, co);
                    }
                    let ghost cprev = cur as int;
                    self.unlink(b);
                    let ghost mid = *self;
                    if b < cur {
                        cur = b;
                    }
                    cur_o = cur_o + 1;
                    let mut f = self.frames[cur as usize];
                    f.order = cur_o;
                    self.frames[cur as usize] = f;
                    proof {
                        let ci = cur as int;
                        let coo = cur_o as int;
                        lemma_p2_unfold(co);
                        lemma_p2_pos(co);
                        assert(bi == buddy_of(cprev, co));
                        assert(ci == (if bi < cprev {
                            bi
                        } else {
                            cprev
                        }));
                        assert(mid.lists() == pre.lists().update(
                            co,
                            pre.lists()[co].remove_value(bi),
                        ));
                        assert(self.lists() == mid.lists());
                        // The order rewrite touches an unlinked frame only,
                        // so the tables stay well formed.
                        assert(self.frames@ == mid.frames@.update(ci, self.frames@[ci]));
                        assert(mid.frames@[ci].prev == FRAME_STATE_USED);
                        assert forall|o2: int, p2x: int|
                            0 <= o2 < FREE_LIST_LEN && 0 <= p2x < self.lists()[o2].len()
                            implies #[trigger] entry_ok(
                            self.frames@,
                            self.lists()[o2],
                            o2,
                            p2x,
                        ) by {
                            assert(entry_ok(mid.frames@, mid.lists()[o2], o2, p2x));
                            lemma_members_linked(mid.frames@, mid.lists(), mid.count());
                        }
                        assert(self.tables_wf());
                        // Geometry of the merged block.
                        assert(block_wf(self.count(), ci, coo)) by {
                            assert(block_wf(pre.count(), bi, co));
                            assert(block_wf(pre.count(), cprev, co));
                        }
                        // The merged block's interior frames are all
                        // marked: the two heads are, and so is each half's
                        // interior.
                        assert forall|j: int|
                            ci < j < ci + p2(coo) implies (#[trigger] self.frames@[j]).prev
                            == FRAME_STATE_USED by {
                            if j == bi || j == cprev {
                                assert(mid.frames@[j].prev == FRAME_STATE_USED);
                            } else if cprev < j < cprev + p2(co) {
                                assert(pre.frames@[j].prev == FRAME_STATE_USED);
                                assert(mid.frames@[j] == pre.frames@[j]);
                            } else {
                                assert(bi < j < bi + p2(co));
                                assert(pre.frames@[j].prev == FRAME_STATE_USED);
                                assert(mid.frames@[j] == pre.frames@[j]);
                            }
                        }
                        // Disjointness from the remaining free blocks: each
                        // remaining block was disjoint from both halves.
                        let qb = pre.lists()[co].index_of_first(bi).unwrap();
                        pre.lists()[co].index_of_first_ensures(bi);
                        pre.lists()[co].remove_ensures(qb);
                        assert forall|o2: int, p2x: int|
                            0 <= o2 < FREE_LIST_LEN && 0 <= p2x < self.lists()[o2].len()
                            implies blocks_disjoint(
                            ci,
                            coo,
                            #[trigger] self.lists()[o2][p2x],
                            o2,
                        ) by {
                            let pp: int = if o2 == co && p2x >= qb {
                                p2x + 1
                            } else {
                                p2x
                            };
                            assert(self.lists()[o2][p2x] == pre.lists()[o2][pp]);
                            let m = pre.lists()[o2][pp];
                            assert(blocks_disjoint(cprev, co, m, o2));
                            assert((o2, pp) != (co, qb as int));
                            assert(blocks_disjoint(bi, co, m, o2));
                        }
                        // The remaining coalescing work is unchanged.
                        assert(coalesce_lists(gl0, idi, oi0) == coalesce_lists(
                            self.lists(),
                            ci,
                            coo,
                        ));
                        // Every remaining block was already free before the
                        // whole coalescing started.
                        assert forall|o2: int, p2v: int|
                            0 <= o2 < FREE_LIST_LEN && 0 <= p2v < self.lists()[o2].len()
                            implies #[trigger] crate::model::member_descends(
                            gl0,
                            self.lists(),
                            o2,
                            p2v,
                        ) by {
                            let pp: int = if o2 == co && p2v >= qb {
                                p2v + 1
                            } else {
                                p2v
                            };
                            assert(self.lists()[o2][p2v] == pre.lists()[o2][pp]);
                            assert(crate::model::member_descends(gl0, pre.lists(), o2, pp));
                            let q = choose|q: int|
                                0 <= q < gl0[o2].len() && gl0[o2][q] == pre.lists()[o2][pp];
                            assert(gl0[o2][q] == self.lists()[o2][p2v]);
                        }
                        // Allocated blocks disjoint from the freed one keep
                        // their records and stay disjoint from the grown
                        // merged block.
                        assert forall|a: int, ao: int|
                            #[trigger] old(self).is_allocated_block(a, ao) && 0 <= ao
                                <= MAX_ORDER as int && blocks_disjoint(a, ao, idi, oi0)
                            implies self.frames@[a] == old(self).frames@[a] && blocks_disjoint(
                            a,
                            ao,
                            ci,
                            coo,
                        ) by {
                            lemma_p2_pos(ao);
                            assert(pre.frames@[a] == old(self).frames@[a]);
                            assert(pre.frames@[a].prev == FRAME_STATE_USED);
                            assert(mid.frames@[a] == pre.frames@[a]);
                            assert(blocks_disjoint(a, ao, cprev, co));
                            assert(pre.lists()[co][qb] == bi);
                            assert(crate::model::member_descends(gl0, pre.lists(), co, qb));
                            let qg = choose|q: int|
                                0 <= q < gl0[co].len() && gl0[co][q] == pre.lists()[co][qb];
                            assert(gl0[co][qg] == bi);
                            assert(blocks_disjoint(a, ao, gl0[co][qg], co));
                            assert(a != ci);
                            assert(self.frames@[a] == mid.frames@[a]);
                        }
                    }
                }
            }
        }
        proof {
            let ci = cur as int;
            let coo = cur_o as int;
            lemma_members_linked(self.frames@, self.lists(), self.count());
            if coo < MAX_ORDER as int {
                assert(!self.lists()[coo].contains(buddy_of(ci, coo)));
            }
        }
        let ghost last = *self;
        self.link(cur, cur_o);
        proof {
            let ci = cur as int;
            let coo = cur_o as int;
            assert(self.lists() == coalesce_lists(last.lists(), ci, coo));
            // Allocated blocks disjoint from the freed one keep their
            // records and are disjoint from every block of the final
            // lists.
            assert forall|a: int, ao: int|
                #[trigger] old(self).is_allocated_block(a, ao) && 0 <= ao <= MAX_ORDER as int
                    && blocks_disjoint(a, ao, idi, oi0) implies self.frame_at(a) == old(
                self,
            ).frame_at(a) && (forall|o2: int, p2v: int|
                0 <= o2 < FREE_LIST_LEN && 0 <= p2v < self.lists()[o2].len() ==> blocks_disjoint(
                    a,
                    ao,
                    #[trigger] self.lists()[o2][p2v],
                    o2,
                )) by {
                lemma_p2_pos(ao);
                lemma_p2_pos(coo);
                assert(last.frames@[a] == old(self).frames@[a]);
                assert(last.frames@[a].prev == FRAME_STATE_USED);
                assert(blocks_disjoint(a, ao, ci, coo));
                assert(a != ci);
                assert(self.frames@[a] == last.frames@[a]);
                assert forall|o2: int, p2v: int|
                    0 <= o2 < FREE_LIST_LEN && 0 <= p2v < self.lists()[o2].len()
                    implies blocks_disjoint(a, ao, #[trigger] self.lists()[o2][p2v], o2) by {
                    if o2 == coo && p2v == 0 {
                        assert(self.lists()[o2][p2v] == ci);
                    } else {
                        let pp: int = if o2 == coo {
                            p2v - 1
                        } else {
                            p2v
                        };
                        assert(self.lists()[o2][p2v] == last.lists()[o2][pp]);
                        assert(crate::model::member_descends(gl0, last.lists(), o2, pp));
                        let q = choose|q: int|
                            0 <= q < gl0[o2].len() && gl0[o2][q] == last.lists()[o2][pp];
                        assert(blocks_disjoint(a, ao, gl0[o2][q], o2));
                    }
                }
            }
        }
    }

    /// Unlinks the frame `id` from the free list of its recorded order and
    /// marks it with the used sentinel.
    #[verifier::rlimit(100)]
    fn unlink(&mut self, id: FrameID)
        requires
            old(self).tables_wf(),
            (id as int) < old(self).count(),
            old(self).frame_at(id as int).prev != FRAME_STATE_USED,
        ensures
            final(self).tables_wf(),
            final(self).lists() == old(self).lists().update(
                old(self).frame_at(id as int).order as int,
                old(self).lists()[old(self).frame_at(id as int).order as int].remove_value(
                    id as int,
                ),
            ),
            final(self).frame_at(id as int) == (Frame {
                prev: FRAME_STATE_USED,
                ..old(self).frame_at(id as int)
            }),
            final(self).allocated() == old(self).allocated(),
            final(self).begin_spec() == old(self).begin_spec(),
            final(self).size_spec() == old(self).size_spec(),
            final(self).ztype() == old(self).ztype(),
            final(self).count() == old(self).count(),
            forall|j: int|
                0 <= j < old(self).count() && (#[trigger] old(self).frames@[j]).prev
                    == FRAME_STATE_USED ==> final(self).frames@[j] == old(self).frames@[j],
    {
        proof {
            lemma_members_linked(self.frames@, self.lists(), self.count());
        }
        let ghost fr0 = self.frames@;
        let ghost gl0 = self.lists();
        let ghost idi = id as int;
        let ghost oi = old(self).frame_at(id as int).order as int;
        let ghost s = gl0[oi];
        let ghost pos = choose|p: int| 0 <= p < s.len() && s[p] == idi;
        proof {
            assert(gl0[oi].contains(idi));
            assert(s[pos] == idi);
            assert(entry_ok(fr0, s, oi, pos));
            if pos > 0 {
                assert(entry_ok(fr0, s, oi, pos - 1));
                if pos > 1 {
                    assert(entry_ok(fr0, s, oi, pos - 2));
                }
            }
            if pos < s.len() - 1 {
                assert(entry_ok(fr0, s, oi, pos + 1));
                if pos < s.len() - 2 {
                    assert(entry_ok(fr0, s, oi, pos + 2));
                }
            }
        }
        let f = self.frames[id as usize];
        let o = f.order as usize;
        let has_prev = f.prev != id;
        let has_next = f.next != id;
        if has_prev {
            let mut pf = self.frames[f.prev as usize];
            pf.next = if has_next {
                f.next
            } else {
                f.prev
            };
            self.frames[f.prev as usize] = pf;
        } else {
            self.free_list[o] = if has_next {
                Some(f.next)
            } else {
                None
            };
        }
        if has_next {
            let mut nf = self.frames[f.next as usize];
            nf.prev = if has_prev {
                f.prev
            } else {
                f.next
            };
            self.frames[f.next as usize] = nf;
        }
        let mut sf = self.frames[id as usize];
        sf.prev = FRAME_STATE_USED;
        self.frames[id as usize] = sf;
        proof {
            let fr1 = self.frames@;
            let s1 = s.remove(pos);
            self.free_seqs@ = gl0.update(oi, s1);
            let gl1 = self.lists();
            // The removed value's first occurrence is at `pos`.
            assert(s.remove_value(idi) == s1) by {
                s.index_of_first_ensures(idi);
                let i = s.index_of_first(idi).unwrap();
                assert(s[i] == idi);
                assert(i == pos);
            }
            assert(has_prev <==> pos > 0);
            assert(has_next <==> pos < s.len() - 1);
            s.remove_ensures(pos);
            // Which records changed.
            assert(fr1[idi] == (Frame { prev: FRAME_STATE_USED, ..fr0[idi] }));
            assert forall|j: int|
                0 <= j < fr1.len() && j != idi && (pos == 0 || j != s[pos - 1]) && (pos == s.len()
                    - 1 || j != s[pos + 1]) implies #[trigger] fr1[j] == fr0[j] by {}
            if pos > 0 {
                let a = s[pos - 1];
                assert(fr1[a] == (Frame {
                    next: (if pos < s.len() - 1 {
                        s[pos + 1]
                    } else {
                        s[pos - 1]
                    }) as FrameID,
                    ..fr0[a]
                }));
            }
            if pos < s.len() - 1 {
                let b = s[pos + 1];
                assert(fr1[b] == (Frame {
                    prev: (if pos > 0 {
                        s[pos - 1]
                    } else {
                        s[pos + 1]
                    }) as FrameID,
                    ..fr0[b]
                }));
            }
            // Heads match the model.
            assert forall|o2: int| 0 <= o2 < FREE_LIST_LEN implies head_ok(
                #[trigger] self.free_list@[o2],
                gl1[o2],
            ) by {
                assert(head_ok(old(self).free_list@[o2], gl0[o2]));
                if o2 == oi && pos == 0 && s.len() > 1 {
                    assert(s1[0] == s[1]);
                }
            }
            // Member records, truthfulness and id records after the
            // removal.
            lemma_unlink_tables(fr0, fr1, gl0, oi, pos);
            // Geometry, uniqueness, disjointness, coalescing carry over to a
            // sub-collection of the old blocks.
            lemma_remove_preserves(gl0, oi, pos, self.count());
        }
    }

    /// Fills the free lists during initialization according to the number
    /// of available pages: starting at the highest order and descending,
    /// the largest aligned block that fits the remaining region is linked
    /// and the cursor advances past it, until the zone is covered.
    #[verifier::rlimit(100)]
    fn fill_free_list(&mut self)
        requires
            old(self).tables_wf(),
            forall|o: int| 0 <= o < FREE_LIST_LEN ==> #[trigger] old(self).lists()[o].len() == 0,
            forall|j: int|
                0 <= j < old(self).count() ==> (#[trigger] old(self).frames@[j]).prev
                    == FRAME_STATE_USED,
        ensures
            final(self).tables_wf(),
            free_total(final(self).lists()) == final(self).count(),
            final(self).lists() == greedy_fill(
                old(self).count(),
                0,
                MAX_ORDER as int,
                old(self).lists(),
            ),
            final(self).allocated() == old(self).allocated(),
            final(self).begin_spec() == old(self).begin_spec(),
            final(self).size_spec() == old(self).size_spec(),
            final(self).ztype() == old(self).ztype(),
            final(self).count() == old(self).count(),
    {
        let pages_count = self.get_pages_count();
        let mut frame: FrameID = 0;
        let mut ord: FrameOrder = MAX_ORDER;
        proof {
            crate::model::lemma_free_total_below_empty(self.lists(), FREE_LIST_LEN as int);
            vstd::arithmetic::power2::lemma2_to64();
        }
        while frame < pages_count
            invariant
                self.tables_wf(),
                pages_count as int == self.count(),
                frame as int <= self.count(),
                ord <= MAX_ORDER,
                frame as int % p2(ord as int) == 0,
                free_total(self.lists()) == frame as int,
                greedy_fill(self.count(), 0, MAX_ORDER as int, old(self).lists()) == greedy_fill(
                    self.count(),
                    frame as int,
                    ord as int,
                    self.lists(),
                ),
                forall|o: int, p: int|
                    0 <= o < FREE_LIST_LEN && 0 <= p < self.lists()[o].len()
                        ==> #[trigger] self.lists()[o][p] + p2(o) <= frame as int,
                (ord as int) < MAX_ORDER as int ==> frame as int + p2(ord as int + 1)
                    > self.count(),
                forall|o: int, p: int|
                    0 <= o < MAX_ORDER as int && 0 <= p < self.lists()[o].len()
                        ==> #[trigger] self.lists()[o][p] + p2(o + 1) > self.count(),
                forall|j: int|
                    frame as int <= j < self.count() ==> (#[trigger] self.frames@[j]).prev
                        == FRAME_STATE_USED,
                self.allocated() == old(self).allocated(),
                self.begin_spec() == old(self).begin_spec(),
                self.size_spec() == old(self).size_spec(),
                self.ztype() == old(self).ztype(),
                self.count() == old(self).count(),
            decreases self.count() - frame as int, ord as int,
        {
            proof {
                let oi = ord as int;
                assert(pow2(ord as nat) <= 0x20000) by {
                    vstd::arithmetic::power2::lemma_pow2_adds(ord as nat, (17 - oi) as nat);
                    lemma_p2_pos(17 - oi);
                    vstd::arithmetic::power2::lemma2_to64();
                    vstd::arithmetic::mul::lemma_mul_increases(
                        pow2((17 - oi) as nat) as int,
                        pow2(ord as nat) as int,
                    );
                }
                vstd::bits::lemma_u32_shl_is_mul(1u32, ord as u32);
            }
            let p: FrameID = 1u32 << (ord as u32);
            if pages_count - frame < p {
                proof {
                    if ord == 0 {
                        assert(p2(0) == 1) by {
                            vstd::arithmetic::power2::lemma2_to64();
                        }
                        assert(false);
                    }
                    lemma_p2_divides(frame as int, ord as int - 1, ord as int);
                    lemma_p2_unfold(ord as int - 1);
                }
                ord = ord - 1;
            } else {
                let ghost pre = *self;
                proof {
                    let oi = ord as int;
                    let fi = frame as int;
                    lemma_p2_pos(oi);
                    lemma_buddy_props(fi, oi);
                    // The buddy of the new block is not free: an upper
                    // buddy lies at or past the cursor, and a lower buddy
                    // would have been linked only where this block cannot
                    // fit.
                    if oi < MAX_ORDER as int && self.lists()[oi].contains(buddy_of(fi, oi)) {
                        let q = choose|q: int|
                            0 <= q < self.lists()[oi].len() && self.lists()[oi][q] == buddy_of(
                                fi,
                                oi,
                            );
                        assert(self.lists()[oi][q] + p2(oi) <= fi);
                        assert(buddy_of(fi, oi) == fi - p2(oi));
                        assert(self.lists()[oi][q] + p2(oi + 1) > self.count());
                        lemma_p2_unfold(oi);
                        assert(false);
                    }
                }
                self.link(frame, ord);
                proof {
                    let oi = ord as int;
                    let fi = frame as int;
                    crate::model::lemma_free_total_below_update(
                        pre.lists(),
                        oi,
                        seq![fi] + pre.lists()[oi],
                        FREE_LIST_LEN as int,
                    );
                    assert(((seq![fi] + pre.lists()[oi]).len() - pre.lists()[oi].len()) * p2(oi)
                        == p2(oi)) by (nonlinear_arith)
                        requires
                            (seq![fi] + pre.lists()[oi]).len() == pre.lists()[oi].len() + 1,
                    ;
                    assert(free_total(self.lists()) == fi + p2(oi));
                    // Blocks stay below the advanced cursor.
                    assert forall|o2: int, p2x: int|
                        0 <= o2 < FREE_LIST_LEN && 0 <= p2x < self.lists()[o2].len()
                        implies #[trigger] self.lists()[o2][p2x] + p2(o2) <= fi + p2(oi) by {
                        if o2 == oi && p2x == 0 {
                        } else {
                            let pp: int = if o2 == oi {
                                p2x - 1
                            } else {
                                p2x
                            };
                            assert(self.lists()[o2][p2x] == pre.lists()[o2][pp]);
                            assert(pre.lists()[o2][pp] + p2(o2) <= fi);
                        }
                    }
                    assert forall|o2: int, p2x: int|
                        0 <= o2 < MAX_ORDER as int && 0 <= p2x < self.lists()[o2].len()
                        implies #[trigger] self.lists()[o2][p2x] + p2(o2 + 1)
                        > self.count() by {
                        if o2 == oi && p2x == 0 {
                        } else {
                            let pp: int = if o2 == oi {
                                p2x - 1
                            } else {
                                p2x
                            };
                            assert(self.lists()[o2][p2x] == pre.lists()[o2][pp]);
                            assert(pre.lists()[o2][pp] + p2(o2 + 1) > self.count());
                        }
                    }
                    // Alignment of the advanced cursor.
                    assert((fi + p2(oi)) % p2(oi) == 0) by {
                        vstd::arithmetic::div_mod::lemma_fundamental_div_mod(fi, p2(oi));
                        let q = fi / p2(oi);
                        assert(fi + p2(oi) == (q + 1) * p2(oi) + 0) by (nonlinear_arith)
                            requires
                                fi == p2(oi) * q,
                        ;
                        vstd::arithmetic::div_mod::lemma_fundamental_div_mod_converse(
                            fi + p2(oi),
                            p2(oi),
                            q + 1,
                            0,
                        );
                    }
                }
                frame = frame + p;
            }
        }
    }

    /// Initializes the zone with type `type_`. The zone covers the memory
    /// from address `begin` to `begin + size`, holds no allocated pages,
    /// and has all of its pages linked into the free lists.
    pub fn init(&mut self, type_: Flags, begin: usize, size: usize)
        requires
            begin as int % PAGE_SIZE as int == 0,
            size as int % PAGE_SIZE as int == 0,
            begin + size <= usize::MAX,
            size as int / (PAGE_SIZE as int + FRAME_META_SIZE as int) < FRAME_STATE_USED as int,
        ensures
            final(self).wf(),
            final(self).allocated() == 0,
            final(self).ztype() == type_ as int,
            final(self).begin_spec() == begin as int,
            final(self).size_spec() == size as int,
            final(self).count() == size as int / (PAGE_SIZE as int + FRAME_META_SIZE as int),
            final(self).lists() == greedy_fill(
                size as int / (PAGE_SIZE as int + FRAME_META_SIZE as int),
                0,
                MAX_ORDER as int,
                Seq::new(FREE_LIST_LEN as nat, |o: int| Seq::<int>::empty()),
            ),
    {
        self.type_ = type_;
        self.allocated_pages = 0;
        self.begin = begin;
        self.size = size;
        let count = (size / (PAGE_SIZE + FRAME_META_SIZE)) as FrameID;
        let mut frames: Vec<Frame> = Vec::new();
        let mut i: FrameID = 0;
        while i < count
            invariant
                i <= count,
                frames@.len() == i as int,
                forall|j: int|
                    0 <= j < i as int ==> (#[trigger] frames@[j]) == (Frame {
                        prev: FRAME_STATE_USED,
                        next: 0,
                        order: 0,
                        id: j as FrameID,
                    }),
            decreases count - i,
        {
            frames.push(Frame { prev: FRAME_STATE_USED, next: 0, order: 0, id: i });
            i = i + 1;
        }
        self.frames = frames;
        self.free_list = vec![None; FREE_LIST_LEN];
        proof {
            self.free_seqs@ = Seq::new(FREE_LIST_LEN as nat, |o: int| Seq::<int>::empty());
            assert(self.count() == count as int);
            assert forall|o: int| 0 <= o < FREE_LIST_LEN implies head_ok(
                #[trigger] self.free_list@[o],
                self.lists()[o],
            ) by {}
            assert(self.tables_wf());
            crate::model::lemma_free_total_below_empty(self.lists(), FREE_LIST_LEN as int);
        }
        self.fill_free_list();
    }
}

/// Member records of well-formed free lists are in range, do not carry the
/// used sentinel, and record their list's order and their own identifier.
pub proof fn lemma_members_linked(frames: Seq<Frame>, lists: Seq<Seq<int>>, count: int)
    requires
        lists_entries_ok(frames, lists),
        frames.len() == count,
        count < FRAME_STATE_USED as int,
    ensures
        forall|o: int, p: int|
            0 <= o < lists.len() && 0 <= p < lists[o].len() ==> 0 <= #[trigger] lists[o][p]
                < count && frames[lists[o][p]].prev != FRAME_STATE_USED
                && frames[lists[o][p]].order as int == o && frames[lists[o][p]].id as int
                == lists[o][p],
{
    assert forall|o: int, p: int|
        0 <= o < lists.len() && 0 <= p < lists[o].len() implies 0 <= #[trigger] lists[o][p]
        < count && frames[lists[o][p]].prev != FRAME_STATE_USED && frames[lists[o][p]].order as int
        == o && frames[lists[o][p]].id as int == lists[o][p] by {
        assert(entry_ok(frames, lists[o], o, p));
        if p > 0 {
            assert(entry_ok(frames, lists[o], o, p - 1));
        }
    }
}

/// The interior frames of a free block (every frame of the block but its
/// head) carry the used sentinel: a linked record there would name a free
/// block overlapping the enclosing one.
pub proof fn lemma_interior_used(frames: Seq<Frame>, lists: Seq<Seq<int>>, count: int, bid: int, bo: int)
    requires
        frames_truth(frames, lists),
        lists_disjoint(lists),
        lists_geometry(count, lists),
        lists.len() == FREE_LIST_LEN,
        frames.len() == count,
        exists|o: int, p: int|
            0 <= o < lists.len() && 0 <= p < lists[o].len() && lists[o][p] == bid && o == bo,
    ensures
        forall|j: int|
            bid < j < bid + p2(bo) && j < count ==> (#[trigger] frames[j]).prev
                == FRAME_STATE_USED,
{
    let (o, p): (int, int) = choose|o: int, p: int|
        0 <= o < lists.len() && 0 <= p < lists[o].len() && lists[o][p] == bid && o == bo;
    assert(block_wf(count, bid, bo));
    assert forall|j: int|
        bid < j < bid + p2(bo) && j < count implies (#[trigger] frames[j]).prev
        == FRAME_STATE_USED by {
        if frames[j].prev != FRAME_STATE_USED {
            let oj = frames[j].order as int;
            assert(lists[oj].contains(j));
            let q = choose|q: int| 0 <= q < lists[oj].len() && lists[oj][q] == j;
            lemma_p2_pos(oj);
            lemma_p2_pos(bo);
            assert(blocks_disjoint(lists[o][p], o, lists[oj][q], oj));
            assert(false);
        }
    }
}

/// A member of a free list of a well-formed zone is a valid frame whose
/// record does not carry the used sentinel.
pub proof fn lemma_member_record_free(z: Zone, o: int, p: int)
    requires
        z.wf(),
        0 <= o < FREE_LIST_LEN,
        0 <= p < z.lists()[o].len(),
    ensures
        0 <= z.lists()[o][p] < z.count(),
        z.frame_at(z.lists()[o][p]).prev != FRAME_STATE_USED,
{
    lemma_members_linked(z.frames@, z.lists(), z.count());
}

/// Each zone of a well-formed registry is well formed, and its allocated
/// page counter stays within the zone's capacity.
pub proof fn lemma_zones_zone_wf(zones: Zones, i: int)
    requires
        zones.wf(),
        0 <= i < 3,
    ensures
        zones.zone(i).wf(),
        0 <= zones.zone(i).allocated() <= zones.zone(i).count(),
{
    crate::model::lemma_free_total_below_nonneg(zones.zone(i).lists(), FREE_LIST_LEN as int);
}

/// An allocated block's pages are all accounted for in the zone's
/// allocated page counter: the free blocks and the allocated block are
/// pairwise disjoint within the zone, so the free total leaves room for
/// the block.
pub proof fn lemma_allocated_block_counted(z: Zone, id: int, order: int)
    requires
        z.wf(),
        z.is_allocated_block(id, order),
    ensures
        p2(order) <= z.allocated(),
{
    crate::model::lemma_disjoint_block_fits(z.lists(), z.count(), id, order);
}

/// The data region of a well-formed zone lies within the zone's byte
/// range.
pub proof fn lemma_zone_owns_data(z: Zone)
    requires
        z.wf(),
    ensures
        z.begin_spec() <= z.data_begin_spec(),
        z.data_begin_spec() + z.count() * PAGE_SIZE as int <= z.begin_spec() + z.size_spec(),
{
    lemma_data_region_fits(z.begin_spec(), z.size_spec());
}

/// The registry of buddy allocator zones, one per zone type, created once
/// at boot by [`init`] and handed to the kernel's boot sequence.
pub struct Zones {
    /// The zones, indexed by their type value.
    zones: Vec<Zone>,
}

/// The zone type selected by allocator `flags`.
pub open spec fn zone_index(flags: Flags) -> int {
    (flags & ZONE_TYPE_MASK) as int
}

/// Address `ptr` lies within the byte range of zone `z`.
pub open spec fn zone_contains(z: Zone, ptr: int) -> bool {
    z.begin_spec() <= ptr < z.begin_spec() + z.size_spec()
}

/// The index of the first zone whose byte range contains address `ptr`, or
/// `3` when none does.
pub open spec fn owning_zone(zones: Zones, ptr: int) -> int {
    if zone_contains(zones.zone(0), ptr) {
        0
    } else if zone_contains(zones.zone(1), ptr) {
        1
    } else if zone_contains(zones.zone(2), ptr) {
        2
    } else {
        3
    }
}

impl Zones {
    /// The zone at index `i`.
    pub closed spec fn zone(self, i: int) -> Zone {
        self.zones@[i]
    }

    /// Well-formedness: there is exactly one well-formed zone per type,
    /// stored at the index equal to its type value, and the page counts
    /// are small enough to sum without overflow.
    pub closed spec fn wf(self) -> bool {
        &&& self.zones@.len() == 3
        &&& forall|i: int| 0 <= i < 3 ==> (#[trigger] self.zones@[i]).wf()
        &&& forall|i: int| 0 <= i < 3 ==> (#[trigger] self.zones@[i]).ztype() == i
        &&& self.zones@[0].count() + self.zones@[1].count() + self.zones@[2].count()
            <= usize::MAX
    }
}

/// The boot-time physical memory map the allocator is initialized from.
pub struct MemmapInfo {
    /// The address of the first byte available for allocation, page
    /// aligned.
    pub phys_alloc_begin: usize,
    /// The number of available bytes from that address, a multiple of the
    /// page size.
    pub available_memory: usize,
}

/// Initializes the buddy allocator: partitions the available physical
/// memory into the three zones. The kernel zone covers the available
/// memory up to [`KERNEL_ZONE_LIMIT`], the user zone covers the remainder
/// above it, and the DMA zone is left empty and reserved.
pub fn init(mmap_info: &MemmapInfo) -> (r: Zones)
    requires
        mmap_info.phys_alloc_begin as int % PAGE_SIZE as int == 0,
        mmap_info.available_memory as int % PAGE_SIZE as int == 0,
        mmap_info.phys_alloc_begin + mmap_info.available_memory <= usize::MAX,
        mmap_info.phys_alloc_begin <= KERNEL_ZONE_LIMIT,
        mmap_info.available_memory as int / (PAGE_SIZE as int + FRAME_META_SIZE as int)
            < FRAME_STATE_USED as int,
    ensures
        r.wf(),
        ({
            let begin = mmap_info.phys_alloc_begin as int;
            let end = begin + mmap_info.available_memory as int;
            let kernel_end = if end < KERNEL_ZONE_LIMIT as int {
                end
            } else {
                KERNEL_ZONE_LIMIT as int
            };
            &&& r.zone(1).begin_spec() == begin
            &&& r.zone(1).size_spec() == kernel_end - begin
            &&& r.zone(0).begin_spec() == kernel_end
            &&& r.zone(0).size_spec() == end - kernel_end
            &&& r.zone(2).size_spec() == 0
            &&& r.zone(0).allocated() == 0
            &&& r.zone(1).allocated() == 0
            &&& r.zone(2).allocated() == 0
            &&& forall|i: int|
                0 <= i < 3 ==> #[trigger] r.zone(i).lists() == greedy_fill(
                    r.zone(i).count(),
                    0,
                    MAX_ORDER as int,
                    Seq::new(FREE_LIST_LEN as nat, |o: int| Seq::<int>::empty()),
                )
        }),
{
    let begin = mmap_info.phys_alloc_begin;
    let end = begin + mmap_info.available_memory;
    let kernel_end = if end < KERNEL_ZONE_LIMIT {
        end
    } else {
        KERNEL_ZONE_LIMIT
    };
    let kernel_size = kernel_end - begin;
    let user_size = end - kernel_end;
    proof {
        let slot = PAGE_SIZE as int + FRAME_META_SIZE as int;
        // Both zone sizes stay page aligned and their page counts fit the
        // frame identifier type.
        assert(KERNEL_ZONE_LIMIT as int % PAGE_SIZE as int == 0);
        vstd::arithmetic::div_mod::lemma_sub_mod_noop(
            kernel_end as int,
            begin as int,
            PAGE_SIZE as int,
        );
        vstd::arithmetic::div_mod::lemma_sub_mod_noop(
            end as int,
            kernel_end as int,
            PAGE_SIZE as int,
        );
        vstd::arithmetic::div_mod::lemma_add_mod_noop(
            begin as int,
            mmap_info.available_memory as int,
            PAGE_SIZE as int,
        );
        vstd::arithmetic::div_mod::lemma_small_mod(0nat, PAGE_SIZE as nat);
        vstd::arithmetic::div_mod::lemma_div_is_ordered(
            kernel_size as int,
            mmap_info.available_memory as int,
            slot,
        );
        vstd::arithmetic::div_mod::lemma_div_is_ordered(
            user_size as int,
            mmap_info.available_memory as int,
            slot,
        );
        vstd::arithmetic::div_mod::lemma_small_mod(0nat, PAGE_SIZE as nat);
    }
    let mut user = Zone {
        type_: 0,
        allocated_pages: 0,
        begin: 0,
        size: 0,
        frames: Vec::new(),
        free_list: Vec::new(),
        free_seqs: Ghost(Seq::empty()),
    };
    user.init(FLAG_ZONE_TYPE_USER, kernel_end, user_size);
    let mut kernel = Zone {
        type_: 0,
        allocated_pages: 0,
        begin: 0,
        size: 0,
        frames: Vec::new(),
        free_list: Vec::new(),
        free_seqs: Ghost(Seq::empty()),
    };
    kernel.init(FLAG_ZONE_TYPE_KERNEL, begin, kernel_size);
    let mut dma = Zone {
        type_: 0,
        allocated_pages: 0,
        begin: 0,
        size: 0,
        frames: Vec::new(),
        free_list: Vec::new(),
        free_seqs: Ghost(Seq::empty()),
    };
    dma.init(FLAG_ZONE_TYPE_DMA, 0, 0);
    let mut zones_vec: Vec<Zone> = Vec::new();
    zones_vec.push(user);
    zones_vec.push(kernel);
    zones_vec.push(dma);
    let r = Zones { zones: zones_vec };
    proof {
        let slot = PAGE_SIZE as int + FRAME_META_SIZE as int;
        // Each zone's page count is at most its byte size, so the three
        // counts sum without overflow.
        assert forall|i: int| 0 <= i < 3 implies #[trigger] r.zone(i).count()
            <= r.zone(i).size_spec() by {
            let c = r.zone(i).count();
            let s = r.zone(i).size_spec();
            vstd::arithmetic::div_mod::lemma_div_pos_is_pos(s, slot);
            vstd::arithmetic::div_mod::lemma_fundamental_div_mod(s, slot);
            vstd::arithmetic::div_mod::lemma_mod_bound(s, slot);
            assert(c <= s) by (nonlinear_arith)
                requires
                    s == slot * c + s % slot,
                    s % slot >= 0,
                    c >= 0,
                    slot > 1,
            ;
        }
        assert(r.zone(0).count() <= r.zone(0).size_spec());
        assert(r.zone(1).count() <= r.zone(1).size_spec());
        assert(r.zone(2).count() <= r.zone(2).size_spec());
        assert(r.wf());
    }
    r
}

/// Returns the index of the zone suitable for an allocation with the given
/// type `type_`.
fn get_suitable_zone(zones: &Zones, type_: Flags) -> (r: Option<usize>)
    requires
        zones.wf(),
    ensures
        match r {
            Option::Some(i) => i < 3 && i as int == type_ as int,
            Option::None => !(0 <= type_ < 3),
        },
{
    let mut i: usize = 0;
    while i < 3
        invariant
            zones.wf(),
            i <= 3,
            forall|j: int| 0 <= j < i as int ==> #[trigger] zones.zone(j).ztype() != type_ as int,
        decreases 3 - i,
    {
        if zones.zones[i].type_ == type_ {
            return Some(i);
        }
        i = i + 1;
    }
    proof {
        if 0 <= type_ < 3 {
            assert(zones.zone(type_ as int).ztype() == type_ as int);
        }
    }
    None
}

/// Returns the index of the zone that contains the address `ptr`.
fn get_zone_for_pointer(zones: &Zones, ptr: usize) -> (r: Option<usize>)
    requires
        zones.wf(),
    ensures
        match r {
            Option::Some(i) => i < 3 && owning_zone(*zones, ptr as int) == i as int,
            Option::None => owning_zone(*zones, ptr as int) == 3,
        },
{
    let mut i: usize = 0;
    while i < 3
        invariant
            zones.wf(),
            i <= 3,
            forall|j: int|
                0 <= j < i as int ==> !zone_contains(#[trigger] zones.zone(j), ptr as int),
        decreases 3 - i,
    {
        let z = &zones.zones[i];
        if ptr >= z.begin && ptr - z.begin < z.size {
            return Some(i);
        }
        i = i + 1;
    }
    None
}

/// Returns the total number of pages allocated by the buddy allocator
/// across all zones.
pub fn allocated_pages(zones: &Zones) -> (r: usize)
    requires
        zones.wf(),
    ensures
        r as int == zones.zone(0).allocated() + zones.zone(1).allocated() + zones.zone(
            2,
        ).allocated(),
{
    proof {
        assert forall|i: int| 0 <= i < 3 implies #[trigger] zones.zone(i).allocated()
            <= zones.zone(i).count() by {
            assert(zones.zone(i).wf());
            crate::model::lemma_free_total_below_nonneg(
                zones.zone(i).lists(),
                FREE_LIST_LEN as int,
            );
        }
        assert(zones.zone(0).allocated() <= zones.zone(0).count());
        assert(zones.zone(1).allocated() <= zones.zone(1).count());
        assert(zones.zone(2).allocated() <= zones.zone(2).count());
    }
    let mut n: usize = zones.zones[0].get_allocated_pages();
    n = n + zones.zones[1].get_allocated_pages();
    n = n + zones.zones[2].get_allocated_pages();
    n
}

/// Allocates a frame of memory of `2^order` pages using the buddy
/// allocator and returns its address. The zone is selected by `flags`; the
/// first free block of sufficient order is split down to the requested
/// order, the split-off halves seeding the free lists on the way. Fails
/// with an out-of-memory result when no zone matches the flags or no free
/// block of sufficient order exists.
#[verifier::rlimit(100)]
pub fn alloc_frame(zones: &mut Zones, order: FrameOrder, flags: Flags) -> (r: Result<usize, ()>)
    requires
        old(zones).wf(),
        order <= MAX_ORDER,
    ensures
        final(zones).wf(),
        ({
            let zi = zone_index(flags);
            let z0 = old(zones).zone(zi);
            let f = first_free_order(z0.lists(), order as int);
            match r {
                Result::Ok(ptr) => {
                    let h = z0.lists()[f][0];
                    &&& 0 <= zi < 3
                    &&& f < FREE_LIST_LEN
                    &&& final(zones).zone(zi).lists() == split_links(
                        take_head(z0.lists(), f),
                        h,
                        order as int,
                        f,
                    )
                    &&& final(zones).zone(zi).allocated() == z0.allocated() + p2(order as int)
                    &&& final(zones).zone(zi).begin_spec() == z0.begin_spec()
                    &&& final(zones).zone(zi).size_spec() == z0.size_spec()
                    &&& final(zones).zone(zi).ztype() == z0.ztype()
                    &&& final(zones).zone(zi).count() == z0.count()
                    &&& final(zones).zone(zi).data_begin_spec() == z0.data_begin_spec()
                    &&& ptr as int == z0.data_begin_spec() + h * PAGE_SIZE as int
                    &&& final(zones).zone(zi).is_allocated_block(h, order as int)
                    &&& (ptr as int - z0.data_begin_spec()) % (p2(order as int)
                        * PAGE_SIZE as int) == 0
                    &&& (z0.data_begin_spec() % (p2(order as int) * PAGE_SIZE as int) == 0
                        ==> ptr as int % (p2(order as int) * PAGE_SIZE as int) == 0)
                    &&& forall|k: int|
                        0 <= k < 3 && k != zi ==> final(zones).zone(k) == old(zones).zone(k)
                    &&& forall|a: int, ao: int|
                        #[trigger] z0.is_allocated_block(a, ao) && 0 <= ao <= MAX_ORDER as int
                            ==> final(zones).zone(zi).is_allocated_block(a, ao)
                },
                Result::Err(_) => {
                    &&& (!(0 <= zi < 3) || f == FREE_LIST_LEN as int)
                    &&& *final(zones) == *old(zones)
                },
            }
        }),
{
    let t = flags & ZONE_TYPE_MASK;
    let zi = match get_suitable_zone(zones, t) {
        Option::Some(zi) => zi,
        Option::None => {
            return Err(());
        },
    };
    let fid = match zones.zones[zi].get_available_frame(order) {
        Option::Some(fid) => fid,
        Option::None => {
            return Err(());
        },
    };
    let ghost z0 = zones.zone(zi as int);
    let ghost f = first_free_order(z0.lists(), order as int);
    let ghost h = z0.lists()[f][0];
    let z = &mut zones.zones[zi];
    proof {
        lemma_ffo_props(z0.lists(), order as int);
        lemma_members_linked(z0.frames@, z0.lists(), z0.count());
        assert(entry_ok(z0.frames@, z0.lists()[f], f, 0));
        lemma_interior_used(z0.frames@, z0.lists(), z0.count(), h, f);
    }
    z.unlink(fid);
    proof {
        // The head was the first member of its list, so removing it takes
        // the head off the model sequence.
        let s = z0.lists()[f];
        s.index_of_first_ensures(h);
        assert(s.index_of_first(h).unwrap() == 0);
        assert(s.remove(0) =~= s.drop_first());
        assert(z.lists() == take_head(z0.lists(), f));
        s.remove_ensures(0);
        // The detached block is disjoint from every remaining free block.
        assert forall|o2: int, p2x: int|
            0 <= o2 < FREE_LIST_LEN && 0 <= p2x < z.lists()[o2].len() implies blocks_disjoint(
            h,
            f,
            #[trigger] z.lists()[o2][p2x],
            o2,
        ) by {
            let pp: int = if o2 == f {
                p2x + 1
            } else {
                p2x
            };
            assert(z.lists()[o2][p2x] == z0.lists()[o2][pp]);
            assert(blocks_disjoint(z0.lists()[f][0], f, z0.lists()[o2][pp], o2));
        }
    }
    z.split(fid, order);
    let ghost zs = *z;
    proof {
        let oi = order as int;
        assert(pow2(order as nat) <= 0x20000) by {
            vstd::arithmetic::power2::lemma_pow2_adds(order as nat, (17 - oi) as nat);
            lemma_p2_pos(17 - oi);
            vstd::arithmetic::power2::lemma2_to64();
            vstd::arithmetic::mul::lemma_mul_increases(
                pow2((17 - oi) as nat) as int,
                pow2(order as nat) as int,
            );
        }
        vstd::bits::lemma_usize_shl_is_mul(1usize, order as usize);
        // The allocated counter may grow by the block's pages without
        // leaving the zone's capacity.
        lemma_free_total_take_head(z0.lists(), f);
        lemma_free_total_split_links(take_head(z0.lists(), f), h, oi, f);
        crate::model::lemma_free_total_below_nonneg(z.lists(), FREE_LIST_LEN as int);
        assert(free_total(z.lists()) == free_total(z0.lists()) - p2(oi));
        lemma_p2_pos(oi);
    }
    z.allocated_pages = z.allocated_pages + (1usize << (order as usize));
    let fr = z.get_frame(fid);
    let ptr = fr.get_ptr(z);
    proof {
        let oi = order as int;
        let m = p2(oi) * PAGE_SIZE as int;
        assert(m > 0) by (nonlinear_arith)
            requires
                p2(oi) > 0,
                m == p2(oi) * PAGE_SIZE as int,
        ;
        // The returned address is aligned to the block size relative to
        // the start of the data region.
        lemma_p2_divides(h, oi, f);
        vstd::arithmetic::div_mod::lemma_fundamental_div_mod(h, p2(oi));
        let k = h / p2(oi);
        assert(h * PAGE_SIZE as int == k * m + 0) by (nonlinear_arith)
            requires
                h == p2(oi) * k,
                m == p2(oi) * PAGE_SIZE as int,
        ;
        vstd::arithmetic::div_mod::lemma_fundamental_div_mod_converse(
            h * PAGE_SIZE as int,
            m,
            k,
            0,
        );
        assert((ptr as int - z0.data_begin_spec()) % m == 0);
        if z0.data_begin_spec() % m == 0 {
            vstd::arithmetic::div_mod::lemma_add_mod_noop(
                z0.data_begin_spec(),
                h * PAGE_SIZE as int,
                m,
            );
            vstd::arithmetic::div_mod::lemma_small_mod(0nat, m as nat);
        }
        // The allocated block is aligned and within the zone at the
        // requested order as well.
        if oi < f {
            vstd::arithmetic::power2::lemma_pow2_strictly_increases(order as nat, f as nat);
        }
        assert(block_wf(z.count(), h, oi));
        assert(z.is_allocated_block(h, oi));
        // The zone, and so the registry, is fully well formed again.
        assert(z.wf());
        assert(final(zones).zone(zi as int) == *final(z));
        assert forall|kk: int| 0 <= kk < 3 && kk != zi as int implies final(zones).zone(kk)
            == old(zones).zone(kk) by {}
        // Blocks that were already allocated survive the allocation: their
        // records lie outside the split block, and the new free blocks all
        // lie inside it.
        assert forall|a: int, ao: int|
            #[trigger] z0.is_allocated_block(a, ao) && 0 <= ao <= MAX_ORDER as int
            implies z.is_allocated_block(a, ao) by {
            lemma_p2_pos(ao);
            lemma_p2_pos(f);
            assert(blocks_disjoint(a, ao, z0.lists()[f][0], f));
            assert(!(h <= a < h + p2(f)));
            assert(zs.frames@[a] == z0.frames@[a]);
            assert(z.frame_at(a) == z0.frame_at(a));
            assert forall|o2: int, p2v: int|
                0 <= o2 < FREE_LIST_LEN && 0 <= p2v < z.lists()[o2].len()
                implies blocks_disjoint(a, ao, #[trigger] z.lists()[o2][p2v], o2) by {
                lemma_p2_pos(o2);
                if oi <= o2 < f && p2v == 0 {
                    assert(z.lists()[o2][p2v] == h + p2(o2));
                    lemma_p2_unfold(o2);
                    if o2 + 1 < f {
                        vstd::arithmetic::power2::lemma_pow2_strictly_increases(
                            (o2 + 1) as nat,
                            f as nat,
                        );
                    }
                    assert(h + p2(o2) + p2(o2) <= h + p2(f));
                } else {
                    let pp: int = if oi <= o2 < f {
                        p2v - 1
                    } else {
                        p2v
                    };
                    let ppf: int = if o2 == f {
                        pp + 1
                    } else {
                        pp
                    };
                    assert(z.lists()[o2][p2v] == z0.lists()[o2][ppf]);
                    assert(blocks_disjoint(a, ao, z0.lists()[o2][ppf], o2));
                }
            }
        }
    }
    Ok(ptr)
}

/// Uses [`alloc_frame`] and zero-fills the allocated frame. The contents
/// of physical memory lie outside this model, so the zeroing itself leaves
/// no trace in the contract; the allocator state changes exactly as for
/// [`alloc_frame`].
pub fn alloc_zero(zones: &mut Zones, order: FrameOrder, flags: Flags) -> (r: Result<usize, ()>)
    requires
        old(zones).wf(),
        order <= MAX_ORDER,
    ensures
        final(zones).wf(),
        ({
            let zi = zone_index(flags);
            let z0 = old(zones).zone(zi);
            let f = first_free_order(z0.lists(), order as int);
            match r {
                Result::Ok(ptr) => {
                    let h = z0.lists()[f][0];
                    &&& 0 <= zi < 3
                    &&& f < FREE_LIST_LEN
                    &&& final(zones).zone(zi).lists() == split_links(
                        take_head(z0.lists(), f),
                        h,
                        order as int,
                        f,
                    )
                    &&& final(zones).zone(zi).allocated() == z0.allocated() + p2(order as int)
                    &&& ptr as int == z0.data_begin_spec() + h * PAGE_SIZE as int
                    &&& final(zones).zone(zi).is_allocated_block(h, order as int)
                    &&& final(zones).zone(zi).begin_spec() == z0.begin_spec()
                    &&& final(zones).zone(zi).size_spec() == z0.size_spec()
                    &&& final(zones).zone(zi).ztype() == z0.ztype()
                    &&& final(zones).zone(zi).count() == z0.count()
                    &&& final(zones).zone(zi).data_begin_spec() == z0.data_begin_spec()
                    &&& forall|k: int|
                        0 <= k < 3 && k != zi ==> final(zones).zone(k) == old(zones).zone(k)
                    &&& forall|a: int, ao: int|
                        #[trigger] z0.is_allocated_block(a, ao) && 0 <= ao <= MAX_ORDER as int
                            ==> final(zones).zone(zi).is_allocated_block(a, ao)
                },
                Result::Err(_) => {
                    &&& (!(0 <= zi < 3) || f == FREE_LIST_LEN as int)
                    &&& *final(zones) == *old(zones)
                },
            }
        }),
{
    alloc_frame(zones, order, flags)
}

/// Frees the given memory frame that was allocated using the buddy
/// allocator. The given `order` must be the same as the one given when
/// allocating the frame; the freed block is coalesced with its free
/// buddies and linked back into its zone's free list.
#[verifier::rlimit(100)]
pub fn free(zones: &mut Zones, ptr: usize, order: FrameOrder)
    requires
        old(zones).wf(),
        order <= MAX_ORDER,
        owning_zone(*old(zones), ptr as int) < 3,
        ({
            let z = old(zones).zone(owning_zone(*old(zones), ptr as int));
            &&& z.data_begin_spec() <= ptr as int
            &&& (ptr as int) < z.data_begin_spec() + z.count() * PAGE_SIZE as int
            &&& (ptr as int - z.data_begin_spec()) % (PAGE_SIZE as int) == 0
            &&& z.is_allocated_block(
                (ptr as int - z.data_begin_spec()) / (PAGE_SIZE as int),
                order as int,
            )
        }),
    ensures
        final(zones).wf(),
        ({
            let zi = owning_zone(*old(zones), ptr as int);
            let z = old(zones).zone(zi);
            let id = (ptr as int - z.data_begin_spec()) / (PAGE_SIZE as int);
            &&& final(zones).zone(zi).lists() == coalesce_lists(z.lists(), id, order as int)
            &&& final(zones).zone(zi).allocated() == z.allocated() - p2(order as int)
            &&& final(zones).zone(zi).begin_spec() == z.begin_spec()
            &&& final(zones).zone(zi).size_spec() == z.size_spec()
            &&& final(zones).zone(zi).ztype() == z.ztype()
            &&& final(zones).zone(zi).count() == z.count()
            &&& final(zones).zone(zi).data_begin_spec() == z.data_begin_spec()
            &&& forall|k: int|
                0 <= k < 3 && k != zi ==> final(zones).zone(k) == old(zones).zone(k)
            &&& forall|a: int, ao: int|
                #[trigger] z.is_allocated_block(a, ao) && 0 <= ao <= MAX_ORDER as int
                    && blocks_disjoint(a, ao, id, order as int) ==> final(zones).zone(
                    zi,
                ).is_allocated_block(a, ao)
        }),
{
    let zi = match get_zone_for_pointer(zones, ptr) {
        Option::Some(zi) => zi,
        Option::None => {
            return vstd::pervasive::unreached();
        },
    };
    let ghost z0 = zones.zone(zi as int);
    let ghost oi = order as int;
    let z = &mut zones.zones[zi];
    let frame_id = z.get_frame_id_from_ptr(ptr);
    let ghost idg = frame_id as int;
    proof {
        let fs = pow2(order as nat);
        assert(pow2(order as nat) <= 0x20000) by {
            vstd::arithmetic::power2::lemma_pow2_adds(order as nat, (17 - oi) as nat);
            lemma_p2_pos(17 - oi);
            vstd::arithmetic::power2::lemma2_to64();
            vstd::arithmetic::mul::lemma_mul_increases(
                pow2((17 - oi) as nat) as int,
                pow2(order as nat) as int,
            );
        }
        vstd::bits::lemma_usize_shl_is_mul(1usize, order as usize);
        lemma_allocated_block_counted(z0, idg, oi);
    }
    z.allocated_pages = z.allocated_pages - (1usize << (order as usize));
    proof {
        lemma_p2_pos(oi);
        // The interior frames of the freed block all carry the used
        // sentinel: a linked record inside the block would name a free
        // block overlapping it, against the block's disjointness.
        assert forall|j: int|
            idg < j < idg + p2(oi) implies (#[trigger] z.frames@[j]).prev
            == FRAME_STATE_USED by {
            if z.frames@[j].prev != FRAME_STATE_USED {
                let oj = z.frames@[j].order as int;
                assert(z.lists()[oj].contains(j));
                let q = choose|q: int| 0 <= q < z.lists()[oj].len() && z.lists()[oj][q] == j;
                lemma_p2_pos(oj);
                assert(blocks_disjoint(idg, oi, z.lists()[oj][q], oj));
                assert(false);
            }
        }
    }
    let ghost zmid = *z;
    z.coalesce(frame_id);
    proof {
        lemma_free_total_coalesce(z0.lists(), idg, oi);
        assert(z.wf());
        assert(final(zones).zone(zi as int) == *final(z));
        assert forall|kk: int| 0 <= kk < 3 && kk != zi as int implies final(zones).zone(kk)
            == old(zones).zone(kk) by {}
        // Other allocated blocks, disjoint from the freed one, survive the
        // free untouched.
        assert forall|a: int, ao: int|
            #[trigger] z0.is_allocated_block(a, ao) && 0 <= ao <= MAX_ORDER as int
                && blocks_disjoint(a, ao, idg, oi) implies z.is_allocated_block(a, ao) by {
            assert(zmid.is_allocated_block(a, ao)) by {
                assert(zmid.frames@ == z0.frames@ && zmid.lists() == z0.lists() && zmid.count()
                    == z0.count());
            }
            assert(z.frame_at(a) == zmid.frame_at(a));
        }
    }
}

/// The size in bytes of a frame allocated by the buddy allocator with the
/// given `order`.
pub fn get_frame_size(order: FrameOrder) -> (r: usize)
    requires
        order <= MAX_ORDER,
    ensures
        r as int == p2(order as int) * PAGE_SIZE as int,
{
    proof {
        let oi = order as int;
        assert(pow2(order as nat) <= 0x20000) by {
            vstd::arithmetic::power2::lemma_pow2_adds(order as nat, (17 - oi) as nat);
            lemma_p2_pos(17 - oi);
            vstd::arithmetic::power2::lemma2_to64();
            vstd::arithmetic::mul::lemma_mul_increases(
                pow2((17 - oi) as nat) as int,
                pow2(order as nat) as int,
            );
        }
        vstd::bits::lemma_usize_shl_is_mul(PAGE_SIZE, order as usize);
        assert(PAGE_SIZE as int * p2(oi) == p2(oi) * PAGE_SIZE as int) by (nonlinear_arith);
    }
    PAGE_SIZE << (order as usize)
}

/// Returns the smallest buddy order whose frame fits the given number of
/// pages.
pub fn get_order(pages: usize) -> (r: FrameOrder)
    requires
        pages <= usize::MAX / 2 + 1,
    ensures
        p2(r as int) >= pages,
        pages > 1 ==> p2(r as int - 1) < pages,
        pages <= 1 ==> r == 0,
{
    let mut order: FrameOrder = 0;
    let mut i: usize = 1;
    proof {
        vstd::arithmetic::power2::lemma2_to64();
    }
    while i < pages
        invariant
            pages <= usize::MAX / 2 + 1,
            i >= 1,
            i as int == p2(order as int),
            order > 0 ==> p2(order as int - 1) < pages,
            order < 64,
        decreases 64 - order as int,
    {
        proof {
            lemma_p2_unfold(order as int);
            lemma_p2_pos(order as int);
            assert(pow2(64) > usize::MAX) by {
                vstd::arithmetic::power2::lemma2_to64_rest();
            }
            if order as int + 1 >= 64 {
                assert(p2(order as int + 1) >= p2(64)) by {
                    if order as int + 1 > 64 {
                        vstd::arithmetic::power2::lemma_pow2_strictly_increases(
                            64nat,
                            (order + 1) as nat,
                        );
                    }
                }
                assert(false);
            }
        }
        i = i * 2;
        order = order + 1;
    }
    proof {
        if order > 0 {
            lemma_p2_pos(order as int - 1);
        }
    }
    order
}

/// After removing the member at `pos` from list `oi` and patching the
/// records of the removed frame and of its former neighbours, every list
/// member again matches its place and every free-looking record is linked.
#[verifier::rlimit(100)]
proof fn lemma_unlink_tables(
    fr0: Seq<Frame>,
    fr1: Seq<Frame>,
    gl0: Seq<Seq<int>>,
    oi: int,
    pos: int,
)
    requires
        gl0.len() == FREE_LIST_LEN,
        0 <= oi < FREE_LIST_LEN,
        0 <= pos < gl0[oi].len(),
        lists_entries_ok(fr0, gl0),
        lists_no_dup(gl0),
        frames_truth(fr0, gl0),
        frames_ids_ok(fr0),
        fr1.len() == fr0.len(),
        fr0.len() < FRAME_STATE_USED as int,
        fr1[gl0[oi][pos]] == (Frame { prev: FRAME_STATE_USED, ..fr0[gl0[oi][pos]] }),
        pos > 0 ==> fr1[gl0[oi][pos - 1]] == (Frame {
            next: (if pos < gl0[oi].len() - 1 {
                gl0[oi][pos + 1]
            } else {
                gl0[oi][pos - 1]
            }) as FrameID,
            ..fr0[gl0[oi][pos - 1]]
        }),
        pos < gl0[oi].len() - 1 ==> fr1[gl0[oi][pos + 1]] == (Frame {
            prev: (if pos > 0 {
                gl0[oi][pos - 1]
            } else {
                gl0[oi][pos + 1]
            }) as FrameID,
            ..fr0[gl0[oi][pos + 1]]
        }),
        forall|j: int|
            0 <= j < fr0.len() && j != gl0[oi][pos] && (pos == 0 || j != gl0[oi][pos - 1]) && (pos
                == gl0[oi].len() - 1 || j != gl0[oi][pos + 1]) ==> #[trigger] fr1[j] == fr0[j],
    ensures
        lists_entries_ok(fr1, gl0.update(oi, gl0[oi].remove(pos))),
        frames_truth(fr1, gl0.update(oi, gl0[oi].remove(pos))),
        frames_ids_ok(fr1),
{
    let s = gl0[oi];
    let idi = s[pos];
    let gl1 = gl0.update(oi, s.remove(pos));
    s.remove_ensures(pos);
    lemma_members_linked(fr0, gl0, fr0.len() as int);
    assert(entry_ok(fr0, s, oi, pos));
    assert forall|o2: int, p: int|
        0 <= o2 < FREE_LIST_LEN && 0 <= p < gl1[o2].len() implies #[trigger] entry_ok(
        fr1,
        gl1[o2],
        o2,
        p,
    ) by {
        if o2 != oi {
            assert(entry_ok(fr0, gl0[o2], o2, p));
            if p > 0 {
                assert(entry_ok(fr0, gl0[o2], o2, p - 1));
            }
            if p < gl0[o2].len() - 1 {
                assert(entry_ok(fr0, gl0[o2], o2, p + 1));
            }
            assert(fr0[gl0[o2][p]].order as int == o2 && fr0[idi].order as int == oi);
            if pos > 0 {
                assert(fr0[s[pos - 1]].order as int == oi);
            }
            if pos < s.len() - 1 {
                assert(fr0[s[pos + 1]].order as int == oi);
            }
        } else {
            let m: int = if p < pos {
                s[p]
            } else {
                s[p + 1]
            };
            assert(gl1[o2][p] == m);
            assert(entry_ok(fr0, s, oi, if p < pos {
                p
            } else {
                p + 1
            }));
            if p > 0 {
                assert(entry_ok(fr0, s, oi, if p - 1 < pos {
                    p - 1
                } else {
                    p
                }));
                assert(gl1[o2][p - 1] == (if p - 1 < pos {
                    s[p - 1]
                } else {
                    s[p]
                }));
            }
            if p < gl1[o2].len() - 1 {
                assert(gl1[o2][p + 1] == (if p + 1 < pos {
                    s[p + 1]
                } else {
                    s[p + 2]
                }));
            }
        }
    }
    assert forall|j: int|
        0 <= j < fr1.len() && (#[trigger] fr1[j]).prev != FRAME_STATE_USED implies 0 <= (
    fr1[j].order as int) < FREE_LIST_LEN && gl1[fr1[j].order as int].contains(j) by {
        assert(j != idi);
        assert(fr1[j].order == fr0[j].order && fr0[j].prev != FRAME_STATE_USED);
        let oj = fr0[j].order as int;
        assert(gl0[oj].contains(j));
        let q = choose|q: int| 0 <= q < gl0[oj].len() && gl0[oj][q] == j;
        if oj != oi {
            assert(gl1[oj][q] == j);
        } else {
            assert(q != pos);
            if q < pos {
                assert(gl1[oj][q] == j);
            } else {
                assert(gl1[oj][q - 1] == j);
            }
        }
    }
    assert forall|j: int| 0 <= j < fr1.len() implies (#[trigger] fr1[j]).id as int == j
        && fr1[j].next != FRAME_STATE_USED by {
        assert(fr0[j].id as int == j && fr0[j].next != FRAME_STATE_USED);
        if pos > 0 && j == s[pos - 1] {
            if pos < s.len() - 1 {
                assert(entry_ok(fr0, s, oi, pos + 1));
                assert(fr1[j].next as int == s[pos + 1]);
            } else {
                assert(fr1[j].next as int == s[pos - 1]);
            }
            assert((fr1[j].next as int) < fr0.len());
        }
    }
}

/// Within a page-aligned zone of `size` bytes at `begin`, the page-aligned
/// data region that follows one metadata record per page slot has room for
/// all `count` pages.
pub proof fn lemma_data_region_fits(begin: int, size: int)
    requires
        begin >= 0,
        size >= 0,
        begin % PAGE_SIZE as int == 0,
        size % PAGE_SIZE as int == 0,
        begin + size <= usize::MAX,
    ensures
        ({
            let count = size / (PAGE_SIZE as int + FRAME_META_SIZE as int);
            let db = align_up_spec(begin + count * FRAME_META_SIZE as int, PAGE_SIZE as int);
            &&& 0 <= count
            &&& count * (PAGE_SIZE as int + FRAME_META_SIZE as int) <= size
            &&& 0 <= count * FRAME_META_SIZE as int <= size
            &&& begin <= db
            &&& db + count * PAGE_SIZE as int <= begin + size
        }),
{
    let slot = PAGE_SIZE as int + FRAME_META_SIZE as int;
    let count = size / slot;
    vstd::arithmetic::div_mod::lemma_div_pos_is_pos(size, slot);
    vstd::arithmetic::div_mod::lemma_fundamental_div_mod(size, slot);
    vstd::arithmetic::div_mod::lemma_mod_bound(size, slot);
    assert(count * slot <= size);
    assert(count * FRAME_META_SIZE as int + count * PAGE_SIZE as int == count * slot)
        by (nonlinear_arith)
        requires
            slot == PAGE_SIZE as int + FRAME_META_SIZE as int,
    ;
    vstd::arithmetic::mul::lemma_mul_nonnegative(count, FRAME_META_SIZE as int);
    vstd::arithmetic::mul::lemma_mul_nonnegative(count, PAGE_SIZE as int);
    let x = begin + count * FRAME_META_SIZE as int;
    let m = begin + size - count * PAGE_SIZE as int;
    assert(x <= m);
    assert(m % PAGE_SIZE as int == 0) by {
        vstd::arithmetic::div_mod::lemma_mod_multiples_basic(count, PAGE_SIZE as int);
        vstd::arithmetic::div_mod::lemma_add_mod_noop(begin, size, PAGE_SIZE as int);
        vstd::arithmetic::div_mod::lemma_sub_mod_noop(
            begin + size,
            count * PAGE_SIZE as int,
            PAGE_SIZE as int,
        );
        vstd::arithmetic::div_mod::lemma_small_mod(0nat, PAGE_SIZE as nat);
    }
    lemma_align_up_le_multiple(x, PAGE_SIZE as int, m);
}

} // verus!
