//! Residence of mapped pages.
//!
//! A [`ResidencePage`] is a shared handle to one physical user page,
//! carrying a reference count; the [`PageStore`] owns all such handles and
//! couples them to the frame allocator: every live page is an allocated
//! order-`0` block of the user zone, and releasing the last reference
//! returns the page to the allocator. A [`MapResidence`] describes where a
//! mapped page's content comes from: anonymous zero-fill, possibly through
//! a shared pre-zeroed default page, or a backing file at a page offset.

use vstd::prelude::*;
use crate::memory::PAGE_SIZE;
use crate::buddy::{Zones, FLAG_ZONE_TYPE_USER, FREE_LIST_LEN, alloc_zero};
use crate::model::{p2, blocks_disjoint, first_free_order};

verus! {

/// A shared handle to one physical page, carrying a reference count. The
/// page is released back to the frame allocator when the count drops to
/// zero.
#[derive(Clone, Copy)]
pub struct ResidencePage {
    /// The address of the physical page.
    addr: usize,
    /// The number of holders of this page: mapping slots and, for a
    /// default page, its owning residence.
    refs: usize,
}

impl ResidencePage {
    /// The address of the physical page.
    pub closed spec fn addr_spec(self) -> int {
        self.addr as int
    }

    /// The current reference count.
    pub closed spec fn refs_spec(self) -> int {
        self.refs as int
    }

    /// Returns the address of the physical page.
    pub fn get(&self) -> (r: usize)
        ensures
            r as int == self.addr_spec(),
    {
        self.addr
    }

    /// Returns the current reference count.
    pub fn ref_count(&self) -> (r: usize)
        ensures
            r as int == self.refs_spec(),
    {
        self.refs
    }
}

/// The page's address names an allocated order-`0` block of the user zone
/// of `zones`.
pub open spec fn page_block_ok(pg: ResidencePage, zones: Zones) -> bool {
    let z = zones.zone(0);
    let db = z.data_begin_spec();
    &&& db <= pg.addr_spec()
    &&& pg.addr_spec() < db + z.count() * PAGE_SIZE as int
    &&& (pg.addr_spec() - db) % (PAGE_SIZE as int) == 0
    &&& z.is_allocated_block((pg.addr_spec() - db) / (PAGE_SIZE as int), 0)
}

/// The table of resident pages. Slot indices are stable: a released slot
/// keeps its record with a zero reference count and is never reused.
pub struct PageStore {
    /// One record per page ever acquired.
    pages: Vec<ResidencePage>,
}

impl PageStore {
    /// The number of page records.
    pub closed spec fn len_spec(self) -> int {
        self.pages@.len() as int
    }

    /// The record of page `i`.
    pub closed spec fn page(self, i: int) -> ResidencePage {
        self.pages@[i]
    }

    /// Page `i` exists and still has holders.
    pub open spec fn live(self, i: int) -> bool {
        0 <= i < self.len_spec() && self.page(i).refs_spec() > 0
    }

    /// Coupling of the store with the frame allocator: every live page is
    /// an allocated order-`0` block of the user zone, and distinct live
    /// pages occupy distinct addresses.
    pub open spec fn wf_with(self, zones: Zones) -> bool {
        &&& zones.wf()
        &&& forall|i: int| #[trigger] self.live(i) ==> page_block_ok(self.page(i), zones)
        &&& forall|i: int, j: int|
            self.live(i) && self.live(j) && i != j ==> #[trigger] self.page(i).addr_spec()
                != #[trigger] self.page(j).addr_spec()
    }

    /// Creates an empty store.
    pub fn new() -> (r: Self)
        ensures
            r.len_spec() == 0,
            forall|zs: Zones| zs.wf() ==> r.wf_with(zs),
    {
        PageStore { pages: Vec::new() }
    }

    /// Returns the number of page records ever created.
    pub fn page_count(&self) -> (r: usize)
        ensures
            r as int == self.len_spec(),
    {
        self.pages.len()
    }

    /// Returns a copy of the record of page `i`.
    pub fn get_page(&self, i: usize) -> (r: ResidencePage)
        requires
            (i as int) < self.len_spec(),
        ensures
            r == self.page(i as int),
    {
        self.pages[i]
    }

    /// Allocates a fresh zeroed user page from the frame allocator and
    /// registers it with one reference. Fails exactly when the user zone
    /// has no free page.
    pub fn alloc_page(&mut self, zones: &mut Zones) -> (r: Result<usize, ()>)
        requires
            old(self).wf_with(*old(zones)),
            old(self).len_spec() < usize::MAX,
        ensures
            final(self).wf_with(*final(zones)),
            match r {
                Result::Ok(i) => {
                    &&& i as int == old(self).len_spec()
                    &&& final(self).len_spec() == old(self).len_spec() + 1
                    &&& final(self).live(i as int)
                    &&& final(self).page(i as int).refs_spec() == 1
                    &&& forall|j: int|
                        0 <= j < old(self).len_spec() ==> final(self).page(j) == old(self).page(j)
                    &&& final(zones).zone(0).allocated() == old(zones).zone(0).allocated() + 1
                    &&& final(zones).zone(1) == old(zones).zone(1)
                    &&& final(zones).zone(2) == old(zones).zone(2)
                    &&& final(zones).zone(0).begin_spec() == old(zones).zone(0).begin_spec()
                    &&& final(zones).zone(0).size_spec() == old(zones).zone(0).size_spec()
                    &&& final(zones).zone(0).count() == old(zones).zone(0).count()
                },
                Result::Err(_) => {
                    &&& *final(self) == *old(self)
                    &&& *final(zones) == *old(zones)
                    &&& first_free_order(old(zones).zone(0).lists(), 0) == FREE_LIST_LEN as int
                },
            },
    {
        proof {
            assert(0i32 & 0b11i32 == 0i32) by (bit_vector);
        }
        let ptr = match alloc_zero(zones, 0, FLAG_ZONE_TYPE_USER) {
            Result::Ok(ptr) => ptr,
            Result::Err(_) => {
                return Err(());
            },
        };
        let ghost z0 = old(zones).zone(0);
        let ghost h = z0.lists()[first_free_order(z0.lists(), 0)][0];
        proof {
            lemma_p2_one();
            // The fresh page's address names the allocated block.
            let db = z0.data_begin_spec();
            assert(ptr as int == db + h * PAGE_SIZE as int);
            vstd::arithmetic::div_mod::lemma_mod_multiples_basic(h, PAGE_SIZE as int);
            vstd::arithmetic::div_mod::lemma_fundamental_div_mod_converse(
                h * PAGE_SIZE as int,
                PAGE_SIZE as int,
                h,
                0,
            );
            crate::model::lemma_ffo_props(z0.lists(), 0);
            assert(h + 1 <= z0.count());
            vstd::arithmetic::mul::lemma_mul_inequality(
                h + 1,
                z0.count(),
                PAGE_SIZE as int,
            );
            assert((h + 1) * PAGE_SIZE as int == h * PAGE_SIZE as int + PAGE_SIZE as int)
                by (nonlinear_arith);
        }
        let idx = self.pages.len();
        self.pages.push(ResidencePage { addr: ptr, refs: 1 });
        proof {
            let zf = *final(zones);
            let znew = zf.zone(0);
            let hh = (ptr as int - znew.data_begin_spec()) / (PAGE_SIZE as int);
            assert(hh == h);
            // Every page that was live stays an allocated block, and the
            // new page's address differs from each of theirs: their head
            // frames carried the used sentinel while the new block's head
            // was free.
            assert forall|i: int| #[trigger] self.live(i) implies page_block_ok(
                self.page(i),
                zf,
            ) by {
                if i < old(self).len_spec() {
                    assert(old(self).live(i));
                    assert(page_block_ok(old(self).page(i), *old(zones)));
                    let aid = (old(self).page(i).addr_spec() - z0.data_begin_spec()) / (
                    PAGE_SIZE as int);
                    assert(z0.is_allocated_block(aid, 0));
                    assert(znew.is_allocated_block(aid, 0));
                }
            }
            assert forall|i: int, j: int|
                self.live(i) && self.live(j) && i != j implies #[trigger] self.page(
                i,
            ).addr_spec() != #[trigger] self.page(j).addr_spec() by {
                if i < old(self).len_spec() && j < old(self).len_spec() {
                    assert(old(self).live(i) && old(self).live(j));
                } else {
                    let o: int = if i < old(self).len_spec() {
                        i
                    } else {
                        j
                    };
                    assert(old(self).live(o));
                    assert(page_block_ok(old(self).page(o), *old(zones)));
                    let aid = (old(self).page(o).addr_spec() - z0.data_begin_spec()) / (
                    PAGE_SIZE as int);
                    assert(z0.frame_at(aid).prev == crate::buddy::FRAME_STATE_USED);
                    assert(z0.frame_at(h).prev != crate::buddy::FRAME_STATE_USED) by {
                        crate::buddy::lemma_zones_zone_wf(*old(zones), 0);
                        crate::model::lemma_ffo_props(z0.lists(), 0);
                        crate::buddy::lemma_member_record_free(
                            z0,
                            first_free_order(z0.lists(), 0),
                            0,
                        );
                    }
                    assert(aid != h);
                    assert(old(self).page(o).addr_spec() == z0.data_begin_spec() + aid
                        * PAGE_SIZE as int) by {
                        vstd::arithmetic::div_mod::lemma_fundamental_div_mod(
                            old(self).page(o).addr_spec() - z0.data_begin_spec(),
                            PAGE_SIZE as int,
                        );
                    }
                    assert(aid * PAGE_SIZE as int != h * PAGE_SIZE as int) by (nonlinear_arith)
                        requires
                            aid != h,
                    ;
                }
            }
        }
        Ok(idx)
    }

    /// Adds one reference to the live page `i`.
    pub fn inc_ref(&mut self, i: usize)
        requires
            old(self).live(i as int),
            old(self).page(i as int).refs_spec() < usize::MAX,
        ensures
            final(self).len_spec() == old(self).len_spec(),
            final(self).page(i as int).refs_spec() == old(self).page(i as int).refs_spec() + 1,
            final(self).page(i as int).addr_spec() == old(self).page(i as int).addr_spec(),
            forall|j: int|
                0 <= j < old(self).len_spec() && j != i as int ==> final(self).page(j) == old(
                    self,
                ).page(j),
            final(self).live(i as int),
            forall|zs: Zones| old(self).wf_with(zs) ==> final(self).wf_with(zs),
    {
        let mut pg = self.pages[i];
        pg.refs = pg.refs + 1;
        self.pages[i] = pg;
        proof {
            assert forall|zs: Zones| old(self).wf_with(zs) implies final(self).wf_with(zs) by {
                assert forall|k: int| #[trigger] self.live(k) implies page_block_ok(
                    self.page(k),
                    zs,
                ) by {
                    assert(old(self).live(k));
                }
                assert forall|k: int, j: int|
                    self.live(k) && self.live(j) && k != j implies #[trigger] self.page(
                    k,
                ).addr_spec() != #[trigger] self.page(j).addr_spec() by {
                    assert(old(self).live(k) && old(self).live(j));
                }
            }
        }
    }

    /// Drops one reference from the live page `i`. When the last reference
    /// goes away the page is returned to the frame allocator.
    pub fn release_page(&mut self, zones: &mut Zones, i: usize)
        requires
            old(self).wf_with(*old(zones)),
            old(self).live(i as int),
        ensures
            final(self).wf_with(*final(zones)),
            final(self).len_spec() == old(self).len_spec(),
            final(self).page(i as int).refs_spec() == old(self).page(i as int).refs_spec() - 1,
            final(self).page(i as int).addr_spec() == old(self).page(i as int).addr_spec(),
            forall|j: int|
                0 <= j < old(self).len_spec() && j != i as int ==> final(self).page(j) == old(
                    self,
                ).page(j),
            old(self).page(i as int).refs_spec() > 1 ==> *final(zones) == *old(zones),
            old(self).page(i as int).refs_spec() == 1 ==> ({
                let zf = *final(zones);
                let zo = *old(zones);
                &&& zf.zone(0).allocated() == zo.zone(0).allocated() - 1
                &&& zf.zone(1) == zo.zone(1)
                &&& zf.zone(2) == zo.zone(2)
                &&& zf.zone(0).count() == zo.zone(0).count()
            }),
    {
        let ghost z0 = old(zones).zone(0);
        let mut pg = self.pages[i];
        pg.refs = pg.refs - 1;
        self.pages[i] = pg;
        if pg.refs == 0 {
            proof {
                lemma_p2_one();
                crate::buddy::lemma_zones_zone_wf(*old(zones), 0);
                assert(page_block_ok(old(self).page(i as int), *old(zones)));
                // The user zone owns the page's address range.
                let db = z0.data_begin_spec();
                let aid = (pg.addr as int - db) / (PAGE_SIZE as int);
                vstd::arithmetic::div_mod::lemma_fundamental_div_mod(
                    pg.addr as int - db,
                    PAGE_SIZE as int,
                );
                crate::buddy::lemma_zone_owns_data(z0);
                assert(crate::buddy::owning_zone(*old(zones), pg.addr as int) == 0);
            }
            crate::buddy::free(zones, pg.addr, 0);
            proof {
                let zf = *final(zones);
                let znew = zf.zone(0);
                let db = z0.data_begin_spec();
                let aid = (pg.addr as int - db) / (PAGE_SIZE as int);
                // Every other live page's block was disjoint from the
                // freed one, so it survives.
                assert forall|k: int| #[trigger] self.live(k) implies page_block_ok(
                    self.page(k),
                    zf,
                ) by {
                    assert(k != i as int);
                    assert(old(self).live(k));
                    assert(page_block_ok(old(self).page(k), *old(zones)));
                    let kid = (old(self).page(k).addr_spec() - db) / (PAGE_SIZE as int);
                    assert(kid != aid) by {
                        vstd::arithmetic::div_mod::lemma_fundamental_div_mod(
                            old(self).page(k).addr_spec() - db,
                            PAGE_SIZE as int,
                        );
                        vstd::arithmetic::div_mod::lemma_fundamental_div_mod(
                            pg.addr as int - db,
                            PAGE_SIZE as int,
                        );
                        assert(old(self).page(k).addr_spec() != old(self).page(
                            i as int,
                        ).addr_spec());
                    }
                    assert(blocks_disjoint(kid, 0, aid, 0)) by {
                        lemma_p2_one();
                    }
                    assert(z0.is_allocated_block(kid, 0));
                    assert(znew.is_allocated_block(kid, 0));
                }
                assert forall|k: int, j: int|
                    self.live(k) && self.live(j) && k != j implies #[trigger] self.page(
                    k,
                ).addr_spec() != #[trigger] self.page(j).addr_spec() by {
                    assert(old(self).live(k) && old(self).live(j));
                }
            }
        } else {
            proof {
                assert forall|k: int| #[trigger] self.live(k) implies page_block_ok(
                    self.page(k),
                    *final(zones),
                ) by {
                    assert(old(self).live(k));
                }
                assert forall|k: int, j: int|
                    self.live(k) && self.live(j) && k != j implies #[trigger] self.page(
                    k,
                ).addr_spec() != #[trigger] self.page(j).addr_spec() by {
                    assert(old(self).live(k) && old(self).live(j));
                }
            }
        }
    }
}

/// The policy describing where a mapped page's content comes from and how
/// it is materialized.
#[derive(Clone, Copy)]
pub enum MapResidence {
    /// Anonymous zero-fill memory. `default_page` optionally names a
    /// shared pre-zeroed read-only page in the store, exposed to avoid
    /// allocation until the first write.
    Anonymous { default_page: Option<usize> },
    /// File-backed memory: content comes from the backing file at the
    /// given page offset.
    File { off: usize },
}

impl MapResidence {
    /// The shared default page this residence exposes, if any.
    pub open spec fn default_page_spec(self) -> Option<usize> {
        match self {
            MapResidence::Anonymous { default_page } => default_page,
            MapResidence::File { .. } => None,
        }
    }

    /// The file page offset, for a file-backed residence.
    pub open spec fn off_spec(self) -> int {
        match self {
            MapResidence::Anonymous { .. } => 0,
            MapResidence::File { off } => off as int,
        }
    }

    /// The residence is valid against the store: its default page, if
    /// any, is live.
    pub open spec fn res_wf(self, store: PageStore) -> bool {
        match self.default_page_spec() {
            Option::Some(d) => store.live(d as int),
            Option::None => true,
        }
    }

    /// Tells whether a page acquired from this residence requires content
    /// initialization: true unless the residence exposes an
    /// already-initialized default page.
    pub fn is_normal(&self) -> (r: bool)
        ensures
            r == (self.default_page_spec() is None),
    {
        match self {
            MapResidence::Anonymous { default_page: Option::Some(_) } => false,
            _ => true,
        }
    }

    /// Returns the store index of the shared default page, if this
    /// residence exposes one.
    pub fn get_default_page(&self) -> (r: Option<usize>)
        ensures
            r == self.default_page_spec(),
    {
        match self {
            MapResidence::Anonymous { default_page } => *default_page,
            MapResidence::File { .. } => None,
        }
    }

    /// Advances the file offset of a file-backed residence by `delta`
    /// pages; does nothing for anonymous memory.
    pub fn offset_add(&mut self, delta: usize)
        requires
            old(self).off_spec() + delta <= usize::MAX,
        ensures
            *final(self) == (match *old(self) {
                MapResidence::File { off } => (MapResidence::File {
                    off: (off + delta) as usize,
                }),
                other => other,
            }),
    {
        match self {
            MapResidence::File { off } => {
                *off = *off + delta;
            },
            MapResidence::Anonymous { .. } => {},
        }
    }

    /// Acquires a page for the given page `offset` of the mapping:
    /// returns the page's store index and whether its content still
    /// requires initialization. An anonymous residence with a default
    /// page hands out another reference to it; otherwise a fresh zeroed
    /// user page is allocated. Which file bytes would initialize a
    /// file-backed page is determined by the residence's offset plus
    /// `offset`; the content itself lies outside this model.
    pub fn acquire_page(&self, store: &mut PageStore, zones: &mut Zones, offset: usize) -> (r:
        Result<(usize, bool), ()>)
        requires
            old(store).wf_with(*old(zones)),
            self.res_wf(*old(store)),
            old(store).len_spec() < usize::MAX,
            (match self.default_page_spec() {
                Option::Some(d) => old(store).page(d as int).refs_spec() < usize::MAX,
                Option::None => true,
            }),
        ensures
            final(store).wf_with(*final(zones)),
            self.res_wf(*final(store)),
            final(store).len_spec() >= old(store).len_spec(),
            match r {
                Result::Ok(pair) => {
                    let i = pair.0;
                    let init = pair.1;
                    match self.default_page_spec() {
                        Option::Some(d) => {
                            &&& !init
                            &&& i == d
                            &&& *final(zones) == *old(zones)
                            &&& final(store).len_spec() == old(store).len_spec()
                            &&& final(store).page(d as int).refs_spec() == old(store).page(
                                d as int,
                            ).refs_spec() + 1
                            &&& final(store).page(d as int).addr_spec() == old(store).page(
                                d as int,
                            ).addr_spec()
                            &&& forall|j: int|
                                0 <= j < old(store).len_spec() && j != d as int
                                    ==> final(store).page(j) == old(store).page(j)
                        },
                        Option::None => {
                            &&& init
                            &&& i as int == old(store).len_spec()
                            &&& final(store).len_spec() == old(store).len_spec() + 1
                            &&& final(store).live(i as int)
                            &&& final(store).page(i as int).refs_spec() == 1
                            &&& forall|j: int|
                                0 <= j < old(store).len_spec()
                                    ==> final(store).page(j) == old(store).page(j)
                            &&& final(zones).zone(0).allocated() == old(zones).zone(0).allocated()
                                + 1
                            &&& final(zones).zone(1) == old(zones).zone(1)
                            &&& final(zones).zone(2) == old(zones).zone(2)
                            &&& final(zones).zone(0).count() == old(zones).zone(0).count()
                        },
                    }
                },
                Result::Err(_) => {
                    &&& self.default_page_spec() is None
                    &&& *final(store) == *old(store)
                    &&& *final(zones) == *old(zones)
                    &&& first_free_order(old(zones).zone(0).lists(), 0) == FREE_LIST_LEN as int
                },
            },
    {
        match self.get_default_page() {
            Option::Some(d) => {
                store.inc_ref(d);
                Ok((d, false))
            },
            Option::None => {
                match store.alloc_page(zones) {
                    Result::Ok(i) => Ok((i, true)),
                    Result::Err(_) => Err(()),
                }
            },
        }
    }
}

/// Two page records with the same address and reference count are equal.
pub proof fn lemma_page_ext(p1: ResidencePage, p2: ResidencePage)
    requires
        p1.addr_spec() == p2.addr_spec(),
        p1.refs_spec() == p2.refs_spec(),
    ensures
        p1 == p2,
{
}

/// A store never holds negatively many records.
pub proof fn lemma_store_len_nonneg(st: PageStore)
    ensures
        st.len_spec() >= 0,
{
}

/// A page record's address and reference count are machine words.
pub proof fn lemma_page_bounds(st: PageStore, i: int)
    requires
        0 <= i < st.len_spec(),
    ensures
        0 <= st.page(i).addr_spec() <= usize::MAX,
        0 <= st.page(i).refs_spec() <= usize::MAX,
{
}

/// `2^0` is one.
proof fn lemma_p2_one()
    ensures
        p2(0) == 1,
{
    vstd::arithmetic::power2::lemma2_to64();
}







} // verus!
