//! Memory mappings with copy-on-write fault resolution.
//!
//! A [`MemMapping`] is a virtual address range whose pages are backed by
//! reference-counted physical pages from the [`PageStore`]. Page faults
//! are resolved by [`MemMapping::alloc_page`], which materializes or privately
//! copies the faulting page and stages the page-table edits into a
//! [`VMemTransaction`]; splitting, write-back and unmapping follow the
//! reverse path.

use vstd::prelude::*;
use crate::memory::PAGE_SIZE;
use crate::buddy::Zones;
use crate::model::first_free_order;
use crate::buddy::FREE_LIST_LEN;
use crate::residence::{MapResidence, PageStore, ResidencePage};
use crate::vmem::{VMemTransaction, VMemOp, Entry, FLAG_WRITE, FLAG_USER, FLAG_XD, COPY_BUFFER};
use crate::backing::{BackingFile, write_bytes};

verus! {

/// Mapping flag: the mapping is writable.
pub const MAPPING_FLAG_WRITE: u8 = 0x1;

/// Mapping flag: the mapping is accessible from user mode.
pub const MAPPING_FLAG_USER: u8 = 0x2;

/// Mapping flag: execution from the mapping is allowed.
pub const MAPPING_FLAG_EXEC: u8 = 0x4;

/// Mapping flag: the mapping is shared across address spaces; writes are
/// carried through to the backing object instead of being resolved by
/// copy-on-write.
pub const MAPPING_FLAG_SHARED: u8 = 0x8;

/// A placeholder record for an unmapped sub-range produced when a mapping
/// is split. Purely descriptive: it owns nothing.
pub struct MemGap {
    /// The address of the beginning of the gap.
    begin: usize,
    /// The size of the gap in pages.
    size: usize,
}

impl MemGap {
    /// The address of the beginning of the gap.
    pub closed spec fn begin_spec(self) -> int {
        self.begin as int
    }

    /// The size of the gap in pages.
    pub closed spec fn size_spec(self) -> int {
        self.size as int
    }

    /// Creates a new instance.
    pub fn new(begin: usize, size: usize) -> (r: Self)
        ensures
            r.begin_spec() == begin as int,
            r.size_spec() == size as int,
    {
        MemGap { begin, size }
    }

    /// Returns the address of the beginning of the gap.
    pub fn get_begin(&self) -> (r: usize)
        ensures
            r as int == self.begin_spec(),
    {
        self.begin
    }

    /// Returns the size of the gap in pages.
    pub fn get_size(&self) -> (r: usize)
        ensures
            r as int == self.size_spec(),
    {
        self.size
    }
}

/// The page-table entry flags derived from a mapping's flags. Write
/// permission is granted only when both the mapping allows it and the
/// caller requests it; the no-execute bit is derived by inverting the
/// execute flag.
pub open spec fn vmem_flags_spec(flags: u8, write: bool) -> Entry {
    let f0: Entry = 0;
    let f1: Entry = if write && flags & MAPPING_FLAG_WRITE != 0 {
        f0 | FLAG_WRITE
    } else {
        f0
    };
    let f2: Entry = if flags & MAPPING_FLAG_USER != 0 {
        f1 | FLAG_USER
    } else {
        f1
    };
    if flags & MAPPING_FLAG_EXEC == 0 {
        f2 | FLAG_XD
    } else {
        f2
    }
}

/// Page `i` of the store is in copy-on-write state for a mapping with the
/// given flags: the mapping is not shared and the page has another holder.
pub open spec fn is_cow_spec(store: PageStore, i: int, flags: u8) -> bool {
    flags & MAPPING_FLAG_SHARED == 0 && store.page(i).refs_spec() > 1
}

/// Page `q` of the store is held by some slot of `slots`.
pub open spec fn slot_holds(slots: Seq<Option<usize>>, q: int) -> bool {
    exists|k: int|
        0 <= k < slots.len() && (match #[trigger] slots[k] {
            Option::Some(p) => p as int == q,
            Option::None => false,
        })
}

/// Page `q` of the store is held by some slot of `slots` below index `n`.
pub open spec fn slot_holds_below(slots: Seq<Option<usize>>, q: int, n: int) -> bool {
    exists|k: int|
        0 <= k < n && k < slots.len() && (match #[trigger] slots[k] {
            Option::Some(p) => p as int == q,
            Option::None => false,
        })
}

/// The outcome of resolving a fault at page `offset` of mapping `m0` when
/// a page had to be acquired from the residence: either the shared
/// default page was staged with the mapping's permissions and nothing
/// committed, or a fresh page was allocated, staged read-only, committed
/// into the slot — dropping the previous page's reference — and re-staged
/// writable; or the user zone was exhausted and nothing changed.
pub open spec fn alloc_slow_post(
    m0: MemMapping,
    m1: MemMapping,
    tx0: Seq<VMemOp>,
    tx1: Seq<VMemOp>,
    st0: PageStore,
    st1: PageStore,
    zs0: Zones,
    zs1: Zones,
    offset: int,
    ok: bool,
) -> bool {
    let flags = m0.flags_spec();
    let virt = (m0.begin_spec() + offset * (PAGE_SIZE as int)) as usize;
    let prev = m0.slots()[offset];
    match m0.residence_spec().default_page_spec() {
        Option::Some(d) => {
            &&& ok
            &&& tx1 == tx0.push(
                (VMemOp::Install {
                    phys: st0.page(d as int).addr_spec() as usize,
                    virt,
                    flags: vmem_flags_spec(flags, true),
                }),
            )
            &&& m1.slots() == m0.slots()
            &&& st1.len_spec() == st0.len_spec()
            &&& forall|q: int| 0 <= q < st0.len_spec() ==> st1.page(q) == st0.page(q)
            &&& zs1 == zs0
        },
        Option::None => {
            if ok {
                let ni = st0.len_spec();
                let na = st1.page(ni).addr_spec() as usize;
                &&& st1.len_spec() == ni + 1
                &&& st1.page(ni).refs_spec() == 1
                &&& m1.slots() == m0.slots().update(offset, Option::Some(ni as usize))
                &&& tx1 == (match prev {
                    Option::Some(p) => tx0.push(
                        (VMemOp::Install {
                            phys: st0.page(p as int).addr_spec() as usize,
                            virt: COPY_BUFFER,
                            flags: 0,
                        }),
                    ).push(
                        (VMemOp::Install { phys: na, virt, flags: vmem_flags_spec(flags, false) }),
                    ).push((VMemOp::Install { phys: na, virt, flags: vmem_flags_spec(flags, true) })),
                    Option::None => tx0.push(
                        (VMemOp::Install { phys: na, virt, flags: vmem_flags_spec(flags, false) }),
                    ).push((VMemOp::Install { phys: na, virt, flags: vmem_flags_spec(flags, true) })),
                })
                &&& (match prev {
                    Option::Some(p) => st1.page(p as int).refs_spec() == st0.page(
                        p as int,
                    ).refs_spec() - 1 && st1.page(p as int).addr_spec() == st0.page(
                        p as int,
                    ).addr_spec(),
                    Option::None => true,
                })
                &&& forall|q: int|
                    0 <= q < ni && (match prev {
                        Option::Some(p) => q != p as int,
                        Option::None => true,
                    }) ==> st1.page(q) == st0.page(q)
                &&& zs1.zone(0).allocated() == zs0.zone(0).allocated() + 1
                &&& zs1.zone(1) == zs0.zone(1)
                &&& zs1.zone(2) == zs0.zone(2)
                &&& zs1.zone(0).count() == zs0.zone(0).count()
            } else {
                &&& first_free_order(zs0.zone(0).lists(), 0) == FREE_LIST_LEN as int
                &&& m1.slots() == m0.slots()
                &&& st1 == st0
                &&& zs1 == zs0
                &&& tx1 == tx0
            }
        },
    }
}

/// A mapping in a memory space.
pub struct MemMapping {
    /// Address on the virtual memory to the beginning of the mapping.
    begin: usize,
    /// The size of the mapping in pages.
    size: usize,
    /// The mapping's flags.
    flags: u8,
    /// The residence of the mapping.
    residence: MapResidence,
    /// The allocated physical pages, one optional store index per page
    /// offset. Each page may be shared with other mappings.
    phys_pages: Vec<Option<usize>>,
}

impl MemMapping {
    /// The address of the beginning of the mapping.
    pub closed spec fn begin_spec(self) -> int {
        self.begin as int
    }

    /// The size of the mapping in pages.
    pub closed spec fn size_spec(self) -> int {
        self.size as int
    }

    /// The mapping's flags.
    pub closed spec fn flags_spec(self) -> u8 {
        self.flags
    }

    /// The mapping's residence.
    pub closed spec fn residence_spec(self) -> MapResidence {
        self.residence
    }

    /// The physical page slots, one per page offset.
    pub closed spec fn slots(self) -> Seq<Option<usize>> {
        self.phys_pages@
    }

    /// Well-formedness against the page store: the mapping covers at
    /// least one page, has one slot per page, its virtual range is page
    /// aligned and fits the address space, every committed slot names a
    /// live page, no page is committed at two offsets, and the residence
    /// is valid.
    pub open spec fn wf(self, store: PageStore) -> bool {
        &&& self.size_spec() > 0
        &&& self.slots().len() == self.size_spec()
        &&& self.begin_spec() % (PAGE_SIZE as int) == 0
        &&& self.begin_spec() + self.size_spec() * (PAGE_SIZE as int) <= usize::MAX
        &&& forall|k: int|
            0 <= k < self.slots().len() ==> (match #[trigger] self.slots()[k] {
                Option::Some(p) => store.live(p as int),
                Option::None => true,
            })
        &&& forall|k: int, l: int|
            0 <= k < l < self.slots().len() && self.slots()[k] is Some
                ==> #[trigger] self.slots()[k] != #[trigger] self.slots()[l]
        &&& self.residence_spec().res_wf(store)
        &&& (match self.residence_spec().default_page_spec() {
            Option::Some(d) => forall|k: int|
                0 <= k < self.slots().len() ==> #[trigger] self.slots()[k] != Option::Some(d),
            Option::None => true,
        })
    }

    /// Creates a new instance covering `size` pages at `begin`, with no
    /// page committed yet.
    pub fn new(begin: usize, size: usize, flags: u8, residence: MapResidence) -> (r: Result<
        Self,
        (),
    >)
        requires
            begin as int % (PAGE_SIZE as int) == 0,
            size > 0,
            begin as int + size as int * (PAGE_SIZE as int) <= usize::MAX,
        ensures
            (match r {
                Result::Ok(m) => {
                    &&& m.begin_spec() == begin as int
                    &&& m.size_spec() == size as int
                    &&& m.flags_spec() == flags
                    &&& m.residence_spec() == residence
                    &&& m.slots() =~= Seq::new(size as nat, |k: int| Option::<usize>::None)
                },
                Result::Err(_) => false,
            }),
    {
        let mut phys_pages: Vec<Option<usize>> = Vec::new();
        let mut k: usize = 0;
        while k < size
            invariant
                k <= size,
                phys_pages@.len() == k as int,
                forall|j: int| 0 <= j < k as int ==> #[trigger] phys_pages@[j] is None,
            decreases size - k,
        {
            phys_pages.push(None);
            k = k + 1;
        }
        Ok(MemMapping { begin, size, flags, residence, phys_pages })
    }

    /// Returns the address of the beginning of the mapping.
    pub fn get_begin(&self) -> (r: usize)
        ensures
            r as int == self.begin_spec(),
    {
        self.begin
    }

    /// Returns the size of the mapping in memory pages.
    pub fn get_size(&self) -> (r: usize)
        ensures
            r as int == self.size_spec(),
    {
        self.size
    }

    /// Returns the mapping's flags.
    pub fn get_flags(&self) -> (r: u8)
        ensures
            r == self.flags_spec(),
    {
        self.flags
    }

    /// Tells whether the given page is in copy-on-write state for a
    /// mapping with flags `flags`: the mapping is not shared and another
    /// mapping still holds the page.
    fn is_cow(phys_page: &ResidencePage, flags: u8) -> (r: bool)
        ensures
            r == (flags & MAPPING_FLAG_SHARED == 0 && phys_page.refs_spec() > 1),
    {
        if flags & MAPPING_FLAG_SHARED != 0 {
            return false;
        }
        phys_page.ref_count() > 1
    }

    /// Returns the page-table entry flags for this mapping. If `write` is
    /// false, write is disabled even if enabled on the mapping.
    fn get_vmem_flags(&self, write: bool) -> (r: Entry)
        ensures
            r == vmem_flags_spec(self.flags_spec(), write),
    {
        let mut flags: Entry = 0;
        if write && self.flags & MAPPING_FLAG_WRITE != 0 {
            flags = flags | FLAG_WRITE;
        }
        if self.flags & MAPPING_FLAG_USER != 0 {
            flags = flags | FLAG_USER;
        }
        if self.flags & MAPPING_FLAG_EXEC == 0 {
            flags = flags | FLAG_XD;
        }
        flags
    }

    /// Produces an independent mapping with the same range, flags and
    /// residence, whose slots reference the same physical pages; each
    /// referenced page gains one holder. Used when duplicating an address
    /// space, prior to resolving writes by copy-on-write.
    pub fn try_clone(&self, store: &mut PageStore) -> (r: Self)
        requires
            self.wf(*old(store)),
            forall|k: int|
                0 <= k < self.slots().len() ==> (match #[trigger] self.slots()[k] {
                    Option::Some(p) => old(store).page(p as int).refs_spec() < usize::MAX,
                    Option::None => true,
                }),
        ensures
            r.begin_spec() == self.begin_spec(),
            r.size_spec() == self.size_spec(),
            r.flags_spec() == self.flags_spec(),
            r.residence_spec() == self.residence_spec(),
            r.slots() == self.slots(),
            r.wf(*final(store)),
            self.wf(*final(store)),
            final(store).len_spec() == old(store).len_spec(),
            forall|q: int|
                0 <= q < old(store).len_spec() ==> final(store).page(q).refs_spec() == old(store).page(q).refs_spec() + (if slot_holds(self.slots(), q) {
                    1int
                } else {
                    0int
                }),
            forall|q: int|
                0 <= q < old(store).len_spec() ==> final(store).page(q).addr_spec() == old(store).page(q).addr_spec(),
            forall|zs: Zones| old(store).wf_with(zs) ==> final(store).wf_with(zs),
    {
        let mut phys_pages: Vec<Option<usize>> = Vec::new();
        let mut k: usize = 0;
        while k < self.size
            invariant
                self.wf(*old(store)),
                k <= self.size,
                phys_pages@ == self.slots().subrange(0, k as int),
                store.len_spec() == old(store).len_spec(),
                forall|q: int|
                    0 <= q < old(store).len_spec() ==> store.page(q).refs_spec() == old(store).page(q).refs_spec() + (if slot_holds_below(self.slots(), q, k as int) {
                        1int
                    } else {
                        0int
                    }),
                forall|q: int|
                    0 <= q < old(store).len_spec() ==> store.page(q).addr_spec() == old(store).page(q).addr_spec(),
                forall|zs: Zones| old(store).wf_with(zs) ==> store.wf_with(zs),
                forall|j: int|
                    (k as int) <= j < self.slots().len() ==> (match #[trigger] self.slots()[j] {
                        Option::Some(p) => store.page(p as int).refs_spec() < usize::MAX,
                        Option::None => true,
                    }),
            decreases self.size - k,
        {
            let ghost pre = *store;
            let slot = self.phys_pages[k];
            match slot {
                Option::Some(p) => {
                    proof {
                        assert(self.slots()[k as int] == Option::Some(p));
                        assert(store.live(p as int)) by {
                            assert(old(store).live(p as int));
                        }
                        // This slot does not appear below `k`, so its page
                        // has not been counted yet.
                        assert(!slot_holds_below(self.slots(), p as int, k as int)) by {
                            if slot_holds_below(self.slots(), p as int, k as int) {
                                let j = choose|j: int|
                                    0 <= j < k as int && j < self.slots().len() && (match #[trigger] self.slots()[j] {
                                        Option::Some(pp) => pp as int == p as int,
                                        Option::None => false,
                                    });
                                assert(self.slots()[j] != self.slots()[k as int]);
                                assert(self.slots()[j] == Option::Some(p));
                            }
                        }
                    }
                    store.inc_ref(p);
                    proof {
                        assert forall|q: int| 0 <= q < old(store).len_spec() implies store.page(q).refs_spec() == old(store).page(q).refs_spec() + (if
                        slot_holds_below(self.slots(), q, k as int + 1) {
                            1int
                        } else {
                            0int
                        }) by {
                            if q == p as int {
                                assert(slot_holds_below(self.slots(), q, k as int + 1));
                            } else {
                                assert(store.page(q) == pre.page(q));
                                assert(slot_holds_below(self.slots(), q, k as int + 1)
                                    == slot_holds_below(self.slots(), q, k as int)) by {
                                    if slot_holds_below(self.slots(), q, k as int + 1) {
                                        let j = choose|j: int|
                                            0 <= j < k as int + 1 && j < self.slots().len()
                                                && (match #[trigger] self.slots()[j] {
                                                    Option::Some(pp) => pp as int == q,
                                                    Option::None => false,
                                                });
                                        assert(j != k as int);
                                        assert(slot_holds_below(self.slots(), q, k as int));
                                    }
                                    if slot_holds_below(self.slots(), q, k as int) {
                                        let j = choose|j: int|
                                            0 <= j < k as int && j < self.slots().len()
                                                && (match #[trigger] self.slots()[j] {
                                                    Option::Some(pp) => pp as int == q,
                                                    Option::None => false,
                                                });
                                        assert(slot_holds_below(self.slots(), q, k as int + 1));
                                    }
                                }
                            }
                        }
                    }
                },
                Option::None => {
                    proof {
                        assert forall|q: int| 0 <= q < old(store).len_spec() implies store.page(q).refs_spec() == old(store).page(q).refs_spec() + (if
                        slot_holds_below(self.slots(), q, k as int + 1) {
                            1int
                        } else {
                            0int
                        }) by {
                            assert(slot_holds_below(self.slots(), q, k as int + 1)
                                == slot_holds_below(self.slots(), q, k as int)) by {
                                if slot_holds_below(self.slots(), q, k as int + 1) {
                                    let j = choose|j: int|
                                        0 <= j < k as int + 1 && j < self.slots().len()
                                            && (match #[trigger] self.slots()[j] {
                                                Option::Some(pp) => pp as int == q,
                                                Option::None => false,
                                            });
                                    assert(j != k as int);
                                    assert(slot_holds_below(self.slots(), q, k as int));
                                }
                                if slot_holds_below(self.slots(), q, k as int) {
                                    let j = choose|j: int|
                                        0 <= j < k as int && j < self.slots().len()
                                            && (match #[trigger] self.slots()[j] {
                                                Option::Some(pp) => pp as int == q,
                                                Option::None => false,
                                            });
                                    assert(slot_holds_below(self.slots(), q, k as int + 1));
                                }
                            }
                        }
                    }
                },
            }
            phys_pages.push(slot);
            proof {
                assert(phys_pages@ =~= self.slots().subrange(0, k as int + 1));
            }
            k = k + 1;
        }
        proof {
            assert(phys_pages@ =~= self.slots());
            assert forall|q: int| 0 <= q < old(store).len_spec() implies store.page(
                q,
            ).refs_spec() == old(store).page(q).refs_spec() + (if slot_holds(
                self.slots(),
                q,
            ) {
                1int
            } else {
                0int
            }) by {
                if slot_holds(self.slots(), q) {
                    let j = choose|j: int|
                        0 <= j < self.slots().len() && (match #[trigger] self.slots()[j] {
                            Option::Some(pp) => pp as int == q,
                            Option::None => false,
                        });
                    assert(slot_holds_below(self.slots(), q, self.size as int));
                } else {
                    if slot_holds_below(self.slots(), q, self.size as int) {
                        let j = choose|j: int|
                            0 <= j < self.size as int && j < self.slots().len() && (match #[trigger] self.slots()[j] {
                                Option::Some(pp) => pp as int == q,
                                Option::None => false,
                            });
                        assert(slot_holds(self.slots(), q));
                    }
                }
            }
            // Both mappings are well formed against the final store: every
            // held page only gained holders.
            assert forall|k2: int|
                0 <= k2 < self.slots().len() implies (match #[trigger] self.slots()[k2] {
                Option::Some(p) => store.live(p as int),
                Option::None => true,
            }) by {
                match self.slots()[k2] {
                    Option::Some(p) => {
                        assert(old(store).live(p as int));
                        assert(store.page(p as int).refs_spec() >= old(store).page(
                            p as int,
                        ).refs_spec());
                    },
                    Option::None => {},
                }
            }
        }
        MemMapping {
            begin: self.begin,
            size: self.size,
            flags: self.flags,
            residence: self.residence,
            phys_pages,
        }
    }

    /// Resolves a page fault at page `offset`. If a page is committed
    /// there and not in copy-on-write state, its page-table entry is staged
    /// with the mapping's full permissions. Otherwise a page is acquired
    /// from the residence; when it needs initialization it is staged with
    /// write disabled, the previous page — if any — is staged at the
    /// scratch address so its bytes can be copied, the content fill acts
    /// on physical memory outside this model, and the page is committed
    /// into the slot (dropping the previous page's reference) and
    /// re-staged with the mapping's true permissions. Fails when `offset`
    /// is out of bounds, or with an out-of-memory result, leaving the
    /// transaction unchanged.
    #[verifier::rlimit(100)]
    pub fn alloc_page(
        &mut self,
        offset: usize,
        vmem_transaction: &mut VMemTransaction,
        store: &mut PageStore,
        zones: &mut Zones,
    ) -> (r: Result<(), ()>)
        requires
            old(self).wf(*old(store)),
            old(store).wf_with(*old(zones)),
            old(store).len_spec() < usize::MAX,
            (match old(self).residence_spec().default_page_spec() {
                Option::Some(d) => old(store).page(d as int).refs_spec() < usize::MAX,
                Option::None => true,
            }),
        ensures
            final(self).wf(*final(store)),
            final(store).wf_with(*final(zones)),
            final(self).begin_spec() == old(self).begin_spec(),
            final(self).size_spec() == old(self).size_spec(),
            final(self).flags_spec() == old(self).flags_spec(),
            final(self).residence_spec() == old(self).residence_spec(),
            ({
                let flags = old(self).flags_spec();
                let virt = (old(self).begin_spec() + offset * (PAGE_SIZE as int)) as usize;
                let tx0 = old(vmem_transaction).ops_seq();
                &&& (offset as int >= old(self).size_spec() ==> r is Err && *final(self) == *old(self) && *final(store) == *old(store) && *final(zones) == *old(zones) && final(vmem_transaction).ops_seq() == tx0)
                &&& ((offset as int) < old(self).size_spec() ==> (match old(self).slots()[
                    offset as int] {
                    Option::Some(p) => {
                        if !is_cow_spec(*old(store), p as int, flags) {
                            &&& r is Ok
                            &&& final(vmem_transaction).ops_seq() == tx0.push(
                                (VMemOp::Install {
                                    phys: old(store).page(p as int).addr_spec() as usize,
                                    virt,
                                    flags: vmem_flags_spec(flags, true),
                                }),
                            )
                            &&& *final(self) == *old(self)
                            &&& *final(store) == *old(store)
                            &&& *final(zones) == *old(zones)
                        } else {
                            alloc_slow_post(
                                *old(self),
                                *final(self),
                                tx0,
                                final(vmem_transaction).ops_seq(),
                                *old(store),
                                *final(store),
                                *old(zones),
                                *final(zones),
                                offset as int,
                                (r is Ok),
                            )
                        }
                    },
                    Option::None => alloc_slow_post(
                        *old(self),
                        *final(self),
                        tx0,
                        final(vmem_transaction).ops_seq(),
                        *old(store),
                        *final(store),
                        *old(zones),
                        *final(zones),
                        offset as int,
                        (r is Ok),
                    ),
                }))
            }),
    {
        if offset >= self.size {
            return Err(());
        }
        proof {
            vstd::arithmetic::mul::lemma_mul_inequality(
                offset as int + 1,
                self.size_spec(),
                PAGE_SIZE as int,
            );
            assert((offset as int + 1) * (PAGE_SIZE as int) == offset as int * (PAGE_SIZE as int)
                + PAGE_SIZE as int) by (nonlinear_arith);
            vstd::arithmetic::mul::lemma_mul_nonnegative(offset as int, PAGE_SIZE as int);
        }
        let virt = self.begin + offset * PAGE_SIZE;
        let slot = self.phys_pages[offset];
        match slot {
            Option::Some(p) => {
                proof {
                    crate::residence::lemma_page_bounds(*store, p as int);
                }
                let pg = store.get_page(p);
                if !Self::is_cow(&pg, self.flags) {
                    let f = self.get_vmem_flags(true);
                    match vmem_transaction.map(pg.get(), virt, f) {
                        Result::Ok(_) => {},
                        Result::Err(_) => {},
                    }
                    return Ok(());
                }
            },
            Option::None => {},
        }
        // A page must be acquired: the slot is either uncommitted or in
        // copy-on-write state.
        let acquired = self.residence.acquire_page(store, zones, offset);
        let (new_idx, init) = match acquired {
            Result::Ok(pair) => pair,
            Result::Err(_) => {
                return Err(());
            },
        };
        let ghost st_acq = *store;
        if init {
            match slot {
                Option::Some(pp) => {
                    proof {
                        crate::residence::lemma_page_bounds(*store, pp as int);
                        assert(store.page(pp as int) == old(store).page(pp as int));
                    }
                    let prev_pg = store.get_page(pp);
                    match vmem_transaction.map(prev_pg.get(), COPY_BUFFER, 0) {
                        Result::Ok(_) => {},
                        Result::Err(_) => {},
                    }
                },
                Option::None => {},
            }
        }
        proof {
            crate::residence::lemma_page_bounds(*store, new_idx as int);
        }
        let new_pg = store.get_page(new_idx);
        let new_addr = new_pg.get();
        let wflags = self.get_vmem_flags(!init);
        match vmem_transaction.map(new_addr, virt, wflags) {
            Result::Ok(_) => {},
            Result::Err(_) => {},
        }
        if !init {
            // The shared default page was handed out: release the
            // transient reference and leave the slot uncommitted.
            store.release_page(zones, new_idx);
            proof {
                assert forall|q: int| 0 <= q < old(store).len_spec() implies store.page(q) == old(store).page(q) by {
                    if q == new_idx as int {
                        crate::residence::lemma_page_ext(store.page(q), old(store).page(q));
                    }
                }
                assert(self.residence_spec().res_wf(*store));
            }
            return Ok(());
        }
        // Content fill: copy from the previous page through the mapping's
        // own virtual address, or zero-fill; physical memory contents are
        // outside this model.
        self.phys_pages[offset] = Some(new_idx);
        match slot {
            Option::Some(pp) => {
                proof {
                    assert(is_cow_spec(*old(store), pp as int, self.flags_spec()));
                    assert(store.live(pp as int));
                }
                store.release_page(zones, pp);
            },
            Option::None => {},
        }
        let f2 = self.get_vmem_flags(true);
        match vmem_transaction.map(new_addr, virt, f2) {
            Result::Ok(_) => {},
            Result::Err(_) => {},
        }
        proof {
            let ni = old(store).len_spec();
            assert(self.slots() =~= old(self).slots().update(
                offset as int,
                Option::Some(new_idx),
            ));
            // The mapping is well formed against the final store: the
            // fresh page is live with one reference, every other
            // committed page kept its holders.
            assert forall|k: int|
                0 <= k < self.slots().len() implies (match #[trigger] self.slots()[k] {
                Option::Some(p) => store.live(p as int),
                Option::None => true,
            }) by {
                if k != offset as int {
                    assert(self.slots()[k] == old(self).slots()[k]);
                    match old(self).slots()[k] {
                        Option::Some(p) => {
                            assert(old(store).live(p as int));
                            match old(self).slots()[offset as int] {
                                Option::Some(pp) => {
                                    assert(old(self).slots()[k] != old(self).slots()[
                                        offset as int]);
                                    assert(p != pp);
                                },
                                Option::None => {},
                            }
                        },
                        Option::None => {},
                    }
                }
            }
            assert forall|k: int, l: int|
                0 <= k < l < self.slots().len() && self.slots()[k] is Some implies self.slots()[k]
                != self.slots()[l] by {
                if k != offset as int && l != offset as int {
                    assert(self.slots()[k] == old(self).slots()[k] && self.slots()[l] == old(self).slots()[l]);
                } else {
                    let other: int = if k == offset as int {
                        l
                    } else {
                        k
                    };
                    assert(self.slots()[other] == old(self).slots()[other]);
                    match old(self).slots()[other] {
                        Option::Some(p) => {
                            assert(old(store).live(p as int));
                            assert((p as int) < ni);
                        },
                        Option::None => {},
                    }
                }
            }
        }
        Ok(())
    }

    /// Applies the mapping to the given transaction: installs a
    /// page-table entry for every page of the mapping. When the residence
    /// exposes a default page, uncommitted offsets map read-only to it
    /// and committed offsets map with write enabled unless still in
    /// copy-on-write state. Without a default page, every offset is
    /// eagerly resolved through [`MemMapping::alloc_page`]: on success
    /// every offset ends committed, its page staged with the mapping's
    /// true permissions; a failure means the user zone ran out of pages
    /// with some offset still unresolved, the edits staged so far
    /// remaining in the transaction.
    pub fn apply_to(
        &mut self,
        vmem_transaction: &mut VMemTransaction,
        store: &mut PageStore,
        zones: &mut Zones,
    ) -> (r: Result<(), ()>)
        requires
            old(self).wf(*old(store)),
            old(store).wf_with(*old(zones)),
            old(store).len_spec() + old(self).size_spec() <= usize::MAX,
        ensures
            final(self).wf(*final(store)),
            final(store).wf_with(*final(zones)),
            final(self).begin_spec() == old(self).begin_spec(),
            final(self).size_spec() == old(self).size_spec(),
            final(self).flags_spec() == old(self).flags_spec(),
            final(self).residence_spec() == old(self).residence_spec(),
            (match old(self).residence_spec().default_page_spec() {
                Option::Some(d) => {
                    let flags = old(self).flags_spec();
                    &&& r is Ok
                    &&& *final(self) == *old(self)
                    &&& *final(store) == *old(store)
                    &&& *final(zones) == *old(zones)
                    &&& final(vmem_transaction).ops_seq() == old(vmem_transaction).ops_seq()
                        + Seq::new(
                        old(self).size_spec() as nat,
                        |k: int|
                            (VMemOp::Install {
                                phys: (match old(self).slots()[k] {
                                    Option::Some(p) => old(store).page(p as int).addr_spec()
                                        as usize,
                                    Option::None => old(store).page(d as int).addr_spec() as usize,
                                }),
                                virt: (old(self).begin_spec() + k * (PAGE_SIZE as int)) as usize,
                                flags: vmem_flags_spec(
                                    flags,
                                    match old(self).slots()[k] {
                                        Option::Some(p) => !is_cow_spec(
                                            *old(store),
                                            p as int,
                                            flags,
                                        ),
                                        Option::None => false,
                                    },
                                ),
                            }),
                    )
                },
                Option::None => {
                    &&& old(vmem_transaction).ops_seq().is_prefix_of(
                        final(vmem_transaction).ops_seq(),
                    )
                    &&& (r is Err ==> first_free_order(final(zones).zone(0).lists(), 0)
                        == FREE_LIST_LEN as int)
                    &&& (r is Err ==> exists|k: int|
                        0 <= k < final(self).slots().len() && (match #[trigger] final(self).slots()[k] {
                            Option::None => true,
                            Option::Some(p) => is_cow_spec(
                                *final(store),
                                p as int,
                                old(self).flags_spec(),
                            ),
                        }))
                    &&& (r is Ok ==> forall|k: int|
                        0 <= k < final(self).slots().len() ==> (match #[trigger] final(self).slots()[k] {
                            Option::Some(p) => final(store).live(p as int) && final(vmem_transaction).ops_seq().skip(
                                old(vmem_transaction).ops_seq().len() as int,
                            ).contains(
                                (VMemOp::Install {
                                    phys: final(store).page(p as int).addr_spec() as usize,
                                    virt: (old(self).begin_spec() + k * (PAGE_SIZE as int))
                                        as usize,
                                    flags: vmem_flags_spec(old(self).flags_spec(), true),
                                }),
                            ),
                            Option::None => false,
                        }))
                    &&& forall|k: int|
                        0 <= k < old(self).slots().len() && (#[trigger] old(self).slots()[k])
                            is Some ==> final(self).slots()[k] is Some
                },
            }),
    {
        match self.residence.get_default_page() {
            Option::Some(d) => {
                proof {
                    assert(store.live(d as int));
                    crate::residence::lemma_page_bounds(*store, d as int);
                }
                let dpg = store.get_page(d);
                let daddr = dpg.get();
                let mut k: usize = 0;
                while k < self.size
                    invariant
                        self.wf(*store),
                        self.residence_spec().default_page_spec() == Option::Some(d),
                        store.live(d as int),
                        daddr as int == store.page(d as int).addr_spec(),
                        k <= self.size,
                        vmem_transaction.ops_seq() == old(vmem_transaction).ops_seq() + Seq::new(
                            k as nat,
                            |j: int|
                                (VMemOp::Install {
                                    phys: (match self.slots()[j] {
                                        Option::Some(p) => store.page(p as int).addr_spec()
                                            as usize,
                                        Option::None => store.page(d as int).addr_spec() as usize,
                                    }),
                                    virt: (self.begin_spec() + j * (PAGE_SIZE as int)) as usize,
                                    flags: vmem_flags_spec(
                                        self.flags_spec(),
                                        match self.slots()[j] {
                                            Option::Some(p) => !is_cow_spec(
                                                *store,
                                                p as int,
                                                self.flags_spec(),
                                            ),
                                            Option::None => false,
                                        },
                                    ),
                                }),
                        ),
                    decreases self.size - k,
                {
                    proof {
                        vstd::arithmetic::mul::lemma_mul_inequality(
                            k as int + 1,
                            self.size_spec(),
                            PAGE_SIZE as int,
                        );
                        assert((k as int + 1) * (PAGE_SIZE as int) == k as int * (
                        PAGE_SIZE as int) + PAGE_SIZE as int) by (nonlinear_arith);
                        vstd::arithmetic::mul::lemma_mul_nonnegative(k as int, PAGE_SIZE as int);
                    }
                    let virt_k = self.begin + k * PAGE_SIZE;
                    let slot = self.phys_pages[k];
                    let mut phys: usize = daddr;
                    let mut write = false;
                    match slot {
                        Option::Some(p) => {
                            proof {
                                crate::residence::lemma_page_bounds(*store, p as int);
                            }
                            let pg = store.get_page(p);
                            phys = pg.get();
                            write = !Self::is_cow(&pg, self.flags);
                        },
                        Option::None => {},
                    }
                    let f = self.get_vmem_flags(write);
                    match vmem_transaction.map(phys, virt_k, f) {
                        Result::Ok(_) => {},
                        Result::Err(_) => {},
                    }
                    proof {
                        assert(vmem_transaction.ops_seq() =~= old(vmem_transaction).ops_seq()
                            + Seq::new(
                            k as nat + 1,
                            |j: int|
                                (VMemOp::Install {
                                    phys: (match self.slots()[j] {
                                        Option::Some(p) => store.page(p as int).addr_spec()
                                            as usize,
                                        Option::None => store.page(d as int).addr_spec() as usize,
                                    }),
                                    virt: (self.begin_spec() + j * (PAGE_SIZE as int)) as usize,
                                    flags: vmem_flags_spec(
                                        self.flags_spec(),
                                        match self.slots()[j] {
                                            Option::Some(p) => !is_cow_spec(
                                                *store,
                                                p as int,
                                                self.flags_spec(),
                                            ),
                                            Option::None => false,
                                        },
                                    ),
                                }),
                        ));
                    }
                    k = k + 1;
                }
                Ok(())
            },
            Option::None => {
                let mut k: usize = 0;
                while k < self.size
                    invariant
                        self.wf(*store),
                        store.wf_with(*zones),
                        self.residence_spec().default_page_spec() is None,
                        k <= self.size,
                        self.begin_spec() == old(self).begin_spec(),
                        self.size_spec() == old(self).size_spec(),
                        self.flags_spec() == old(self).flags_spec(),
                        self.residence_spec() == old(self).residence_spec(),
                        store.len_spec() <= old(store).len_spec() + k as int,
                        old(store).len_spec() + old(self).size_spec() <= usize::MAX,
                        old(self).slots().len() == self.slots().len(),
                        old(vmem_transaction).ops_seq().is_prefix_of(vmem_transaction.ops_seq()),
                        forall|j: int|
                            0 <= j < k as int ==> (match #[trigger] self.slots()[j] {
                                Option::Some(p) => store.live(p as int)
                                    && vmem_transaction.ops_seq().skip(
                                    old(vmem_transaction).ops_seq().len() as int,
                                ).contains(
                                    (VMemOp::Install {
                                        phys: store.page(p as int).addr_spec() as usize,
                                        virt: (old(self).begin_spec() + j * (PAGE_SIZE as int))
                                            as usize,
                                        flags: vmem_flags_spec(old(self).flags_spec(), true),
                                    }),
                                ),
                                Option::None => false,
                            }),
                        forall|j: int|
                            0 <= j < old(self).slots().len() && (#[trigger] old(self).slots()[j])
                                is Some ==> self.slots()[j] is Some,
                    decreases self.size - k,
                {
                    let ghost pre = *self;
                    let ghost pre_store = *store;
                    let ghost pre_zones = *zones;
                    let ghost pre_tx = vmem_transaction.ops_seq();
                    match self.alloc_page(k, vmem_transaction, store, zones) {
                        Result::Ok(_) => {},
                        Result::Err(_) => {
                            proof {
                                // A fault can fail here only because the
                                // user zone is exhausted, and it leaves
                                // everything unchanged.
                                match pre.slots()[k as int] {
                                    Option::Some(p) => {
                                        if !is_cow_spec(pre_store, p as int, pre.flags_spec()) {
                                            assert(false);
                                        }
                                    },
                                    Option::None => {},
                                }
                                assert(first_free_order(zones.zone(0).lists(), 0)
                                    == FREE_LIST_LEN as int);
                                // The failing offset is still unresolved:
                                // its slot is uncommitted or in
                                // copy-on-write state.
                                assert(match self.slots()[k as int] {
                                    Option::None => true,
                                    Option::Some(p) => is_cow_spec(
                                        *store,
                                        p as int,
                                        old(self).flags_spec(),
                                    ),
                                });
                            }
                            return Err(());
                        },
                    }
                    proof {
                        let ki = k as int;
                        let tf = vmem_flags_spec(old(self).flags_spec(), true);
                        // The transaction only grew.
                        assert(pre_tx.is_prefix_of(vmem_transaction.ops_seq())) by {
                            match pre.slots()[ki] {
                                Option::Some(p) => {
                                    if !is_cow_spec(pre_store, p as int, pre.flags_spec()) {
                                        lemma_prefix_push(pre_tx, vmem_transaction.ops_seq()[
                                        vmem_transaction.ops_seq().len() - 1]);
                                    } else {
                                        lemma_prefix_push_n(pre_tx, vmem_transaction.ops_seq());
                                    }
                                },
                                Option::None => {
                                    lemma_prefix_push_n(pre_tx, vmem_transaction.ops_seq());
                                },
                            }
                        }
                        lemma_prefix_trans(
                            old(vmem_transaction).ops_seq(),
                            pre_tx,
                            vmem_transaction.ops_seq(),
                        );
                        // Earlier offsets keep their committed pages, whose
                        // records the fault did not touch, and their staged
                        // installs carry over; the faulting offset ends
                        // committed and staged with the true permissions.
                        let oldl = old(vmem_transaction).ops_seq().len() as int;
                        assert(oldl <= pre_tx.len());
                        crate::residence::lemma_store_len_nonneg(pre_store);
                        assert forall|j: int|
                            0 <= j < ki + 1 implies (match #[trigger] self.slots()[j] {
                            Option::Some(p) => store.live(p as int)
                                && vmem_transaction.ops_seq().skip(oldl).contains(
                                (VMemOp::Install {
                                    phys: store.page(p as int).addr_spec() as usize,
                                    virt: (old(self).begin_spec() + j * (PAGE_SIZE as int))
                                        as usize,
                                    flags: vmem_flags_spec(old(self).flags_spec(), true),
                                }),
                            ),
                            Option::None => false,
                        }) by {
                            let vj = (old(self).begin_spec() + j * (PAGE_SIZE as int)) as usize;
                            match pre.slots()[ki] {
                                Option::Some(p) => {
                                    if !is_cow_spec(pre_store, p as int, pre.flags_spec()) {
                                        assert(*self == pre && *store == pre_store);
                                        if j == ki {
                                            let op = (VMemOp::Install {
                                                phys: pre_store.page(p as int).addr_spec()
                                                    as usize,
                                                virt: vj,
                                                flags: tf,
                                            });
                                            assert(vmem_transaction.ops_seq() == pre_tx.push(op));
                                            assert(vmem_transaction.ops_seq()[pre_tx.len() as int]
                                                == op);
                                            assert(vmem_transaction.ops_seq().skip(oldl)[
                                            pre_tx.len() - oldl] == op);
                                            assert(vmem_transaction.ops_seq().skip(
                                                oldl,
                                            ).contains(op));
                                        } else {
                                            match pre.slots()[j] {
                                                Option::Some(pj) => {
                                                    lemma_suffix_contains(
                                                        pre_tx,
                                                        vmem_transaction.ops_seq(),
                                                        oldl,
                                                        (VMemOp::Install {
                                                            phys: pre_store.page(
                                                                pj as int,
                                                            ).addr_spec() as usize,
                                                            virt: vj,
                                                            flags: tf,
                                                        }),
                                                    );
                                                },
                                                Option::None => {},
                                            }
                                        }
                                    } else {
                                        let ni = pre_store.len_spec();
                                        assert(self.slots() == pre.slots().update(
                                            ki,
                                            Option::Some(ni as usize),
                                        ));
                                        if j == ki {
                                            assert(0 <= ni <= usize::MAX);
                                            assert(self.slots()[ki] == Option::Some(
                                                ni as usize,
                                            ));
                                            let op = (VMemOp::Install {
                                                phys: store.page(ni).addr_spec() as usize,
                                                virt: vj,
                                                flags: tf,
                                            });
                                            assert(vmem_transaction.ops_seq()[
                                            vmem_transaction.ops_seq().len() - 1] == op);
                                            assert(vmem_transaction.ops_seq().skip(oldl)[
                                            vmem_transaction.ops_seq().len() - 1 - oldl] == op);
                                            assert(vmem_transaction.ops_seq().skip(
                                                oldl,
                                            ).contains(op));
                                        } else {
                                            assert(self.slots()[j] == pre.slots()[j]);
                                            match pre.slots()[j] {
                                                Option::Some(pj) => {
                                                    assert(pre.slots()[j] != pre.slots()[ki]);
                                                    assert(pj != p);
                                                    assert((pj as int) < ni);
                                                    assert(store.page(pj as int).addr_spec()
                                                        == pre_store.page(pj as int).addr_spec());
                                                    assert(store.live(pj as int));
                                                    lemma_suffix_contains(
                                                        pre_tx,
                                                        vmem_transaction.ops_seq(),
                                                        oldl,
                                                        (VMemOp::Install {
                                                            phys: pre_store.page(
                                                                pj as int,
                                                            ).addr_spec() as usize,
                                                            virt: vj,
                                                            flags: tf,
                                                        }),
                                                    );
                                                },
                                                Option::None => {},
                                            }
                                        }
                                    }
                                },
                                Option::None => {
                                    let ni = pre_store.len_spec();
                                    assert(self.slots() == pre.slots().update(
                                        ki,
                                        Option::Some(ni as usize),
                                    ));
                                    if j == ki {
                                        assert(0 <= ni <= usize::MAX);
                                        assert(self.slots()[ki] == Option::Some(ni as usize));
                                        let op = (VMemOp::Install {
                                            phys: store.page(ni).addr_spec() as usize,
                                            virt: vj,
                                            flags: tf,
                                        });
                                        assert(vmem_transaction.ops_seq()[
                                        vmem_transaction.ops_seq().len() - 1] == op);
                                        assert(vmem_transaction.ops_seq().skip(oldl)[
                                        vmem_transaction.ops_seq().len() - 1 - oldl] == op);
                                        assert(vmem_transaction.ops_seq().skip(oldl).contains(
                                            op,
                                        ));
                                    } else {
                                        assert(self.slots()[j] == pre.slots()[j]);
                                        match pre.slots()[j] {
                                            Option::Some(pj) => {
                                                assert((pj as int) < ni);
                                                assert(store.page(pj as int) == pre_store.page(
                                                    pj as int,
                                                ));
                                                lemma_suffix_contains(
                                                    pre_tx,
                                                    vmem_transaction.ops_seq(),
                                                    oldl,
                                                    (VMemOp::Install {
                                                        phys: pre_store.page(
                                                            pj as int,
                                                        ).addr_spec() as usize,
                                                        virt: vj,
                                                        flags: tf,
                                                    }),
                                                );
                                            },
                                            Option::None => {},
                                        }
                                    }
                                },
                            }
                        }
                        // Committed slots stay committed.
                        assert forall|j: int|
                            0 <= j < old(self).slots().len() && (#[trigger] old(self).slots()[j])
                                is Some implies self.slots()[j] is Some by {
                            if j != k as int {
                                match pre.slots()[k as int] {
                                    Option::Some(p) => {
                                        if is_cow_spec(pre_store, p as int, pre.flags_spec()) {
                                            assert(self.slots() == pre.slots().update(
                                                k as int,
                                                Option::Some((pre_store.len_spec()) as usize),
                                            ));
                                            assert(self.slots()[j] == pre.slots()[j]);
                                        } else {
                                            assert(*self == pre);
                                        }
                                    },
                                    Option::None => {
                                        assert(self.slots() == pre.slots().update(
                                            k as int,
                                            Option::Some((pre_store.len_spec()) as usize),
                                        ));
                                        assert(self.slots()[j] == pre.slots()[j]);
                                    },
                                }
                                assert(pre.slots()[j] is Some);
                            }
                        }
                    }
                    k = k + 1;
                }
                Ok(())
            },
        }
    }

    /// Splits the mapping, removing the page range `[begin, begin + size)`
    /// and consuming the mapping: a prefix mapping keeps the pages before
    /// the range, a suffix mapping keeps the pages after it with the
    /// residence's file offset advanced past the range, a gap records the
    /// removed range, and each removed page loses this mapping's
    /// reference. An out-of-range end is truncated to the mapping's end.
    /// Physical page ownership is partitioned, never duplicated.
    #[verifier::rlimit(100)]
    pub fn split(self, begin: usize, size: usize, store: &mut PageStore, zones: &mut Zones) -> (r:
        (Option<MemMapping>, Option<MemGap>, Option<MemMapping>))
        requires
            self.wf(*old(store)),
            old(store).wf_with(*old(zones)),
            begin as int <= self.size_spec(),
            begin as int + size as int <= usize::MAX,
            self.residence_spec().off_spec() + begin as int + size as int <= usize::MAX,
        ensures
            final(store).wf_with(*final(zones)),
            final(store).len_spec() == old(store).len_spec(),
            final(zones).zone(1) == old(zones).zone(1),
            final(zones).zone(2) == old(zones).zone(2),
            final(zones).zone(0).count() == old(zones).zone(0).count(),
            ({
                let n = self.size_spec();
                let b = begin as int;
                let e = b + size as int;
                let ec = if e < n {
                    e
                } else {
                    n
                };
                &&& (match r.0 {
                    Option::Some(prefix) => {
                        &&& b > 0
                        &&& prefix.slots() == self.slots().subrange(0, b)
                        &&& prefix.begin_spec() == self.begin_spec()
                        &&& prefix.size_spec() == b
                        &&& prefix.flags_spec() == self.flags_spec()
                        &&& prefix.residence_spec() == self.residence_spec()
                        &&& prefix.wf(*final(store))
                    },
                    Option::None => b == 0,
                })
                &&& (match r.1 {
                    Option::Some(gap) => {
                        &&& size > 0
                        &&& gap.begin_spec() == self.begin_spec() + b * (PAGE_SIZE as int)
                        &&& gap.size_spec() == size as int
                    },
                    Option::None => size == 0,
                })
                &&& (match r.2 {
                    Option::Some(suffix) => {
                        &&& e < n
                        &&& suffix.slots() == self.slots().subrange(e, n)
                        &&& suffix.begin_spec() == self.begin_spec() + e * (PAGE_SIZE as int)
                        &&& suffix.size_spec() == n - e
                        &&& suffix.flags_spec() == self.flags_spec()
                        &&& suffix.residence_spec() == (match self.residence_spec() {
                            MapResidence::File { off } => (MapResidence::File {
                                off: (off + e) as usize,
                            }),
                            other => other,
                        })
                        &&& suffix.wf(*final(store))
                    },
                    Option::None => e >= n,
                })
                &&& forall|j: int|
                    b <= j < ec ==> (match #[trigger] self.slots()[j] {
                        Option::Some(p) => final(store).page(p as int).refs_spec() == old(store).page(p as int).refs_spec() - 1 && final(store).page(p as int).addr_spec()
                            == old(store).page(p as int).addr_spec(),
                        Option::None => true,
                    })
                &&& forall|q: int|
                    0 <= q < old(store).len_spec() && !slot_holds(
                        self.slots().subrange(b, ec),
                        q,
                    ) ==> final(store).page(q) == old(store).page(q)
            }),
    {
        let b = begin;
        let msize = self.size;
        let e = b + size;
        let ec = if e < msize {
            e
        } else {
            msize
        };
        let ghost slots0 = self.slots();
        let MemMapping { begin: mbegin, size: _, flags, residence, phys_pages } = self;
        proof {
            vstd::arithmetic::mul::lemma_mul_inequality(
                b as int,
                msize as int,
                PAGE_SIZE as int,
            );
            vstd::arithmetic::mul::lemma_mul_nonnegative(b as int, PAGE_SIZE as int);
            if (e as int) < msize as int {
                vstd::arithmetic::mul::lemma_mul_inequality(
                    e as int,
                    msize as int,
                    PAGE_SIZE as int,
                );
                vstd::arithmetic::mul::lemma_mul_nonnegative(e as int, PAGE_SIZE as int);
            }
        }
        // Prefix: the pages before the removed range.
        let prefix = if b > 0 {
            let mut pvec: Vec<Option<usize>> = Vec::new();
            let mut k: usize = 0;
            while k < b
                invariant
                    k <= b,
                    b <= phys_pages@.len(),
                    pvec@ == phys_pages@.subrange(0, k as int),
                decreases b - k,
            {
                pvec.push(phys_pages[k]);
                proof {
                    assert(pvec@ =~= phys_pages@.subrange(0, k as int + 1));
                }
                k = k + 1;
            }
            Some(
                MemMapping {
                    begin: mbegin,
                    size: b,
                    flags,
                    residence,
                    phys_pages: pvec,
                },
            )
        } else {
            None
        };
        // Gap: the removed range itself.
        let gap = if size > 0 {
            Some(MemGap::new(mbegin + b * PAGE_SIZE, size))
        } else {
            None
        };
        // Drop this mapping's reference on each removed page.
        let mut k: usize = b;
        while k < ec
            invariant
                b <= k <= ec,
                ec as int <= slots0.len(),
                slots0 == phys_pages@,
                store.wf_with(*zones),
                store.len_spec() == old(store).len_spec(),
                zones.zone(1) == old(zones).zone(1),
                zones.zone(2) == old(zones).zone(2),
                zones.zone(0).count() == old(zones).zone(0).count(),
                forall|k2: int, l2: int|
                    0 <= k2 < l2 < slots0.len() && slots0[k2] is Some ==> #[trigger] slots0[k2]
                        != #[trigger] slots0[l2],
                forall|j: int|
                    0 <= j < slots0.len() ==> (match #[trigger] slots0[j] {
                        Option::Some(p) => old(store).live(p as int),
                        Option::None => true,
                    }),
                forall|j: int|
                    b as int <= j < k as int ==> (match #[trigger] slots0[j] {
                        Option::Some(p) => store.page(p as int).refs_spec() == old(store).page(
                            p as int,
                        ).refs_spec() - 1 && store.page(p as int).addr_spec() == old(store).page(
                            p as int,
                        ).addr_spec(),
                        Option::None => true,
                    }),
                forall|q: int|
                    0 <= q < old(store).len_spec() && !slot_holds_below_from(
                        slots0,
                        q,
                        b as int,
                        k as int,
                    ) ==> store.page(q) == old(store).page(q),
            decreases ec - k,
        {
            match phys_pages[k] {
                Option::Some(p) => {
                    proof {
                        assert(old(store).live(p as int));
                        assert(!slot_holds_below_from(slots0, p as int, b as int, k as int)) by {
                            if slot_holds_below_from(slots0, p as int, b as int, k as int) {
                                let j = choose|j: int|
                                    b as int <= j < k as int && j < slots0.len() && (match
                                    #[trigger] slots0[j] {
                                        Option::Some(pp) => pp as int == p as int,
                                        Option::None => false,
                                    });
                                assert(slots0[j] != slots0[k as int]);
                            }
                        }
                        assert(store.live(p as int));
                    }
                    let ghost pre = *store;
                    store.release_page(zones, p);
                    proof {
                        assert forall|q: int|
                            0 <= q < old(store).len_spec() && !slot_holds_below_from(
                                slots0,
                                q,
                                b as int,
                                k as int + 1,
                            ) implies store.page(q) == old(store).page(q) by {
                            assert(q != p as int);
                            assert(!slot_holds_below_from(slots0, q, b as int, k as int)) by {
                                if slot_holds_below_from(slots0, q, b as int, k as int) {
                                    let j = choose|j: int|
                                        b as int <= j < k as int && j < slots0.len() && (match
                                        #[trigger] slots0[j] {
                                            Option::Some(pp) => pp as int == q,
                                            Option::None => false,
                                        });
                                    assert(slot_holds_below_from(
                                        slots0,
                                        q,
                                        b as int,
                                        k as int + 1,
                                    ));
                                }
                            }
                            assert(store.page(q) == pre.page(q));
                        }
                        assert forall|j: int|
                            b as int <= j < k as int + 1 implies (match #[trigger] slots0[j] {
                            Option::Some(pp) => store.page(pp as int).refs_spec() == old(store).page(pp as int).refs_spec() - 1 && store.page(pp as int).addr_spec()
                                == old(store).page(pp as int).addr_spec(),
                            Option::None => true,
                        }) by {
                            if j < k as int {
                                match slots0[j] {
                                    Option::Some(pp) => {
                                        assert(slots0[j] != slots0[k as int]);
                                        assert(pre.page(pp as int) == store.page(pp as int));
                                    },
                                    Option::None => {},
                                }
                            }
                        }
                    }
                },
                Option::None => {
                    proof {
                        assert forall|q: int|
                            0 <= q < old(store).len_spec() && !slot_holds_below_from(
                                slots0,
                                q,
                                b as int,
                                k as int + 1,
                            ) implies store.page(q) == old(store).page(q) by {
                            if slot_holds_below_from(slots0, q, b as int, k as int) {
                                let j = choose|j: int|
                                    b as int <= j < k as int && j < slots0.len() && (match
                                    #[trigger] slots0[j] {
                                        Option::Some(pp) => pp as int == q,
                                        Option::None => false,
                                    });
                                assert(slot_holds_below_from(slots0, q, b as int, k as int + 1));
                            }
                        }
                    }
                },
            }
            k = k + 1;
        }
        // Suffix: the pages after the removed range, with the residence's
        // file offset advanced past it.
        let suffix = if e < msize {
            let mut res2 = residence;
            res2.offset_add(e);
            let mut svec: Vec<Option<usize>> = Vec::new();
            let mut k2: usize = e;
            while k2 < msize
                invariant
                    e <= k2 <= msize,
                    msize as int == phys_pages@.len(),
                    svec@ == phys_pages@.subrange(e as int, k2 as int),
                decreases msize - k2,
            {
                svec.push(phys_pages[k2]);
                proof {
                    assert(svec@ =~= phys_pages@.subrange(e as int, k2 as int + 1));
                }
                k2 = k2 + 1;
            }
            proof {
                vstd::arithmetic::mul::lemma_mul_inequality(
                    msize as int - e as int,
                    msize as int,
                    PAGE_SIZE as int,
                );
                assert((msize as int - e as int) * (PAGE_SIZE as int) + e as int * (
                PAGE_SIZE as int) == msize as int * (PAGE_SIZE as int)) by (nonlinear_arith);
            }
            Some(
                MemMapping {
                    begin: mbegin + e * PAGE_SIZE,
                    size: msize - e,
                    flags,
                    residence: res2,
                    phys_pages: svec,
                },
            )
        } else {
            None
        };
        proof {
            let n = msize as int;
            let bi = b as int;
            let e2 = bi + size as int;
            let ec2 = if e2 < n {
                e2
            } else {
                n
            };
            // The per-page accounting over the whole removed range, and
            // untouched pages elsewhere.
            assert forall|q: int|
                0 <= q < old(store).len_spec() && !slot_holds(slots0.subrange(bi, ec2), q)
                implies store.page(q) == old(store).page(q) by {
                assert(!slot_holds_below_from(slots0, q, bi, ec2)) by {
                    if slot_holds_below_from(slots0, q, bi, ec2) {
                        let j = choose|j: int|
                            bi <= j < ec2 && j < slots0.len() && (match #[trigger] slots0[j] {
                                Option::Some(pp) => pp as int == q,
                                Option::None => false,
                            });
                        assert(slots0.subrange(bi, ec2)[j - bi] == slots0[j]);
                        assert(slot_holds(slots0.subrange(bi, ec2), q));
                    }
                }
            }
            // The prefix and suffix mappings stay well formed: their pages
            // are outside the removed range, so they kept their holders.
            match &prefix {
                Option::Some(pm) => {
                    assert forall|k3: int|
                        0 <= k3 < pm.slots().len() implies (match #[trigger] pm.slots()[k3] {
                        Option::Some(p) => store.live(p as int),
                        Option::None => true,
                    }) by {
                        assert(pm.slots()[k3] == slots0[k3]);
                        match slots0[k3] {
                            Option::Some(p) => {
                                assert(old(store).live(p as int));
                                assert(!slot_holds_below_from(
                                    slots0,
                                    p as int,
                                    bi,
                                    ec2,
                                )) by {
                                    if slot_holds_below_from(slots0, p as int, bi, ec2) {
                                        let j = choose|j: int|
                                            bi <= j < ec2 && j < slots0.len() && (match #[trigger]
                                            slots0[j] {
                                                Option::Some(pp) => pp as int == p as int,
                                                Option::None => false,
                                            });
                                        assert(slots0[k3] != slots0[j]);
                                    }
                                }
                            },
                            Option::None => {},
                        }
                    }
                    match pm.residence_spec().default_page_spec() {
                        Option::Some(d) => {
                            assert(old(store).live(d as int));
                            assert(!slot_holds_below_from(slots0, d as int, bi, ec2)) by {
                                if slot_holds_below_from(slots0, d as int, bi, ec2) {
                                    let j = choose|j: int|
                                        bi <= j < ec2 && j < slots0.len() && (match #[trigger]
                                        slots0[j] {
                                            Option::Some(pp) => pp as int == d as int,
                                            Option::None => false,
                                        });
                                    assert(slots0[j] != Option::Some(d));
                                }
                            }
                            assert(store.live(d as int));
                            assert forall|k3: int|
                                0 <= k3 < pm.slots().len() implies #[trigger] pm.slots()[k3]
                                != Option::Some(d) by {
                                assert(pm.slots()[k3] == slots0[k3]);
                            }
                        },
                        Option::None => {},
                    }
                },
                Option::None => {},
            }
            match &suffix {
                Option::Some(sm) => {
                    assert forall|k3: int|
                        0 <= k3 < sm.slots().len() implies (match #[trigger] sm.slots()[k3] {
                        Option::Some(p) => store.live(p as int),
                        Option::None => true,
                    }) by {
                        assert(sm.slots()[k3] == slots0[k3 + e as int]);
                        match slots0[k3 + e as int] {
                            Option::Some(p) => {
                                assert(old(store).live(p as int));
                                assert(!slot_holds_below_from(
                                    slots0,
                                    p as int,
                                    bi,
                                    ec2,
                                )) by {
                                    if slot_holds_below_from(slots0, p as int, bi, ec2) {
                                        let j = choose|j: int|
                                            bi <= j < ec2 && j < slots0.len() && (match #[trigger]
                                            slots0[j] {
                                                Option::Some(pp) => pp as int == p as int,
                                                Option::None => false,
                                            });
                                        assert(slots0[k3 + e as int] != slots0[j]);
                                    }
                                }
                            },
                            Option::None => {},
                        }
                    }
                    assert forall|k3: int, l3: int|
                        0 <= k3 < l3 < sm.slots().len() && sm.slots()[k3] is Some
                        implies #[trigger] sm.slots()[k3] != #[trigger] sm.slots()[l3] by {
                        assert(sm.slots()[k3] == slots0[k3 + e as int] && sm.slots()[l3]
                            == slots0[l3 + e as int]);
                    }
                    match sm.residence_spec().default_page_spec() {
                        Option::Some(d) => {
                            assert(old(store).live(d as int));
                            assert(!slot_holds_below_from(slots0, d as int, bi, ec2)) by {
                                if slot_holds_below_from(slots0, d as int, bi, ec2) {
                                    let j = choose|j: int|
                                        bi <= j < ec2 && j < slots0.len() && (match #[trigger]
                                        slots0[j] {
                                            Option::Some(pp) => pp as int == d as int,
                                            Option::None => false,
                                        });
                                    assert(slots0[j] != Option::Some(d));
                                }
                            }
                            assert(store.live(d as int));
                            assert forall|k3: int|
                                0 <= k3 < sm.slots().len() implies #[trigger] sm.slots()[k3]
                                != Option::Some(d) by {
                                assert(sm.slots()[k3] == slots0[k3 + e as int]);
                            }
                        },
                        Option::None => {},
                    }
                },
                Option::None => {},
            }
        }
        (prefix, gap, suffix)
    }

    /// Synchronizes the mapping's data back to its backing file: a no-op
    /// unless the mapping is shared and file-backed; otherwise the
    /// mapping's live bytes — read through the page-table context and
    /// passed in as `bytes` — are written to the file at the residence's
    /// byte offset, re-issuing partial writes for the bytes not yet
    /// flushed until the full range is flushed or a write error occurs. A
    /// write that makes no progress is reported as an error rather than
    /// retried forever.
    pub fn fs_sync<F: BackingFile>(&self, bytes: &[u8], file: &mut F) -> (r: Result<(), ()>)
        requires
            (self.flags_spec() & MAPPING_FLAG_SHARED != 0 && (self.residence_spec() matches
                MapResidence::File { .. })) ==> bytes@.len() == self.size_spec() * (
            PAGE_SIZE as int) && self.residence_spec().off_spec() * (PAGE_SIZE as int)
                + bytes@.len() <= usize::MAX,
        ensures
            ({
                let base = self.residence_spec().off_spec() * (PAGE_SIZE as int);
                if self.flags_spec() & MAPPING_FLAG_SHARED == 0 || !(self.residence_spec()
                    matches MapResidence::File { .. }) {
                    r is Ok && final(file).data() == old(file).data()
                } else {
                    match r {
                        Result::Ok(_) => final(file).data() == write_bytes(
                            old(file).data(),
                            base,
                            bytes@,
                        ),
                        Result::Err(_) => exists|m: int|
                            0 <= m <= bytes@.len() && final(file).data() == write_bytes(
                                old(file).data(),
                                base,
                                #[trigger] bytes@.subrange(0, m),
                            ),
                    }
                }
            }),
    {
        if self.flags & MAPPING_FLAG_SHARED == 0 {
            return Ok(());
        }
        let off = match &self.residence {
            MapResidence::File { off } => *off,
            MapResidence::Anonymous { .. } => {
                return Ok(());
            },
        };
        let base = off * PAGE_SIZE;
        let mut i: usize = 0;
        proof {
            assert(bytes@.subrange(0, 0) =~= Seq::<u8>::empty());
            assert(write_bytes(old(file).data(), base as int, Seq::<u8>::empty()) =~= old(file).data());
        }
        while i < bytes.len()
            invariant
                i <= bytes@.len(),
                self.flags_spec() & MAPPING_FLAG_SHARED != 0,
                self.residence_spec() matches MapResidence::File { .. },
                base as int == self.residence_spec().off_spec() * (PAGE_SIZE as int),
                base + bytes@.len() <= usize::MAX,
                file.data() == write_bytes(
                    old(file).data(),
                    base as int,
                    bytes@.subrange(0, i as int),
                ),
            decreases bytes@.len() - i,
        {
            let sub = vstd::slice::slice_subrange(bytes, i, bytes.len());
            let ghost pre_data = file.data();
            let n = match file.write(base + i, sub) {
                Result::Ok(n) => n,
                Result::Err(_) => {
                    proof {
                        let m = i as int;
                        assert(0 <= m <= bytes@.len() && file.data() == write_bytes(
                            old(file).data(),
                            base as int,
                            bytes@.subrange(0, m),
                        ));
                    }
                    return Err(());
                },
            };
            if n == 0 {
                proof {
                    assert(sub@.subrange(0, 0).len() == 0);
                    assert(file.data() == pre_data);
                    let m = i as int;
                    assert(0 <= m <= bytes@.len() && file.data() == write_bytes(
                        old(file).data(),
                        base as int,
                        bytes@.subrange(0, m),
                    ));
                }
                return Err(());
            }
            proof {
                crate::backing::lemma_write_bytes_append(
                    old(file).data(),
                    base as int,
                    bytes@.subrange(0, i as int),
                    sub@.subrange(0, n as int),
                );
                assert(bytes@.subrange(0, i as int) + sub@.subrange(0, n as int) =~= bytes@
                    .subrange(0, i as int + n as int));
            }
            i = i + n;
        }
        proof {
            assert(bytes@.subrange(0, bytes@.len() as int) =~= bytes@);
        }
        Ok(())
    }

    /// Unmaps the page range `[start, start + count)` of the mapping: the
    /// data is synchronized to the backing file when applicable, then the
    /// removal of the range's page-table entries is staged into the
    /// transaction. The page-table context is not flushed here; the
    /// caller must do so after the transaction commits.
    pub fn unmap<F: BackingFile>(
        &self,
        start: usize,
        count: usize,
        vmem_transaction: &mut VMemTransaction,
        bytes: &[u8],
        file: &mut F,
    ) -> (r: Result<(), ()>)
        requires
            start as int + count as int <= self.size_spec(),
            self.begin_spec() + self.size_spec() * (PAGE_SIZE as int) <= usize::MAX,
            (self.flags_spec() & MAPPING_FLAG_SHARED != 0 && (self.residence_spec() matches
                MapResidence::File { .. })) ==> bytes@.len() == self.size_spec() * (
            PAGE_SIZE as int) && self.residence_spec().off_spec() * (PAGE_SIZE as int)
                + bytes@.len() <= usize::MAX,
        ensures
            ({
                let base = self.residence_spec().off_spec() * (PAGE_SIZE as int);
                let synced = self.flags_spec() & MAPPING_FLAG_SHARED != 0 && (
                self.residence_spec() matches MapResidence::File { .. });
                match r {
                    Result::Ok(_) => {
                        &&& final(vmem_transaction).ops_seq() == old(vmem_transaction).ops_seq()
                            .push(
                            (VMemOp::RemoveRange {
                                virt: (self.begin_spec() + start * (PAGE_SIZE as int)) as usize,
                                count,
                            }),
                        )
                        &&& (synced ==> final(file).data() == write_bytes(
                            old(file).data(),
                            base,
                            bytes@,
                        ))
                        &&& (!synced ==> final(file).data() == old(file).data())
                    },
                    Result::Err(_) => {
                        &&& final(vmem_transaction).ops_seq() == old(vmem_transaction).ops_seq()
                        &&& synced
                        &&& exists|m: int|
                            0 <= m <= bytes@.len() && final(file).data() == write_bytes(
                                old(file).data(),
                                base,
                                #[trigger] bytes@.subrange(0, m),
                            )
                    },
                }
            }),
    {
        match self.fs_sync(bytes, file) {
            Result::Ok(_) => {},
            Result::Err(_) => {
                return Err(());
            },
        }
        proof {
            vstd::arithmetic::mul::lemma_mul_inequality(
                start as int,
                self.size_spec(),
                PAGE_SIZE as int,
            );
            vstd::arithmetic::mul::lemma_mul_nonnegative(start as int, PAGE_SIZE as int);
        }
        let virt = self.begin + start * PAGE_SIZE;
        match vmem_transaction.unmap_range(virt, count) {
            Result::Ok(_) => {},
            Result::Err(_) => {},
        }
        Ok(())
    }
}

/// A sequence is a prefix of itself extended by one element.
proof fn lemma_prefix_push(a: Seq<VMemOp>, x: VMemOp)
    ensures
        a.is_prefix_of(a.push(x)),
{
    assert(a =~= a.push(x).subrange(0, a.len() as int));
}

/// A sequence that agrees with a longer one on its whole length is a
/// prefix of it.
proof fn lemma_prefix_push_n(a: Seq<VMemOp>, b: Seq<VMemOp>)
    requires
        a.len() <= b.len(),
        forall|i: int| 0 <= i < a.len() ==> a[i] == #[trigger] b[i],
    ensures
        a.is_prefix_of(b),
{
    assert(a =~= b.subrange(0, a.len() as int));
}

/// Prefixes compose.
proof fn lemma_prefix_trans(a: Seq<VMemOp>, b: Seq<VMemOp>, c: Seq<VMemOp>)
    requires
        a.is_prefix_of(b),
        b.is_prefix_of(c),
    ensures
        a.is_prefix_of(c),
{
    assert forall|i: int| 0 <= i < a.len() implies a[i] == c.subrange(
        0,
        a.len() as int,
    )[i] by {
        assert(a[i] == b.subrange(0, a.len() as int)[i]);
        assert(b[i] == c.subrange(0, b.len() as int)[i]);
    }
    assert(a =~= c.subrange(0, a.len() as int));
}

/// Membership past position `n` carries from a prefix to the longer
/// sequence.
proof fn lemma_suffix_contains(a: Seq<VMemOp>, b: Seq<VMemOp>, n: int, x: VMemOp)
    requires
        0 <= n <= a.len(),
        a.is_prefix_of(b),
        a.skip(n).contains(x),
    ensures
        b.skip(n).contains(x),
{
    let i = choose|i: int| 0 <= i < a.skip(n).len() && a.skip(n)[i] == x;
    assert(a[n + i] == b.subrange(0, a.len() as int)[n + i]);
    assert(b.skip(n)[i] == x);
}

/// Page `q` of the store is held by a slot of `slots` with index in
/// `[from, to)`.
pub open spec fn slot_holds_below_from(
    slots: Seq<Option<usize>>,
    q: int,
    from: int,
    to: int,
) -> bool {
    exists|k: int|
        from <= k < to && k < slots.len() && (match #[trigger] slots[k] {
            Option::Some(p) => p as int == q,
            Option::None => false,
        })
}

} // verus!
