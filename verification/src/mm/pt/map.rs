//! Mapping single pages, one walk from the root table at a time.
use vstd::prelude::*;
use crate::arch::{
    make_terminal_pte, max_pte_frame, pte_is_present, spec_pte_frame, spec_pte_is_present,
    spec_pte_is_terminal, PTE_LARGE,
};
use crate::mm::types::{CacheMode, PageTablePerms, PhysFrameNum, VirtPageNum};
use super::walk::{Step, Walker};
use super::{
    lemma_fill_terminal, lemma_link_new_table, lemma_lookup_kept, lemma_present_kept_trans,
    levels_extend, mapping_ready, mapping_state, present_entries_kept, spec_lookup, tables_leveled,
    PageTableAlloc, PageTableMemory, TranslatePhys,
};

verus! {

/// Why a page could not be mapped.
#[derive(Clone, Copy, Debug, PartialEq, Eq, Structural)]
pub enum MapError {
    /// A page table could not be allocated.
    AllocFailed,
    /// The page is already mapped, by a page or by a large page on the way to it.
    EntryExists,
}

/// Maps single pages into the page table rooted at a frame, allocating tables on the way.
pub struct Mapper<T> {
    root_pt: PhysFrameNum,
    walker: Walker<T>,
}

impl<T: TranslatePhys> Mapper<T> {
    /// The frame of the root table.
    pub closed spec fn spec_root(&self) -> PhysFrameNum {
        self.root_pt
    }

    /// A mapper over the page table rooted at `root_pt`, whose tables are reached through
    /// `translator`.
    pub fn new(root_pt: PhysFrameNum, translator: T) -> (r: Self)
        ensures
            r.spec_root() == root_pt,
    {
        Mapper { root_pt, walker: Walker::new(translator) }
    }

    /// Steps down from entry `index` of `table` at `level`, creating the table below if needed.
    fn descend<A: PageTableAlloc>(
        &self,
        mem: &mut PageTableMemory,
        alloc: &mut A,
        table: PhysFrameNum,
        index: usize,
        level: usize,
        Ghost(lv): Ghost<Map<usize, nat>>,
    ) -> (r: Result<PhysFrameNum, MapError>)
        requires
            index < 512,
            0 < level < 4,
            old(alloc).ready(),
        ensures
            final(alloc).ready(),
            r matches Ok(next) ==> spec_pte_is_present(final(mem).spec_entry(table@, index as int))
                && !spec_pte_is_terminal(final(mem).spec_entry(table@, index as int), level),
            lv.contains_key(table@) && lv[table@] == level && mapping_state(*old(mem), lv, *old(alloc)) ==> {
                &&& present_entries_kept(*old(mem), *final(mem), lv)
                &&& exists|lv2: Map<usize, nat>|
                    #[trigger] levels_extend(lv, lv2) && mapping_state(*final(mem), lv2, *final(alloc)) && (
                    r matches Ok(next) ==> lv2.contains_key(next@) && lv2[next@] == level - 1)
                &&& r matches Ok(next) ==> spec_pte_frame(final(mem).spec_entry(table@, index as int))
                    == next@
            },
    {
        let ghost m0 = *mem;
        let ghost pre = lv.contains_key(table@) && lv[table@] == level && mapping_state(*mem, lv, *alloc);
        let step = self.walker.next_table_or_create(mem, table, index, level, alloc);
        proof {
            if pre {
                lemma_index_range(index);
                let e = m0.spec_entry(table@, index as int);
                if spec_pte_is_present(e) {
                    assert(levels_extend(lv, lv));
                    PhysFrameNum::lemma_spec_new_view(spec_pte_frame(e));
                    if !spec_pte_is_terminal(e, level) {
                        assert(lv[table@] > 0 && e & PTE_LARGE == 0);
                        assert(lv.contains_key(spec_pte_frame(e)));
                    }
                } else {
                    match step {
                        Ok(Step::Table(next)) => {
                            assert(!lv.contains_key(next@));
                            lemma_link_new_table(m0, *mem, lv, table@, index as int, next@);
                            assert(levels_extend(lv, lv.insert(next@, (level - 1) as nat)));
                        },
                        _ => {
                            assert(levels_extend(lv, lv));
                        },
                    }
                }
            }
        }
        match step {
            Ok(Step::Table(next)) => Ok(next),
            Ok(_) => Err(MapError::EntryExists),
            Err(_) => Err(MapError::AllocFailed),
        }
    }

    /// Maps page `virt` to frame `phys` with permissions `perms`, creating the tables on the way
    /// to it. An existing mapping of the page is never replaced.
    ///
    /// Where the page table and allocator are ready for mapping ([`mapping_ready`]), the page is
    /// then found mapped to `phys`, and every page mapped before stays mapped as it was.
    ///
    /// Errors: `AllocFailed` when a table could not be allocated; `EntryExists` when the page is
    /// already mapped.
    pub fn map<A: PageTableAlloc>(
        &mut self,
        mem: &mut PageTableMemory,
        alloc: &mut A,
        virt: VirtPageNum,
        phys: PhysFrameNum,
        perms: PageTablePerms,
    ) -> (r: Result<(), MapError>)
        requires
            old(alloc).ready(),
        ensures
            final(alloc).ready(),
            final(self).spec_root() == old(self).spec_root(),
            r is Ok && phys@ < max_pte_frame() ==> exists|t: usize| {
                let entry = #[trigger] final(mem).spec_entry(t, crate::mm::types::spec_pt_index(virt@, 0) as int);
                &&& spec_pte_is_present(entry)
                &&& spec_pte_frame(entry) == phys@
            },
            mapping_ready(*old(mem), old(self).spec_root()@, *old(alloc)) && phys@ < max_pte_frame() ==> {
                &&& mapping_ready(*final(mem), old(self).spec_root()@, *final(alloc))
                &&& r is Ok ==> spec_lookup(*final(mem), old(self).spec_root()@, 3, virt@) == Some(phys@ as int)
                &&& forall|vpn: usize|
                    #![trigger spec_lookup(*final(mem), old(self).spec_root()@, 3, vpn)]
                    spec_lookup(*old(mem), old(self).spec_root()@, 3, vpn) is Some ==> spec_lookup(
                        *final(mem),
                        old(self).spec_root()@,
                        3,
                        vpn,
                    ) == spec_lookup(*old(mem), old(self).spec_root()@, 3, vpn)
            },
    {
        let ghost root = self.root_pt@;
        let ghost m0 = *mem;
        let ghost ready = mapping_ready(*mem, root, *alloc) && phys@ < max_pte_frame();
        let ghost lv0 = if ready {
            choose|lv: Map<usize, nat>| #[trigger] mapping_state(*mem, lv, *alloc) && lv.contains_key(root) && lv[root] == 3
        } else {
            Map::empty()
        };
        let i3 = virt.pt_index(3);
        let i2 = virt.pt_index(2);
        let i1 = virt.pt_index(1);
        let index = virt.pt_index(0);
        let r3 = self.descend(mem, alloc, self.root_pt, i3, 3, Ghost(lv0));
        let ghost m1 = *mem;
        let ghost lv1 = choose|lv2: Map<usize, nat>|
            #[trigger] levels_extend(lv0, lv2) && mapping_state(m1, lv2, *alloc) && (r3 matches Ok(next)
                ==> lv2.contains_key(next@) && lv2[next@] == 2);
        proof {
            if ready {
                lemma_mapping_kept(m0, m1, lv0, lv1, root, *alloc);
            }
        }
        let pt3 = match r3 {
            Ok(t) => t,
            Err(e) => {
                return Err(e);
            },
        };
        let r2 = self.descend(mem, alloc, pt3, i2, 2, Ghost(lv1));
        let ghost m2 = *mem;
        let ghost lv2 = choose|lv2: Map<usize, nat>|
            #[trigger] levels_extend(lv1, lv2) && mapping_state(m2, lv2, *alloc) && (r2 matches Ok(next)
                ==> lv2.contains_key(next@) && lv2[next@] == 1);
        proof {
            if ready {
                lemma_present_kept_trans(m0, m1, m2, lv0, lv1);
                lemma_mapping_kept(m0, m2, lv0, lv2, root, *alloc);
            }
        }
        let pt2 = match r2 {
            Ok(t) => t,
            Err(e) => {
                return Err(e);
            },
        };
        let r1 = self.descend(mem, alloc, pt2, i1, 1, Ghost(lv2));
        let ghost m3 = *mem;
        let ghost lv3 = choose|lv3: Map<usize, nat>|
            #[trigger] levels_extend(lv2, lv3) && mapping_state(m3, lv3, *alloc) && (r1 matches Ok(next)
                ==> lv3.contains_key(next@) && lv3[next@] == 0);
        proof {
            if ready {
                lemma_present_kept_trans(m0, m1, m2, lv0, lv1);
                lemma_present_kept_trans(m0, m2, m3, lv0, lv2);
                lemma_mapping_kept(m0, m3, lv0, lv3, root, *alloc);
            }
        }
        let pt1 = match r1 {
            Ok(t) => t,
            Err(e) => {
                return Err(e);
            },
        };
        let target = mem.read(pt1, index);
        if pte_is_present(target, 0) {
            proof {
                if ready {
                    lemma_present_kept_trans(m0, m1, m2, lv0, lv1);
                    lemma_present_kept_trans(m0, m2, m3, lv0, lv2);
                    self::lemma_kept_lookups(m0, *mem, lv0, root);
                }
            }
            return Err(MapError::EntryExists);
        }
        let entry = make_terminal_pte(0, phys.as_usize(), perms, CacheMode::Cached);
        mem.write(pt1, index, entry);
        proof {
            assert(final(mem).spec_entry(pt1@, index as int) == entry);
            if ready {
                lemma_index_range(index);
                lemma_fill_terminal(m3, *mem, lv3, pt1@, index as int);
                lemma_present_kept_trans(m0, m1, m2, lv0, lv1);
                lemma_present_kept_trans(m0, m2, m3, lv0, lv2);
                lemma_present_kept_trans(m0, m3, *mem, lv0, lv3);
                self::lemma_kept_lookups(m0, *mem, lv0, root);
                assert(mapping_state(*mem, lv3, *alloc) && lv3.contains_key(root) && lv3[root] == 3);
                lemma_index_range(i3);
                lemma_index_range(i2);
                lemma_index_range(i1);
                assert(mem.spec_entry(root, i3 as int) == m1.spec_entry(root, i3 as int));
                assert(mem.spec_entry(pt3@, i2 as int) == m2.spec_entry(pt3@, i2 as int));
                assert(mem.spec_entry(pt2@, i1 as int) == m3.spec_entry(pt2@, i1 as int));
                vstd::arithmetic::power2::lemma2_to64();
                assert(spec_lookup(*mem, pt1@, 0, virt@) == Some(phys@ as int));
                assert(spec_lookup(*mem, pt2@, 1, virt@) == Some(phys@ as int));
                assert(spec_lookup(*mem, pt3@, 2, virt@) == Some(phys@ as int));
                assert(spec_lookup(*mem, root, 3, virt@) == Some(phys@ as int));
            }
        }
        Ok(())
    }
}

/// A page table whose tables are leveled by `lv` with the root at the top, grown from `lv0` while
/// the present entries of `lv0` were kept, is ready for mapping and maps every page it mapped
/// before the same.
proof fn lemma_mapping_kept<A: PageTableAlloc>(
    m0: PageTableMemory,
    m1: PageTableMemory,
    lv0: Map<usize, nat>,
    lv: Map<usize, nat>,
    root: usize,
    alloc: A,
)
    requires
        tables_leveled(m0, lv0),
        present_entries_kept(m0, m1, lv0),
        levels_extend(lv0, lv),
        mapping_state(m1, lv, alloc),
        lv0.contains_key(root),
        lv0[root] == 3,
    ensures
        mapping_ready(m1, root, alloc),
        forall|vpn: usize|
            #![trigger spec_lookup(m1, root, 3, vpn)]
            spec_lookup(m0, root, 3, vpn) is Some ==> spec_lookup(m1, root, 3, vpn) == spec_lookup(m0, root, 3, vpn),
{
    assert(mapping_state(m1, lv, alloc) && lv.contains_key(root) && lv[root] == 3);
    lemma_kept_lookups(m0, m1, lv0, root);
}

/// The entries of a table are those at indexes below 512.
proof fn lemma_index_range(index: usize)
    requires
        index < 512,
    ensures
        0 <= index as int && (index as int) < 512,
{
}

/// Every page that `m0` maps through the table `root` of `lv` is mapped the same in `m1` when the
/// present entries of `lv` are kept.
proof fn lemma_kept_lookups(m0: PageTableMemory, m1: PageTableMemory, lv: Map<usize, nat>, root: usize)
    requires
        tables_leveled(m0, lv),
        present_entries_kept(m0, m1, lv),
        lv.contains_key(root),
        lv[root] == 3,
    ensures
        forall|vpn: usize|
            #![trigger spec_lookup(m1, root, 3, vpn)]
            spec_lookup(m0, root, 3, vpn) is Some ==> spec_lookup(m1, root, 3, vpn) == spec_lookup(m0, root, 3, vpn),
{
    assert forall|vpn: usize|
        #![trigger spec_lookup(m1, root, 3, vpn)]
        spec_lookup(m0, root, 3, vpn) is Some implies spec_lookup(m1, root, 3, vpn) == spec_lookup(m0, root, 3, vpn) by {
        lemma_lookup_kept(m0, m1, lv, root, 3, vpn);
    }
}

} // verus!
