//! Stepping from a page table to the table below it.
use vstd::prelude::*;
use crate::arch::{
    get_pte_frame, make_intermediate_pte, max_pte_frame, pte_is_present, pte_is_terminal,
    spec_pte_frame, spec_pte_is_present, spec_pte_is_terminal,
};
use crate::err::Result;
use crate::mm::types::PhysFrameNum;
use super::{PageTableAlloc, PageTableMemory, TranslatePhys};

verus! {

/// How a step down from an entry went: the table below, or why there is none.
#[derive(Clone, Copy, Debug, PartialEq, Eq, Structural)]
pub enum Step {
    /// The entry points to the table in this frame.
    Table(PhysFrameNum),
    /// The entry is empty.
    Empty,
    /// The entry maps a large page: there is no table below it.
    LargePage,
}

/// What stepping down from `entry`, at `level`, finds.
pub open spec fn spec_step(entry: u64, level: usize) -> Step {
    if !spec_pte_is_present(entry) {
        Step::Empty
    } else if spec_pte_is_terminal(entry, level) {
        Step::LargePage
    } else {
        Step::Table(PhysFrameNum::spec_new(spec_pte_frame(entry)))
    }
}

/// Walks page tables, reaching each table through `translator`.
pub struct Walker<T> {
    translator: T,
}

impl<T: TranslatePhys> Walker<T> {
    /// A walker that reaches tables through `translator`.
    pub fn new(translator: T) -> (r: Self)
        ensures
            r.spec_translator() == translator,
    {
        Walker { translator }
    }

    /// The translator through which tables are reached.
    pub closed spec fn spec_translator(&self) -> T {
        self.translator
    }

    /// The table that entry `index` of `table`, at `level`, points to.
    pub fn next_table(&self, mem: &PageTableMemory, table: PhysFrameNum, index: usize, level: usize) -> (r: Step)
        requires
            index < 512,
        ensures
            r == spec_step(mem.spec_entry(table@, index as int), level),
    {
        let entry = mem.read(table, index);
        if !pte_is_present(entry, level) {
            Step::Empty
        } else if pte_is_terminal(entry, level) {
            Step::LargePage
        } else {
            let frame = PhysFrameNum::new(get_pte_frame(entry, level));
            proof {
                PhysFrameNum::lemma_spec_new(frame);
            }
            Step::Table(frame)
        }
    }

    /// The table that entry `index` of `table`, at `level`, points to, creating it when the entry
    /// is empty: a frame from `alloc` is cleared and the entry made to point to it. Entries of
    /// tables above the last level grant every permission, so reaching a table with `perms`
    /// needs no change to an existing entry.
    ///
    /// Errors: those of `alloc`.
    pub fn next_table_or_create<A: PageTableAlloc>(
        &self,
        mem: &mut PageTableMemory,
        table: PhysFrameNum,
        index: usize,
        level: usize,
        alloc: &mut A,
    ) -> (r: Result<Step>)
        requires
            index < 512,
            0 < level < 4,
            old(alloc).ready(),
        ensures
            final(alloc).ready(),
            old(alloc).hands_out_fresh() ==> final(alloc).hands_out_fresh() && forall|g: usize|
                #[trigger] final(alloc).may_hand_out(g) ==> old(alloc).may_hand_out(g),
            spec_step(old(mem).spec_entry(table@, index as int), level) !is Empty ==> r == Ok::<Step, crate::err::Error>(
                spec_step(old(mem).spec_entry(table@, index as int), level),
            ) && *final(mem) == *old(mem),
            spec_step(old(mem).spec_entry(table@, index as int), level) is Empty ==> match r {
                Ok(Step::Table(next)) => {
                    &&& spec_pte_is_present(final(mem).spec_entry(table@, index as int))
                    &&& !spec_pte_is_terminal(final(mem).spec_entry(table@, index as int), level)
                    &&& next@ < max_pte_frame() ==> spec_pte_frame(final(mem).spec_entry(table@, index as int)) == next@
                    &&& next@ != table@ ==> forall|i: int| 0 <= i < 512 ==> #[trigger] final(mem).spec_entry(next@, i) == 0
                    &&& forall|t: usize, i: int|
                        #![trigger final(mem).spec_entry(t, i)]
                        !(t == table@ && i == index) ==> final(mem).spec_entry(t, i) == if t == next@ {
                            0
                        } else {
                            old(mem).spec_entry(t, i)
                        }
                    &&& old(alloc).hands_out_fresh() ==> old(alloc).may_hand_out(next@)
                        && !final(alloc).may_hand_out(next@)
                },
                Ok(_) => false,
                Err(_) => *final(mem) == *old(mem),
            },
    {
        let step = self.next_table(mem, table, index, level);
        match step {
            Step::Empty => {},
            _ => {
                return Ok(step);
            },
        }
        let new_table = alloc.allocate()?;
        mem.clear_table(new_table);
        mem.write(table, index, make_intermediate_pte(level, new_table.as_usize()));
        Ok(Step::Table(new_table))
    }
}

} // verus!
