//! VM objects: the sources of the frames that mappings map.
use vstd::prelude::*;
use vstd::arithmetic::power2::pow2;
use crate::err::{Error, Result};
use crate::mm::pmm::{alloc_frame, free_blocks_disjoint, in_free_block, PhysManager};
use crate::mm::types::{CacheMode, PhysFrameNum};

verus! {

/// The access expected to a requested page.
#[derive(Clone, Copy, Debug, PartialEq, Eq, Structural)]
pub enum CommitType {
    /// The page will only be read or executed.
    Read,
    /// The page may be written.
    Write,
}

/// A virtual memory object that can be mapped into an address space.
pub trait VmObject {
    /// The size of the object, in pages.
    spec fn spec_page_count(&self) -> usize;

    /// The frame that backs page `offset` of the object, once the object has provided one.
    spec fn spec_frame(&self, offset: int) -> Option<PhysFrameNum>;

    /// The size of the object, in pages.
    fn page_count(&self) -> (r: usize)
        ensures
            r == self.spec_page_count(),
    ;

    /// Provides the frame backing page `offset` of the object, for accesses as `commit_type`
    /// says. A page that has its frame is provided without touching `pmm`; otherwise at most one
    /// free single frame is taken from `pmm`, and providing succeeds whenever `pmm` has one.
    fn provide_page(&mut self, pmm: &mut PhysManager, offset: usize, commit_type: CommitType) -> (r:
        Result<PhysFrameNum>)
        requires
            offset < old(self).spec_page_count(),
            old(pmm).wf(),
        ensures
            final(self).spec_page_count() == old(self).spec_page_count(),
            final(pmm).wf(),
            final(pmm).spec_max_pfn() == old(pmm).spec_max_pfn(),
            forall|o: int|
                #![trigger final(self).spec_frame(o)]
                old(self).spec_frame(o) is Some ==> final(self).spec_frame(o) == old(self).spec_frame(o),
            r matches Ok(pfn) ==> final(self).spec_frame(offset as int) == Some(pfn) && pfn@
                < usize::MAX,
            old(self).spec_frame(offset as int) matches Some(pfn) ==> r == Ok::<PhysFrameNum, Error>(pfn),
            old(self).spec_frame(offset as int) is Some ==> *final(pmm) == *old(pmm),
            old(pmm).spec_lists()[0].len() > 0 ==> r is Ok,
            final(pmm).spec_lists()[0].len() + 1 >= old(pmm).spec_lists()[0].len(),
            free_blocks_disjoint(old(pmm).spec_lists()) ==> free_blocks_disjoint(final(pmm).spec_lists())
                && forall|g: int|
                #[trigger] in_free_block(final(pmm).spec_lists(), g) ==> in_free_block(old(pmm).spec_lists(), g),
    ;

    /// The cache mode with which the object is mapped.
    spec fn spec_cache_mode(&self) -> CacheMode;

    /// The cache mode with which the object is mapped; ordinary memory is cached.
    fn cache_mode(&self) -> (r: CacheMode)
        ensures
            r == self.spec_cache_mode(),
    ;
}

/// A VM object whose frames are all allocated when it is created.
pub struct EagerVmObject {
    frames: Vec<PhysFrameNum>,
}

impl EagerVmObject {
    /// The frames, in page order.
    pub closed spec fn spec_frames(&self) -> Seq<PhysFrameNum> {
        self.frames@
    }

    /// Every frame lies below the last frame number.
    #[verifier::type_invariant]
    closed spec fn wf(&self) -> bool {
        forall|i: int| 0 <= i < self.frames@.len() ==> (#[trigger] self.frames@[i])@ < usize::MAX
    }

    /// Creates an object of `page_count` pages, allocating a frame for each from `pmm`.
    ///
    /// Errors: `OutOfMemory` when a frame cannot be allocated; the frames allocated so far are
    /// given back.
    pub fn new(pmm: &mut PhysManager, page_count: usize) -> (r: Result<Self>)
        requires
            old(pmm).wf(),
        ensures
            final(pmm).wf(),
            final(pmm).spec_max_pfn() == old(pmm).spec_max_pfn(),
            r matches Ok(obj) ==> obj.spec_frames().len() == page_count && forall|i: int|
                0 <= i < page_count ==> (#[trigger] obj.spec_frames()[i])@ < old(pmm).spec_max_pfn(),
            r is Err ==> r == Err::<Self, Error>(Error::OutOfMemory),
    {
        let mut frames: Vec<PhysFrameNum> = Vec::new();
        let mut i: usize = 0;
        while i < page_count
            invariant
                i <= page_count,
                frames@.len() == i,
                pmm.wf(),
                pmm.spec_max_pfn() == old(pmm).spec_max_pfn(),
                forall|k: int| 0 <= k < i ==> (#[trigger] frames@[k])@ < old(pmm).spec_max_pfn(),
                forall|k: int| 0 <= k < i ==> (#[trigger] frames@[k])@ < usize::MAX,
            decreases page_count - i,
        {
            match alloc_frame(pmm) {
                Ok(pfn) => frames.push(pfn),
                Err(e) => {
                    free_frames(pmm, &frames);
                    return Err(e);
                },
            }
            i = i + 1;
        }
        Ok(Self { frames })
    }
}

/// Gives every frame of `frames` back to `pmm`.
fn free_frames(pmm: &mut PhysManager, frames: &Vec<PhysFrameNum>)
    requires
        old(pmm).wf(),
        forall|k: int| 0 <= k < frames@.len() ==> (#[trigger] frames@[k])@ < old(pmm).spec_max_pfn(),
    ensures
        final(pmm).wf(),
        final(pmm).spec_max_pfn() == old(pmm).spec_max_pfn(),
        final(pmm).spec_total_pages() == old(pmm).spec_total_pages(),
        final(pmm).spec_free_pages() >= old(pmm).spec_free_pages() + frames@.len(),
{
    let mut k: usize = 0;
    while k < frames.len()
        invariant
            k <= frames@.len(),
            pmm.wf(),
            pmm.spec_max_pfn() == old(pmm).spec_max_pfn(),
            pmm.spec_total_pages() == old(pmm).spec_total_pages(),
            pmm.spec_free_pages() >= old(pmm).spec_free_pages() + k,
            forall|j: int| 0 <= j < frames@.len() ==> (#[trigger] frames@[j])@ < old(pmm).spec_max_pfn(),
        decreases frames@.len() - k,
    {
        proof {
            vstd::arithmetic::power2::lemma2_to64();
        }
        pmm.deallocate(frames[k], 0);
        k = k + 1;
    }
}

impl VmObject for EagerVmObject {
    open spec fn spec_page_count(&self) -> usize {
        self.spec_frames().len() as usize
    }

    open spec fn spec_frame(&self, offset: int) -> Option<PhysFrameNum> {
        if 0 <= offset < self.spec_frames().len() {
            Some(self.spec_frames()[offset])
        } else {
            None
        }
    }

    fn page_count(&self) -> (r: usize) {
        self.frames.len()
    }

    fn provide_page(&mut self, pmm: &mut PhysManager, offset: usize, commit_type: CommitType) -> (r:
        Result<PhysFrameNum>) {
        proof {
            use_type_invariant(&*self);
        }
        Ok(self.frames[offset])
    }

    open spec fn spec_cache_mode(&self) -> CacheMode {
        CacheMode::Cached
    }

    fn cache_mode(&self) -> (r: CacheMode) {
        CacheMode::Cached
    }
}

/// A VM object whose frames are allocated when first requested.
pub struct LazyVmObject {
    frames: Vec<Option<PhysFrameNum>>,
}

impl LazyVmObject {
    /// The frames provided so far, in page order.
    pub closed spec fn spec_frames(&self) -> Seq<Option<PhysFrameNum>> {
        self.frames@
    }

    /// The number of pages: one slot per page.
    pub closed spec fn spec_count(&self) -> usize {
        self.frames@.len() as usize
    }

    /// Every frame lies below the last frame number.
    #[verifier::type_invariant]
    closed spec fn wf(&self) -> bool {
        forall|i: int|
            0 <= i < self.frames@.len() ==> ((#[trigger] self.frames@[i]) matches Some(f) ==> f@
                < usize::MAX)
    }

    /// Creates an object of `page_count` pages, none of which has a frame yet.
    pub fn new(page_count: usize) -> (r: Self)
        ensures
            r.spec_count() == page_count,
            r.spec_frames().len() == page_count,
            forall|i: int| 0 <= i < page_count ==> (#[trigger] r.spec_frames()[i]) is None,
    {
        let mut frames: Vec<Option<PhysFrameNum>> = Vec::new();
        let mut i: usize = 0;
        while i < page_count
            invariant
                i <= page_count,
                frames@.len() == i,
                forall|k: int| 0 <= k < i ==> (#[trigger] frames@[k]) is None,
            decreases page_count - i,
        {
            frames.push(None);
            i = i + 1;
        }
        Self { frames }
    }
}

impl VmObject for LazyVmObject {
    open spec fn spec_page_count(&self) -> usize {
        self.spec_count()
    }

    open spec fn spec_frame(&self, offset: int) -> Option<PhysFrameNum> {
        if 0 <= offset < self.spec_frames().len() {
            self.spec_frames()[offset]
        } else {
            None
        }
    }

    fn page_count(&self) -> (r: usize) {
        self.frames.len()
    }

    fn provide_page(&mut self, pmm: &mut PhysManager, offset: usize, commit_type: CommitType) -> (r:
        Result<PhysFrameNum>) {
        proof {
            use_type_invariant(&*self);
        }
        match self.frames[offset] {
            Some(pfn) => Ok(pfn),
            None => {
                let pfn = alloc_frame(pmm)?;
                let mut frames: Vec<Option<PhysFrameNum>> = Vec::new();
                core::mem::swap(&mut frames, &mut self.frames);
                frames.set(offset, Some(pfn));
                core::mem::swap(&mut frames, &mut self.frames);
                Ok(pfn)
            },
        }
    }

    open spec fn spec_cache_mode(&self) -> CacheMode {
        CacheMode::Cached
    }

    fn cache_mode(&self) -> (r: CacheMode) {
        CacheMode::Cached
    }
}

/// A VM object backed by a fixed run of physical frames, mapped with a given cache mode.
pub struct PhysVmObject {
    base: PhysFrameNum,
    page_count: usize,
    cache_mode: CacheMode,
}

impl PhysVmObject {
    /// The first frame.
    pub closed spec fn spec_base(&self) -> PhysFrameNum {
        self.base
    }

    /// The number of frames.
    pub closed spec fn spec_count(&self) -> usize {
        self.page_count
    }

    /// The cache mode.
    pub closed spec fn spec_mode(&self) -> CacheMode {
        self.cache_mode
    }

    /// The frames fit below the last frame number.
    #[verifier::type_invariant]
    closed spec fn wf(&self) -> bool {
        self.base@ + self.page_count <= usize::MAX
    }

    /// Creates an object over the `page_count` frames from `base`, mapped with `cache_mode`.
    pub fn new(base: PhysFrameNum, page_count: usize, cache_mode: CacheMode) -> (r: Self)
        requires
            base@ + page_count <= usize::MAX,
        ensures
            r.spec_base() == base,
            r.spec_count() == page_count,
            r.spec_mode() == cache_mode,
    {
        Self { base, page_count, cache_mode }
    }
}

impl VmObject for PhysVmObject {
    open spec fn spec_page_count(&self) -> usize {
        self.spec_count()
    }

    open spec fn spec_frame(&self, offset: int) -> Option<PhysFrameNum> {
        if 0 <= offset < self.spec_page_count() {
            Some(PhysFrameNum::spec_new((self.spec_base()@ + offset) as usize))
        } else {
            None
        }
    }

    fn page_count(&self) -> (r: usize) {
        self.page_count
    }

    fn provide_page(&mut self, pmm: &mut PhysManager, offset: usize, commit_type: CommitType) -> (r:
        Result<PhysFrameNum>) {
        proof {
            use_type_invariant(&*self);
        }
        let pfn = self.base.plus(offset);
        proof {
            PhysFrameNum::lemma_spec_new(pfn);
        }
        Ok(pfn)
    }

    open spec fn spec_cache_mode(&self) -> CacheMode {
        self.spec_mode()
    }

    fn cache_mode(&self) -> (r: CacheMode) {
        self.cache_mode
    }
}

/// A VM object of any of the kinds above, as held by an address space.
pub enum AnyVmObject {
    Eager(EagerVmObject),
    Lazy(LazyVmObject),
    Phys(PhysVmObject),
}

impl VmObject for AnyVmObject {
    open spec fn spec_page_count(&self) -> usize {
        match self {
            AnyVmObject::Eager(o) => o.spec_page_count(),
            AnyVmObject::Lazy(o) => o.spec_page_count(),
            AnyVmObject::Phys(o) => o.spec_page_count(),
        }
    }

    open spec fn spec_frame(&self, offset: int) -> Option<PhysFrameNum> {
        match self {
            AnyVmObject::Eager(o) => o.spec_frame(offset),
            AnyVmObject::Lazy(o) => o.spec_frame(offset),
            AnyVmObject::Phys(o) => o.spec_frame(offset),
        }
    }

    open spec fn spec_cache_mode(&self) -> CacheMode {
        match self {
            AnyVmObject::Eager(o) => o.spec_cache_mode(),
            AnyVmObject::Lazy(o) => o.spec_cache_mode(),
            AnyVmObject::Phys(o) => o.spec_cache_mode(),
        }
    }

    fn page_count(&self) -> (r: usize) {
        match self {
            AnyVmObject::Eager(o) => o.page_count(),
            AnyVmObject::Lazy(o) => o.page_count(),
            AnyVmObject::Phys(o) => o.page_count(),
        }
    }

    fn provide_page(&mut self, pmm: &mut PhysManager, offset: usize, commit_type: CommitType) -> (r:
        Result<PhysFrameNum>) {
        match self {
            AnyVmObject::Eager(o) => o.provide_page(pmm, offset, commit_type),
            AnyVmObject::Lazy(o) => o.provide_page(pmm, offset, commit_type),
            AnyVmObject::Phys(o) => o.provide_page(pmm, offset, commit_type),
        }
    }

    fn cache_mode(&self) -> (r: CacheMode) {
        match self {
            AnyVmObject::Eager(o) => o.cache_mode(),
            AnyVmObject::Lazy(o) => o.cache_mode(),
            AnyVmObject::Phys(o) => o.cache_mode(),
        }
    }
}

} // verus!
