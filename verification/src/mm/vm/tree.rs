//! The tree of slices and mappings of an address space. Slices and mappings live in an arena and
//! refer to each other by index; every slice keeps its direct children sorted by first page.
use vstd::prelude::*;
use crate::err::{Error, Result};
use crate::mm::types::{Protection, VirtPageNum};

verus! {

/// The room left above every slice and mapping, in pages: a page table walk over a range may
/// look up to one top-level entry past its end.
pub const SPACE_MARGIN: usize = 0x800_0000;

/// The longest name kept for a slice, in bytes.
pub const MAX_NAME_LEN: usize = 32;

/// A short name kept for debugging: at most [`MAX_NAME_LEN`] bytes, longer names being cut.
pub struct Name {
    bytes: Vec<u8>,
}

impl Name {
    /// The bytes of the name.
    pub closed spec fn view(&self) -> Seq<u8> {
        self.bytes@
    }

    /// Creates a name holding the first [`MAX_NAME_LEN`] bytes of `name`.
    pub fn new(name: &[u8]) -> (r: Self)
        ensures
            r@ == name@.take(if name@.len() < 32 {
                name@.len() as int
            } else {
                32
            }),
    {
        let n = if name.len() < MAX_NAME_LEN {
            name.len()
        } else {
            MAX_NAME_LEN
        };
        let mut bytes: Vec<u8> = Vec::new();
        let mut i: usize = 0;
        while i < n
            invariant
                n <= name@.len(),
                i <= n,
                bytes@ == name@.take(i as int),
            decreases n - i,
        {
            bytes.push(name[i]);
            proof {
                assert(name@.take(i + 1) =~= name@.take(i as int).push(name@[i as int]));
            }
            i = i + 1;
        }
        Self { bytes }
    }

    /// The bytes of the name.
    pub fn as_bytes(&self) -> (r: &[u8])
        ensures
            r@ == self@,
    {
        self.bytes.as_slice()
    }
}

/// A child of a slice: another slice or a mapping, by index in the arena.
#[derive(Clone, Copy, Debug, PartialEq, Eq, Structural)]
pub enum SliceChild {
    Subslice(usize),
    Mapping(usize),
}

/// An entry of a slice's list of children: the child and the pages it covers.
#[derive(Clone, Copy, Debug, PartialEq, Eq, Structural)]
pub struct SliceChildNode {
    pub start: VirtPageNum,
    pub page_count: usize,
    pub data: SliceChild,
}

impl SliceChildNode {
    /// The first page of the child.
    pub fn start(&self) -> (r: VirtPageNum)
        ensures
            r == self.start,
    {
        self.start
    }

    /// The number of pages of the child.
    pub fn page_count(&self) -> (r: usize)
        ensures
            r == self.page_count,
    {
        self.page_count
    }

    /// The page just past the child.
    pub fn end(&self) -> (r: VirtPageNum)
        requires
            self.start@ + self.page_count <= usize::MAX,
        ensures
            r@ == self.start@ + self.page_count,
    {
        self.start.plus(self.page_count)
    }
}

/// The state of an attached slice: its parent, if it is not the root, and its children, sorted by
/// first page.
pub struct SliceInner {
    pub parent: Option<usize>,
    pub children: Vec<SliceChildNode>,
}

impl SliceInner {
    /// Creates the state of a slice with no children.
    pub fn new(parent: Option<usize>) -> (r: Self)
        ensures
            r.parent == parent,
            r.children@.len() == 0,
    {
        Self { parent, children: Vec::new() }
    }

    /// The position of the direct child containing `vpn`, if any: the last child starting at or
    /// before `vpn`, if it extends past `vpn`.
    pub fn get_child(&self, vpn: VirtPageNum) -> (r: Option<usize>)
        requires
            nodes_sorted(self.children@),
        ensures
            r matches Some(k) ==> k < self.children@.len() && node_contains(self.children@[k as int], vpn@),
            r is None ==> forall|k: int|
                0 <= k < self.children@.len() ==> !node_contains(#[trigger] self.children@[k], vpn@),
    {
        let mut k: usize = 0;
        let mut found: Option<usize> = None;
        while k < self.children.len()
            invariant
                k <= self.children@.len(),
                nodes_sorted(self.children@),
                found matches Some(j) ==> j < k && self.children@[j as int].start@ <= vpn@,
                found matches Some(j) ==> forall|i: int|
                    j < i < k ==> self.children@[i].start@ > vpn@,
                found is None ==> forall|i: int| 0 <= i < k ==> self.children@[i].start@ > vpn@,
            decreases self.children@.len() - k,
        {
            if self.children[k].start().as_usize() <= vpn.as_usize() {
                found = Some(k);
            }
            k = k + 1;
        }
        match found {
            Some(j) => {
                let node = self.children[j];
                if vpn.as_usize() < node.end().as_usize() {
                    Some(j)
                } else {
                    proof {
                        assert forall|i: int| 0 <= i < self.children@.len() implies !node_contains(
                            #[trigger] self.children@[i],
                            vpn@,
                        ) by {
                            if i < j {
                                assert(self.children@[i].start@ + self.children@[i].page_count
                                    <= self.children@[j as int].start@);
                            }
                        }
                    }
                    None
                }
            },
            None => None,
        }
    }
}

/// Whether `node` covers page `vpn`.
pub open spec fn node_contains(node: SliceChildNode, vpn: usize) -> bool {
    node.start@ <= vpn < node.start@ + node.page_count
}

/// Whether `nodes` are sorted by first page, disjoint, and fit in the address space.
pub open spec fn nodes_sorted(nodes: Seq<SliceChildNode>) -> bool {
    &&& forall|k: int| 0 <= k < nodes.len() ==> (#[trigger] nodes[k]).start@ + nodes[k].page_count <= usize::MAX
    &&& forall|a: int, b: int|
        0 <= a < b < nodes.len() ==> nodes[a].start@ + nodes[a].page_count <= nodes[b].start@
}

/// A slice of an address space: a range of pages, named for debugging, divided among child
/// slices and mappings. A detached slice has no state.
pub struct Slice {
    pub name: Name,
    pub start: VirtPageNum,
    pub page_count: usize,
    pub inner: Option<SliceInner>,
}

impl Slice {
    /// Creates an attached slice with no children.
    pub fn new(parent: Option<usize>, name: &[u8], start: VirtPageNum, page_count: usize) -> (r:
        Self)
        ensures
            r.start == start,
            r.page_count == page_count,
            r.inner matches Some(inner) && inner.parent == parent && inner.children@.len() == 0,
    {
        Self { name: Name::new(name), start, page_count, inner: Some(SliceInner::new(parent)) }
    }

    /// The slice's name.
    pub fn name(&self) -> (r: &[u8])
        ensures
            r@ == self.name@,
    {
        self.name.as_bytes()
    }

    /// The first page of the slice.
    pub fn start(&self) -> (r: VirtPageNum)
        ensures
            r == self.start,
    {
        self.start
    }

    /// The number of pages of the slice.
    pub fn page_count(&self) -> (r: usize)
        ensures
            r == self.page_count,
    {
        self.page_count
    }

    /// The page just past the slice.
    pub fn end(&self) -> (r: VirtPageNum)
        requires
            self.start@ + self.page_count <= usize::MAX,
        ensures
            r@ == self.start@ + self.page_count,
    {
        self.start.plus(self.page_count)
    }

    /// The slice's parent, `None` for the root.
    ///
    /// Errors: `InvalidState` when the slice is detached.
    pub fn parent(&self) -> (r: Result<Option<usize>>)
        ensures
            self.inner matches Some(inner) ==> r == Ok::<Option<usize>, Error>(inner.parent),
            self.inner is None ==> r == Err::<Option<usize>, Error>(Error::InvalidState),
    {
        match &self.inner {
            Some(inner) => Ok(inner.parent),
            None => Err(Error::InvalidState),
        }
    }

    /// Checks that `vpn` lies within the slice.
    ///
    /// Errors: `BadAddress` when it does not.
    pub fn check_vpn(&self, vpn: VirtPageNum) -> (r: Result<()>)
        requires
            self.start@ + self.page_count <= usize::MAX,
        ensures
            r is Ok <==> self.start@ <= vpn@ < self.start@ + self.page_count,
            r is Err ==> r == Err::<(), Error>(Error::BadAddress),
    {
        if self.start.as_usize() <= vpn.as_usize() && vpn.as_usize() < self.end().as_usize() {
            Ok(())
        } else {
            Err(Error::BadAddress)
        }
    }
}

/// The state of an attached mapping: the slice holding it and its protection.
#[derive(Clone, Copy, Debug, PartialEq, Eq, Structural)]
pub struct MappingInner {
    pub parent: usize,
    pub prot: Protection,
}

/// A mapping of part of a VM object, given by index, into an address space. A detached mapping
/// has no state.
#[derive(Clone, Copy, Debug, PartialEq, Eq, Structural)]
pub struct Mapping {
    pub start: VirtPageNum,
    pub page_count: usize,
    pub object_offset: usize,
    pub object: usize,
    pub inner: Option<MappingInner>,
}

impl Mapping {
    /// Creates an attached mapping.
    pub fn new(
        parent: usize,
        start: VirtPageNum,
        page_count: usize,
        object: usize,
        object_offset: usize,
        prot: Protection,
    ) -> (r: Self)
        ensures
            r == (Mapping {
                start,
                page_count,
                object_offset,
                object,
                inner: Some(MappingInner { parent, prot }),
            }),
    {
        Self { start, page_count, object_offset, object, inner: Some(MappingInner { parent, prot }) }
    }

    /// The first page of the mapping.
    pub fn start(&self) -> (r: VirtPageNum)
        ensures
            r == self.start,
    {
        self.start
    }

    /// The number of pages of the mapping.
    pub fn page_count(&self) -> (r: usize)
        ensures
            r == self.page_count,
    {
        self.page_count
    }

    /// The page just past the mapping.
    pub fn end(&self) -> (r: VirtPageNum)
        requires
            self.start@ + self.page_count <= usize::MAX,
        ensures
            r@ == self.start@ + self.page_count,
    {
        self.start.plus(self.page_count)
    }

    /// The offset, in pages, of the mapping's start in its object.
    pub fn object_offset(&self) -> (r: usize)
        ensures
            r == self.object_offset,
    {
        self.object_offset
    }

    /// The mapped object.
    pub fn object(&self) -> (r: usize)
        ensures
            r == self.object,
    {
        self.object
    }

    /// The slice holding the mapping.
    ///
    /// Errors: `InvalidState` when the mapping is detached.
    pub fn parent(&self) -> (r: Result<usize>)
        ensures
            self.inner matches Some(inner) ==> r == Ok::<usize, Error>(inner.parent),
            self.inner is None ==> r == Err::<usize, Error>(Error::InvalidState),
    {
        match &self.inner {
            Some(inner) => Ok(inner.parent),
            None => Err(Error::InvalidState),
        }
    }

    /// The mapping's protection.
    ///
    /// Errors: `InvalidState` when the mapping is detached.
    pub fn prot(&self) -> (r: Result<Protection>)
        ensures
            self.inner matches Some(inner) ==> r == Ok::<Protection, Error>(inner.prot),
            self.inner is None ==> r == Err::<Protection, Error>(Error::InvalidState),
    {
        match &self.inner {
            Some(inner) => Ok(inner.prot),
            None => Err(Error::InvalidState),
        }
    }
}

/// The slices and mappings of an address space. Slice 0 is the root; a slice's subslices come
/// after it in the arena.
pub struct SliceTree {
    pub slices: Vec<Slice>,
    pub mappings: Vec<Mapping>,
}

/// The position of the node of `nodes` that covers `vpn`, if one does.
pub open spec fn spec_child_at(nodes: Seq<SliceChildNode>, vpn: usize) -> Option<int> {
    if exists|k: int| 0 <= k < nodes.len() && node_contains(#[trigger] nodes[k], vpn) {
        Some(choose|k: int| 0 <= k < nodes.len() && node_contains(#[trigger] nodes[k], vpn))
    } else {
        None
    }
}

/// Sorted, disjoint nodes cover each page at most once.
proof fn lemma_child_at_unique(nodes: Seq<SliceChildNode>, vpn: usize, k: int)
    requires
        nodes_sorted(nodes),
        0 <= k < nodes.len(),
        node_contains(nodes[k], vpn),
    ensures
        spec_child_at(nodes, vpn) == Some(k),
{
    let j = choose|j: int| 0 <= j < nodes.len() && node_contains(#[trigger] nodes[j], vpn);
    if j < k {
        assert(nodes[j].start@ + nodes[j].page_count <= nodes[k].start@);
    } else if j > k {
        assert(nodes[k].start@ + nodes[k].page_count <= nodes[j].start@);
    }
}

impl SliceTree {
    /// Whether `node`, a child of slice `si`, refers to an existing slice after `si` or an existing
    /// mapping, covering the same pages.
    pub open spec fn node_ok(&self, si: int, node: SliceChildNode) -> bool {
        match node.data {
            SliceChild::Subslice(j) => {
                &&& si < j < self.slices@.len()
                &&& self.slices@[j as int].start == node.start
                &&& self.slices@[j as int].page_count == node.page_count
            },
            SliceChild::Mapping(m) => {
                &&& m < self.mappings@.len()
                &&& self.mappings@[m as int].start == node.start
                &&& self.mappings@[m as int].page_count == node.page_count
            },
        }
    }

    /// Whether slice `si` fits in the address space and, when attached, has a parent before it and
    /// sorted, disjoint children within it that refer to existing slices and mappings.
    pub open spec fn slice_wf(&self, si: int) -> bool {
        let s = self.slices@[si];
        &&& s.start@ + s.page_count + SPACE_MARGIN <= usize::MAX
        &&& s.inner matches Some(inner) ==> {
            &&& nodes_sorted(inner.children@)
            &&& inner.parent matches Some(p) ==> p < si
            &&& forall|k: int|
                0 <= k < inner.children@.len() ==> {
                    let c = #[trigger] inner.children@[k];
                    &&& s.start@ <= c.start@
                    &&& c.start@ + c.page_count <= s.start@ + s.page_count
                    &&& self.node_ok(si, c)
                }
        }
    }

    /// Every slice is valid and every mapping fits in the address space.
    pub open spec fn wf(&self) -> bool {
        &&& forall|si: int| 0 <= si < self.slices@.len() ==> #[trigger] self.slice_wf(si)
        &&& forall|m: int|
            0 <= m < self.mappings@.len() ==> (#[trigger] self.mappings@[m]).start@
                + self.mappings@[m].page_count + SPACE_MARGIN <= usize::MAX
    }

    /// The mapping that covers `vpn`, found by descending from slice `si`.
    pub open spec fn spec_get_mapping(&self, si: int, vpn: usize) -> Result<usize>
        decreases self.slices@.len() - si,
    {
        if !(0 <= si < self.slices@.len()) {
            Err(Error::InvalidState)
        } else {
            let s = self.slices@[si];
            if !(s.start@ <= vpn < s.start@ + s.page_count) {
                Err(Error::BadAddress)
            } else {
                match s.inner {
                    None => Err(Error::InvalidState),
                    Some(inner) => match spec_child_at(inner.children@, vpn) {
                        None => Err(Error::BadAddress),
                        Some(k) => match inner.children@[k].data {
                            SliceChild::Mapping(m) => Ok(m),
                            SliceChild::Subslice(j) => if si < j < self.slices@.len() {
                                self.spec_get_mapping(j as int, vpn)
                            } else {
                                Err(Error::InvalidState)
                            },
                        },
                    },
                }
            }
        }
    }

    /// A mapping found by [`spec_get_mapping`](SliceTree::spec_get_mapping) exists and covers the
    /// page looked up.
    pub proof fn lemma_get_mapping_covers(&self, si: int, vpn: usize)
        requires
            self.wf(),
            0 <= si < self.slices@.len(),
        ensures
            self.spec_get_mapping(si, vpn) matches Ok(m) ==> m < self.mappings@.len()
                && self.mappings@[m as int].start@ <= vpn < self.mappings@[m as int].start@
                + self.mappings@[m as int].page_count,
        decreases self.slices@.len() - si,
    {
        let s = self.slices@[si];
        assert(self.slice_wf(si));
        if s.start@ <= vpn < s.start@ + s.page_count {
            if let Some(inner) = s.inner {
                if let Some(k) = spec_child_at(inner.children@, vpn) {
                    let c = inner.children@[k];
                    assert(node_contains(c, vpn));
                    assert(self.node_ok(si, c));
                    if let SliceChild::Subslice(j) = c.data {
                        self.lemma_get_mapping_covers(j as int, vpn);
                    }
                }
            }
        }
    }

    /// Retrieves the mapping covering `vpn`, descending from slice `si` into subslices as needed.
    ///
    /// Errors: `BadAddress` when a slice on the way does not cover `vpn` or no child of it does;
    /// `InvalidState` when a slice on the way is detached.
    pub fn get_mapping(&self, si: usize, vpn: VirtPageNum) -> (r: Result<usize>)
        requires
            self.wf(),
            si < self.slices@.len(),
        ensures
            r == self.spec_get_mapping(si as int, vpn@),
            r matches Ok(m) ==> m < self.mappings@.len() && self.mappings@[m as int].start@ <= vpn@
                < self.mappings@[m as int].start@ + self.mappings@[m as int].page_count,
        decreases self.slices@.len() - si,
    {
        proof {
            assert(self.slice_wf(si as int));
            self.lemma_get_mapping_covers(si as int, vpn@);
        }
        let slice = &self.slices[si];
        slice.check_vpn(vpn)?;
        let inner = match &slice.inner {
            Some(inner) => inner,
            None => {
                return Err(Error::InvalidState);
            },
        };
        let k = match inner.get_child(vpn) {
            Some(k) => k,
            None => {
                return Err(Error::BadAddress);
            },
        };
        proof {
            lemma_child_at_unique(inner.children@, vpn@, k as int);
            assert(self.node_ok(si as int, inner.children@[k as int]));
        }
        match inner.children[k].data {
            SliceChild::Subslice(j) => self.get_mapping(j, vpn),
            SliceChild::Mapping(m) => Ok(m),
        }
    }
}

/// Whether `new` is `old` with the child described by `spec` placed at `start` in slice `si` as
/// `child`: nothing else changes but the arena growing by the child and the slice's children.
pub open spec fn placed(
    old: SliceTree,
    new: SliceTree,
    si: int,
    child: SliceChild,
    start: VirtPageNum,
    spec: NewChild,
) -> bool {
    &&& forall|m: int| 0 <= m < old.mappings@.len() ==> #[trigger] new.mappings@[m] == old.mappings@[m]
    &&& forall|j: int|
        0 <= j < old.slices@.len() && j != si ==> #[trigger] new.slices@[j] == old.slices@[j]
    &&& new.slices@[si].start == old.slices@[si].start
    &&& new.slices@[si].page_count == old.slices@[si].page_count
    &&& new.slices@[si].inner matches Some(inner) && old.slices@[si].inner matches Some(inner0)
        && inner.parent == inner0.parent
    &&& old.slices@[si].start@ <= start@
    &&& start@ + spec.spec_pages() <= old.slices@[si].start@ + old.slices@[si].page_count
    &&& match (spec, child) {
        (NewChild::Subslice { page_count, .. }, SliceChild::Subslice(j)) => {
            &&& j == old.slices@.len()
            &&& new.slices@.len() == j + 1
            &&& new.mappings@.len() == old.mappings@.len()
            &&& new.slices@[j as int].start == start
            &&& new.slices@[j as int].page_count == page_count
            &&& new.slices@[j as int].inner matches Some(ji) && ji.parent == Some(si as usize)
        },
        (NewChild::Mapping { page_count, object, object_offset, prot }, SliceChild::Mapping(m)) => {
            &&& m == old.mappings@.len()
            &&& new.mappings@.len() == m + 1
            &&& new.slices@.len() == old.slices@.len()
            &&& new.mappings@[m as int] == (Mapping {
                start,
                page_count,
                object_offset,
                object,
                inner: Some(MappingInner { parent: si as usize, prot }),
            })
        },
        _ => false,
    }
}

/// Whether the children of slice `si` in `new` are those in `old` with `node` inserted at `pos`.
pub open spec fn child_inserted(old: SliceTree, new: SliceTree, si: int, pos: int, node: SliceChildNode) -> bool {
    &&& new.slices@[si].inner matches Some(inner) && old.slices@[si].inner matches Some(inner0) && 0 <= pos
        <= inner0.children@.len() && inner.children@ == inner0.children@.insert(pos, node)
}

/// A mapping just inserted among the children of slice `si` is what a lookup from `si` finds
/// for each of its pages.
pub proof fn lemma_inserted_mapping_found(
    old: SliceTree,
    new: SliceTree,
    si: int,
    pos: int,
    node: SliceChildNode,
    vpn: usize,
)
    requires
        new.wf(),
        0 <= si < new.slices@.len(),
        child_inserted(old, new, si, pos, node),
        node.data is Mapping,
        node_contains(node, vpn),
    ensures
        new.spec_get_mapping(si, vpn) == Ok::<usize, Error>(node.data->Mapping_0),
{
    let inner = new.slices@[si].inner.unwrap();
    let inner0 = old.slices@[si].inner.unwrap();
    assert(new.slice_wf(si));
    assert(inner.children@[pos] == node);
    lemma_child_at_unique(inner.children@, vpn, pos);
    let c = inner.children@[pos];
    assert(new.slices@[si].start@ <= c.start@);
}

/// A child to create in a slice.
pub enum NewChild {
    /// A subslice named `name`.
    Subslice { name: Vec<u8>, page_count: usize },
    /// A mapping of `page_count` pages of `object`, from page `object_offset` of it on.
    Mapping { page_count: usize, object: usize, object_offset: usize, prot: Protection },
}

impl NewChild {
    /// The number of pages that the child covers.
    pub open spec fn spec_pages(&self) -> usize {
        match self {
            NewChild::Subslice { page_count, .. } => *page_count,
            NewChild::Mapping { page_count, .. } => *page_count,
        }
    }

    /// The number of pages that the child covers.
    pub fn pages(&self) -> (r: usize)
        ensures
            r == self.spec_pages(),
    {
        match self {
            NewChild::Subslice { page_count, .. } => *page_count,
            NewChild::Mapping { page_count, .. } => *page_count,
        }
    }
}

/// A run of pages of a slice not covered by any child: its first page, its length, and the
/// position in the slice's children at which a child placed there belongs.
#[derive(Clone, Copy, Debug, PartialEq, Eq, Structural)]
pub struct Gap {
    pub start: VirtPageNum,
    pub page_count: usize,
    pub position: usize,
}

/// Whether a child covering `start..end` could not be placed among `nodes`: a node covers
/// `start`, or a node starts after `start` and before `end`.
pub open spec fn overlaps(nodes: Seq<SliceChildNode>, start: int, end: int) -> bool {
    exists|k: int|
        0 <= k < nodes.len() && (node_contains(#[trigger] nodes[k], start as usize) || (start
            < nodes[k].start@ < end))
}

/// Inserting a node into sorted nodes between its neighbours keeps them sorted.
proof fn lemma_insert_sorted(nodes0: Seq<SliceChildNode>, position: int, node: SliceChildNode)
    requires
        nodes_sorted(nodes0),
        0 <= position <= nodes0.len(),
        node.start@ + node.page_count <= usize::MAX,
        position > 0 ==> nodes0[position - 1].start@ + nodes0[position - 1].page_count <= node.start@,
        position < nodes0.len() ==> node.start@ + node.page_count <= nodes0[position].start@,
    ensures
        nodes_sorted(nodes0.insert(position, node)),
{
    let nodes = nodes0.insert(position, node);
    assert forall|a: int, b: int| 0 <= a < b < nodes.len() implies nodes[a].start@
        + nodes[a].page_count <= nodes[b].start@ by {
        if b < position {
            assert(nodes[a] == nodes0[a] && nodes[b] == nodes0[b]);
        } else if b == position {
            assert(nodes[a] == nodes0[a]);
            if a < position - 1 {
                assert(nodes0[a].start@ + nodes0[a].page_count <= nodes0[position - 1].start@);
            }
        } else if a < position {
            assert(nodes[a] == nodes0[a] && nodes[b] == nodes0[b - 1]);
        } else if a == position {
            assert(nodes[b] == nodes0[b - 1]);
            if b - 1 > position {
                assert(nodes0[position].start@ + nodes0[position].page_count <= nodes0[b - 1].start@);
            }
        } else {
            assert(nodes[a] == nodes0[a - 1] && nodes[b] == nodes0[b - 1]);
        }
    }
    assert forall|k: int| 0 <= k < nodes.len() implies (#[trigger] nodes[k]).start@
        + nodes[k].page_count <= usize::MAX by {
        if k < position {
            assert(nodes[k] == nodes0[k]);
        } else if k > position {
            assert(nodes[k] == nodes0[k - 1]);
        }
    }
}

impl SliceTree {
    /// Creates the subslice or mapping described by `new`, at `start`, with slice `si` as its
    /// parent, at the end of its arena. Nothing refers to it yet.
    fn push_child_object(&mut self, si: usize, start: VirtPageNum, new: NewChild) -> (r: SliceChild)
        requires
            old(self).wf(),
            si < old(self).slices@.len(),
            start@ + new.spec_pages() + SPACE_MARGIN <= usize::MAX,
        ensures
            final(self).wf(),
            final(self).slices@.len() >= old(self).slices@.len(),
            forall|j: int|
                0 <= j < old(self).slices@.len() ==> #[trigger] final(self).slices@[j] == old(self).slices@[j],
            forall|m: int|
                0 <= m < old(self).mappings@.len() ==> #[trigger] final(self).mappings@[m] == old(self).mappings@[m],
            final(self).node_ok(si as int, SliceChildNode { start, page_count: new.spec_pages(), data: r }),
            forall|j: int, node: SliceChildNode|
                0 <= j < old(self).slices@.len() && old(self).node_ok(j, node) ==> #[trigger] final(self).node_ok(j, node),
            match (new, r) {
                (NewChild::Subslice { page_count, .. }, SliceChild::Subslice(j)) => {
                    &&& j == old(self).slices@.len()
                    &&& final(self).slices@.len() == j + 1
                    &&& final(self).mappings@ == old(self).mappings@
                    &&& final(self).slices@[j as int].start == start
                    &&& final(self).slices@[j as int].page_count == page_count
                    &&& final(self).slices@[j as int].inner matches Some(ji) && ji.parent == Some(si)
                        && ji.children@.len() == 0
                },
                (NewChild::Mapping { page_count, object, object_offset, prot }, SliceChild::Mapping(m)) => {
                    &&& m == old(self).mappings@.len()
                    &&& final(self).mappings@.len() == m + 1
                    &&& final(self).slices@ == old(self).slices@
                    &&& final(self).mappings@[m as int] == (Mapping {
                        start,
                        page_count,
                        object_offset,
                        object,
                        inner: Some(MappingInner { parent: si, prot }),
                    })
                },
                _ => false,
            },
    {
        let ghost old_self = *self;
        let r = match new {
            NewChild::Subslice { name, page_count } => {
                let j = self.slices.len();
                self.slices.push(Slice::new(Some(si), name.as_slice(), start, page_count));
                SliceChild::Subslice(j)
            },
            NewChild::Mapping { page_count, object, object_offset, prot } => {
                let m = self.mappings.len();
                self.mappings.push(Mapping::new(si, start, page_count, object, object_offset, prot));
                SliceChild::Mapping(m)
            },
        };
        proof {
            assert forall|j: int| 0 <= j < self.slices@.len() implies #[trigger] self.slice_wf(j) by {
                if j < old_self.slices@.len() {
                    assert(old_self.slice_wf(j));
                    assert(self.slices@[j] == old_self.slices@[j]);
                    if let Some(ji) = self.slices@[j].inner {
                        assert forall|k: int| 0 <= k < ji.children@.len() implies self.node_ok(
                            j,
                            #[trigger] ji.children@[k],
                        ) by {
                            assert(old_self.node_ok(j, ji.children@[k]));
                        }
                    }
                }
            }
        }
        r
    }

    /// Links `node` in at `position` among the children of slice `si`.
    fn link_child(&mut self, si: usize, position: usize, node: SliceChildNode)
        requires
            old(self).wf(),
            si < old(self).slices@.len(),
            old(self).node_ok(si as int, node),
            old(self).slices@[si as int].inner matches Some(inner) && {
                let nodes = inner.children@;
                let s = old(self).slices@[si as int];
                &&& position <= nodes.len()
                &&& s.start@ <= node.start@
                &&& node.start@ + node.page_count <= s.start@ + s.page_count
                &&& position > 0 ==> nodes[position - 1].start@ + nodes[position - 1].page_count
                    <= node.start@
                &&& position < nodes.len() ==> node.start@ + node.page_count <= nodes[position as int].start@
            },
        ensures
            final(self).wf(),
            final(self).slices@.len() == old(self).slices@.len(),
            final(self).mappings@ == old(self).mappings@,
            forall|j: int|
                0 <= j < old(self).slices@.len() && j != si ==> #[trigger] final(self).slices@[j]
                    == old(self).slices@[j],
            final(self).slices@[si as int].start == old(self).slices@[si as int].start,
            final(self).slices@[si as int].page_count == old(self).slices@[si as int].page_count,
            final(self).slices@[si as int].inner matches Some(inner) && old(self).slices@[si as int].inner matches Some(inner0) && inner.parent == inner0.parent
                && inner.children@ == inner0.children@.insert(position as int, node),
    {
        let ghost old_self = *self;
        proof {
            assert(self.slice_wf(si as int));
        }
        let mut slice = Slice::new(None, &[], VirtPageNum::new(0), 0);
        core::mem::swap(&mut slice, &mut self.slices[si]);
        let mut inner = slice.inner.take().unwrap();
        let ghost nodes0 = inner.children@;
        inner.children.insert(position, node);
        slice.inner = Some(inner);
        core::mem::swap(&mut slice, &mut self.slices[si]);
        proof {
            lemma_insert_sorted(nodes0, position as int, node);
            let nodes = inner.children@;
            assert forall|j: int| 0 <= j < self.slices@.len() implies #[trigger] self.slice_wf(j) by {
                assert(old_self.slice_wf(j));
                if j != si {
                    assert(self.slices@[j] == old_self.slices@[j]);
                    if let Some(ji) = self.slices@[j].inner {
                        assert forall|k: int| 0 <= k < ji.children@.len() implies self.node_ok(
                            j,
                            #[trigger] ji.children@[k],
                        ) by {
                            assert(old_self.node_ok(j, ji.children@[k]));
                        }
                    }
                } else {
                    assert forall|k: int| 0 <= k < nodes.len() implies {
                        let c = #[trigger] nodes[k];
                        &&& self.slices@[j].start@ <= c.start@
                        &&& c.start@ + c.page_count <= self.slices@[j].start@ + self.slices@[j].page_count
                        &&& self.node_ok(j, c)
                    } by {
                        if k < position {
                            assert(nodes[k] == nodes0[k]);
                            assert(old_self.node_ok(j, nodes0[k]));
                        } else if k > position {
                            assert(nodes[k] == nodes0[k - 1]);
                            assert(old_self.node_ok(j, nodes0[k - 1]));
                        }
                    }
                }
            }
        }
    }
}

/// The number of nodes starting at or before page `start`.
pub open spec fn count_starting_at_or_before(nodes: Seq<SliceChildNode>, start: usize) -> int
    decreases nodes.len(),
{
    if nodes.len() == 0 {
        0
    } else if nodes.last().start@ <= start {
        nodes.len() as int
    } else {
        count_starting_at_or_before(nodes.drop_last(), start)
    }
}

/// In sorted nodes, the nodes starting at or before `start` come first.
proof fn lemma_count_starting(nodes: Seq<SliceChildNode>, start: usize)
    requires
        nodes_sorted(nodes),
    ensures
        0 <= count_starting_at_or_before(nodes, start) <= nodes.len(),
        forall|k: int|
            0 <= k < count_starting_at_or_before(nodes, start) ==> (#[trigger] nodes[k]).start@ <= start,
        forall|k: int|
            count_starting_at_or_before(nodes, start) <= k < nodes.len() ==> (#[trigger] nodes[k]).start@
                > start,
    decreases nodes.len(),
{
    if nodes.len() > 0 {
        let init = nodes.drop_last();
        assert(nodes_sorted(init)) by {
            assert forall|k: int| 0 <= k < init.len() implies #[trigger] init[k] == nodes[k] by {}
        }
        lemma_count_starting(init, start);
        assert(nodes[nodes.len() - 1] == nodes.last());
        if nodes.last().start@ <= start {
            assert forall|k: int| 0 <= k < nodes.len() implies (#[trigger] nodes[k]).start@ <= start by {
                if k < nodes.len() - 1 {
                    assert(nodes[k].start@ + nodes[k].page_count <= nodes[nodes.len() - 1].start@);
                }
            }
        } else {
            let c = count_starting_at_or_before(init, start);
            assert forall|k: int| 0 <= k < c implies (#[trigger] nodes[k]).start@ <= start by {
                assert(init[k] == nodes[k]);
            }
            assert forall|k: int| c <= k < nodes.len() implies (#[trigger] nodes[k]).start@ > start by {
                if k < init.len() {
                    assert(init[k] == nodes[k]);
                }
            }
        }
    }
}

/// How placing a child over `start..start + page_count` in slice `s` goes: the error reported, or
/// `None` when the child can be placed.
pub open spec fn spec_fixed_error(s: Slice, start: VirtPageNum, page_count: usize) -> Option<Error> {
    if start@ + page_count > usize::MAX {
        Some(Error::InvalidArgument)
    } else if start@ < s.start@ || start@ + page_count > s.start@ + s.page_count {
        Some(Error::InvalidArgument)
    } else {
        match s.inner {
            None => Some(Error::InvalidState),
            Some(inner) => if overlaps(inner.children@, start@ as int, start@ + page_count) {
                Some(Error::ResourceOverlap)
            } else {
                None
            },
        }
    }
}

/// The error with which placing `page_count` pages in slice `s` without a fixed start fails, or
/// `None` when some gap between its children has room for them.
pub open spec fn spec_dynamic_error(s: Slice, page_count: usize) -> Option<Error> {
    match s.inner {
        None => Some(Error::InvalidState),
        Some(inner) => {
            let gaps = spec_gaps(s.start@, (s.start@ + s.page_count) as usize, inner.children@);
            if exists|i: int| 0 <= i < gaps.len() && (#[trigger] gaps[i]).page_count >= page_count {
                None
            } else {
                Some(Error::OutOfResources)
            }
        },
    }
}

impl SliceTree {
    /// Places the child described by `new` over `start..start + page_count` in slice `si`. The
    /// child itself covers its own number of pages from `start`, which is at most `page_count`.
    ///
    /// Errors: `InvalidArgument` when the range overflows or does not lie in the slice;
    /// `InvalidState` when the slice is detached; `ResourceOverlap` when a child covers `start` or
    /// starts inside the range.
    pub fn alloc_spot_fixed(&mut self, si: usize, start: VirtPageNum, page_count: usize, new: NewChild) -> (r: Result<SliceChild>)
        requires
            old(self).wf(),
            si < old(self).slices@.len(),
            new.spec_pages() <= page_count,
        ensures
            final(self).wf(),
            spec_fixed_error(old(self).slices@[si as int], start, page_count) matches Some(e) ==> r
                == Err::<SliceChild, Error>(e) && *final(self) == *old(self),
            spec_fixed_error(old(self).slices@[si as int], start, page_count) is None ==> r is Ok,
            r matches Ok(child) ==> {
                &&& placed(*old(self), *final(self), si as int, child, start, new)
                &&& final(self).slices@[si as int].inner matches Some(inner) && old(self).slices@[si as int].inner matches Some(inner0)
                    && inner.children@ == inner0.children@.insert(
                    count_starting_at_or_before(inner0.children@, start@),
                    SliceChildNode { start, page_count: new.spec_pages(), data: child },
                )
            },
    {
        proof {
            assert(self.slice_wf(si as int));
        }
        let end = match start.as_usize().checked_add(page_count) {
            Some(e) => e,
            None => {
                return Err(Error::InvalidArgument);
            },
        };
        let slice = &self.slices[si];
        if start.as_usize() < slice.start.as_usize() || end > slice.end().as_usize() {
            return Err(Error::InvalidArgument);
        }
        let inner = match &slice.inner {
            Some(inner) => inner,
            None => {
                return Err(Error::InvalidState);
            },
        };
        let ghost nodes = inner.children@;
        proof {
            lemma_count_starting(nodes, start@);
        }
        let mut position: usize = 0;
        while position < inner.children.len() && inner.children[position].start().as_usize()
            <= start.as_usize()
            invariant
                nodes == inner.children@,
                position <= nodes.len(),
                0 <= count_starting_at_or_before(nodes, start@) <= nodes.len(),
                forall|k: int|
                    0 <= k < count_starting_at_or_before(nodes, start@) ==> (#[trigger] nodes[k]).start@
                        <= start@,
                forall|k: int|
                    count_starting_at_or_before(nodes, start@) <= k < nodes.len() ==> (#[trigger] nodes[k]).start@
                        > start@,
                position <= count_starting_at_or_before(nodes, start@),
            decreases nodes.len() - position,
        {
            position = position + 1;
        }
        if position > 0 {
            let prev = inner.children[position - 1];
            if prev.end().as_usize() > start.as_usize() {
                proof {
                    assert(node_contains(nodes[position - 1], start@));
                }
                return Err(Error::ResourceOverlap);
            }
        }
        if position < inner.children.len() {
            let next = inner.children[position];
            if end > next.start().as_usize() {
                proof {
                    assert(start@ < nodes[position as int].start@ < end);
                }
                return Err(Error::ResourceOverlap);
            }
        }
        proof {
            assert(!overlaps(nodes, start@ as int, end as int)) by {
                if overlaps(nodes, start@ as int, end as int) {
                    let k = choose|k: int|
                        0 <= k < nodes.len() && (node_contains(#[trigger] nodes[k], start@) || (start@
                            < nodes[k].start@ < end));
                    if k < position - 1 {
                        assert(nodes[k].start@ + nodes[k].page_count <= nodes[position - 1].start@);
                    } else if k > position {
                        assert(nodes[position as int].start@ + nodes[position as int].page_count
                            <= nodes[k].start@);
                    }
                }
            }
        }
        let pages = new.pages();
        let child = self.push_child_object(si, start, new);
        self.link_child(si, position, SliceChildNode { start, page_count: pages, data: child });
        Ok(child)
    }
}

/// The gaps between the first `k + 1` of `nodes`, in order.
pub open spec fn gaps_between(nodes: Seq<SliceChildNode>, k: int) -> Seq<Gap>
    decreases k,
{
    if k <= 0 {
        Seq::empty()
    } else {
        let before = gaps_between(nodes, k - 1);
        let end = nodes[k - 1].start@ + nodes[k - 1].page_count;
        if end < nodes[k].start@ {
            before.push(
                Gap {
                    start: VirtPageNum::spec_new(end as usize),
                    page_count: (nodes[k].start@ - end) as usize,
                    position: k as usize,
                },
            )
        } else {
            before
        }
    }
}

/// The gaps of a slice over `start..end` with children `nodes`, in order: the whole slice when it
/// has no children; otherwise the gap before the first child, those between children and the gap
/// after the last child, each when it is not empty.
pub open spec fn spec_gaps(start: usize, end: usize, nodes: Seq<SliceChildNode>) -> Seq<Gap> {
    if nodes.len() == 0 {
        seq![Gap { start: VirtPageNum::spec_new(start), page_count: (end - start) as usize, position: 0 }]
    } else {
        let lead = if start < nodes[0].start@ {
            seq![
                Gap {
                    start: VirtPageNum::spec_new(start),
                    page_count: (nodes[0].start@ - start) as usize,
                    position: 0,
                },
            ]
        } else {
            Seq::empty()
        };
        let last_end = nodes.last().start@ + nodes.last().page_count;
        let trail = if last_end < end {
            seq![
                Gap {
                    start: VirtPageNum::spec_new(last_end as usize),
                    page_count: (end - last_end) as usize,
                    position: nodes.len() as usize,
                },
            ]
        } else {
            Seq::empty()
        };
        lead + gaps_between(nodes, nodes.len() - 1) + trail
    }
}

/// Whether `gap` lies between its neighbours among `nodes`, within `start..end`.
pub open spec fn gap_fits(gap: Gap, start: int, end: int, nodes: Seq<SliceChildNode>) -> bool {
    &&& gap.position <= nodes.len()
    &&& start <= gap.start@
    &&& gap.start@ + gap.page_count == if gap.position < nodes.len() {
        nodes[gap.position as int].start@ as int
    } else {
        end
    }
    &&& gap.position > 0 ==> nodes[gap.position - 1].start@ + nodes[gap.position - 1].page_count
        == gap.start@
}

/// Every gap between nodes lies between its neighbours.
proof fn lemma_gaps_between_fit(nodes: Seq<SliceChildNode>, k: int, start: int, end: int)
    requires
        nodes_sorted(nodes),
        nodes.len() <= usize::MAX,
        0 <= k < nodes.len(),
        start <= nodes[0].start@,
    ensures
        forall|i: int|
            0 <= i < gaps_between(nodes, k).len() ==> gap_fits(
                #[trigger] gaps_between(nodes, k)[i],
                start,
                end,
                nodes,
            ),
    decreases k,
{
    if k > 0 {
        lemma_gaps_between_fit(nodes, k - 1, start, end);
        let before = gaps_between(nodes, k - 1);
        let g = gaps_between(nodes, k);
        assert forall|i: int| 0 <= i < g.len() implies gap_fits(#[trigger] g[i], start, end, nodes) by {
            if i < before.len() {
                assert(g[i] == before[i]);
            } else {
                VirtPageNum::lemma_spec_new_view((nodes[k - 1].start@ + nodes[k - 1].page_count) as usize);
                if k - 1 > 0 {
                    assert(nodes[0].start@ + nodes[0].page_count <= nodes[k - 1].start@);
                }
            }
        }
    }
}

/// Every gap of a slice lies between its neighbours, within the slice.
proof fn lemma_gaps_fit(start: usize, end: usize, nodes: Seq<SliceChildNode>)
    requires
        nodes_sorted(nodes),
        nodes.len() <= usize::MAX,
        start <= end,
        forall|k: int|
            0 <= k < nodes.len() ==> start <= (#[trigger] nodes[k]).start@ && nodes[k].start@
                + nodes[k].page_count <= end,
    ensures
        forall|i: int|
            0 <= i < spec_gaps(start, end, nodes).len() ==> gap_fits(
                #[trigger] spec_gaps(start, end, nodes)[i],
                start as int,
                end as int,
                nodes,
            ),
{
    let gaps = spec_gaps(start, end, nodes);
    VirtPageNum::lemma_spec_new_view(start);
    if nodes.len() > 0 {
        lemma_gaps_between_fit(nodes, nodes.len() - 1, start as int, end as int);
        let last = nodes.last();
        assert(nodes[nodes.len() - 1] == last);
        VirtPageNum::lemma_spec_new_view((last.start@ + last.page_count) as usize);
        let lead = if start < nodes[0].start@ {
            seq![
                Gap {
                    start: VirtPageNum::spec_new(start),
                    page_count: (nodes[0].start@ - start) as usize,
                    position: 0,
                },
            ]
        } else {
            Seq::<Gap>::empty()
        };
        let mid = gaps_between(nodes, nodes.len() - 1);
        assert forall|i: int| 0 <= i < gaps.len() implies gap_fits(#[trigger] gaps[i], start as int, end as int, nodes) by {
            if i < lead.len() {
            } else if i < lead.len() + mid.len() {
                assert(gaps[i] == mid[i - lead.len()]);
            } else {
                if nodes.len() > 1 {
                    assert(nodes[0].start@ + nodes[0].page_count <= last.start@);
                }
            }
        }
    }
}

/// Whether the pages `q..q + n` are free for a child among `nodes`: every child ends at or before
/// `q` or starts at or after `q + n`.
pub open spec fn run_free(nodes: Seq<SliceChildNode>, q: int, n: int) -> bool {
    forall|k: int|
        0 <= k < nodes.len() ==> (#[trigger] nodes[k]).start@ + nodes[k].page_count <= q || q + n <= nodes[k].start@
}

/// The gap between children `j - 1` and `j`, where they leave one, is among the gaps between the
/// first `m + 1` children.
proof fn lemma_gap_between_listed(nodes: Seq<SliceChildNode>, m: int, j: int)
    requires
        1 <= j <= m < nodes.len(),
        nodes[j - 1].start@ + nodes[j - 1].page_count < nodes[j].start@,
    ensures
        exists|i: int|
            0 <= i < gaps_between(nodes, m).len() && #[trigger] gaps_between(nodes, m)[i] == (Gap {
                start: VirtPageNum::spec_new((nodes[j - 1].start@ + nodes[j - 1].page_count) as usize),
                page_count: (nodes[j].start@ - (nodes[j - 1].start@ + nodes[j - 1].page_count)) as usize,
                position: j as usize,
            }),
    decreases m,
{
    let g = gaps_between(nodes, m);
    if j == m {
        assert(g[g.len() - 1] == (Gap {
            start: VirtPageNum::spec_new((nodes[j - 1].start@ + nodes[j - 1].page_count) as usize),
            page_count: (nodes[j].start@ - (nodes[j - 1].start@ + nodes[j - 1].page_count)) as usize,
            position: j as usize,
        }));
    } else {
        lemma_gap_between_listed(nodes, m - 1, j);
        let before = gaps_between(nodes, m - 1);
        let i = choose|i: int|
            0 <= i < before.len() && #[trigger] before[i] == (Gap {
                start: VirtPageNum::spec_new((nodes[j - 1].start@ + nodes[j - 1].page_count) as usize),
                page_count: (nodes[j].start@ - (nodes[j - 1].start@ + nodes[j - 1].page_count)) as usize,
                position: j as usize,
            });
        assert(g[i] == before[i]);
    }
}

/// A page not covered by any child lies among the children as a whole: after every child that
/// starts at or before it and before every other one.
proof fn lemma_slot_of(nodes: Seq<SliceChildNode>, p: int, m: int) -> (k: int)
    requires
        nodes_sorted(nodes),
        0 <= m <= nodes.len(),
        forall|j: int| 0 <= j < m ==> (#[trigger] nodes[j]).start@ <= p,
        forall|j: int| 0 <= j < nodes.len() ==> !node_contains(#[trigger] nodes[j], p as usize),
        0 <= p <= usize::MAX,
    ensures
        m <= k <= nodes.len(),
        k > 0 ==> nodes[k - 1].start@ + nodes[k - 1].page_count <= p,
        k < nodes.len() ==> p < nodes[k].start@,
    decreases nodes.len() - m,
{
    if m < nodes.len() && nodes[m].start@ <= p {
        lemma_slot_of(nodes, p, m + 1)
    } else {
        if m > 0 {
            assert(!node_contains(nodes[m - 1], p as usize));
        }
        m
    }
}

/// Every page of a slice over `start..end` that no child covers lies in one of the slice's gaps:
/// the gap before the first child, one between two consecutive children, or the gap after the
/// last.
pub proof fn law_gaps_cover_free_pages(start: usize, end: usize, nodes: Seq<SliceChildNode>, p: int)
    requires
        nodes_sorted(nodes),
        start <= p < end,
        forall|k: int|
            0 <= k < nodes.len() ==> start <= (#[trigger] nodes[k]).start@ && nodes[k].start@
                + nodes[k].page_count <= end,
        forall|k: int| 0 <= k < nodes.len() ==> !node_contains(#[trigger] nodes[k], p as usize),
    ensures
        exists|i: int|
            0 <= i < spec_gaps(start, end, nodes).len() && (#[trigger] spec_gaps(start, end, nodes)[i]).start@
                <= p < spec_gaps(start, end, nodes)[i].start@ + spec_gaps(start, end, nodes)[i].page_count,
{
    let gaps = spec_gaps(start, end, nodes);
    VirtPageNum::lemma_spec_new_view(start);
    if nodes.len() == 0 {
        assert(gaps[0].start@ <= p < gaps[0].start@ + gaps[0].page_count);
    } else {
        let k = lemma_slot_of(nodes, p, 0);
        let lead = if start < nodes[0].start@ {
            seq![
                Gap {
                    start: VirtPageNum::spec_new(start),
                    page_count: (nodes[0].start@ - start) as usize,
                    position: 0,
                },
            ]
        } else {
            Seq::<Gap>::empty()
        };
        let mid = gaps_between(nodes, nodes.len() - 1);
        let last = nodes[nodes.len() - 1];
        assert(nodes.last() == last);
        if k == 0 {
            assert(gaps[0] == lead[0]);
            assert(gaps[0].start@ <= p < gaps[0].start@ + gaps[0].page_count);
        } else if k == nodes.len() {
            let last_end = (last.start@ + last.page_count) as usize;
            VirtPageNum::lemma_spec_new_view(last_end);
            let t = gaps.len() - 1;
            assert(gaps[t].start@ <= p < gaps[t].start@ + gaps[t].page_count);
        } else {
            let e = (nodes[k - 1].start@ + nodes[k - 1].page_count) as usize;
            lemma_gap_between_listed(nodes, nodes.len() - 1, k);
            let i = choose|i: int|
                0 <= i < mid.len() && #[trigger] mid[i] == (Gap {
                    start: VirtPageNum::spec_new(e),
                    page_count: (nodes[k].start@ - e) as usize,
                    position: k as usize,
                });
            VirtPageNum::lemma_spec_new_view(e);
            assert(gaps[lead.len() + i] == mid[i]);
            assert(gaps[lead.len() + i].start@ <= p < gaps[lead.len() + i].start@ + gaps[lead.len()
                + i].page_count);
        }
    }
}

/// Within an attached slice, a run of `n > 0` pages free of children ([`run_free`]) lies inside a
/// single gap, which is then at least `n` pages long: placing `n` pages without a fixed start
/// finds room ([`spec_dynamic_error`] is `None`).
pub proof fn law_free_run_fits(s: Slice, n: usize, q: int) -> (i: int)
    requires
        s.inner matches Some(inner) && nodes_sorted(inner.children@) && inner.children@.len() <= usize::MAX
            && forall|k: int|
            0 <= k < inner.children@.len() ==> s.start@ <= (#[trigger] inner.children@[k]).start@
                && inner.children@[k].start@ + inner.children@[k].page_count <= s.start@ + s.page_count,
        s.start@ + s.page_count <= usize::MAX,
        n > 0,
        s.start@ <= q,
        q + n <= s.start@ + s.page_count,
        run_free(s.inner->Some_0.children@, q, n as int),
    ensures
        ({
            let gaps = spec_gaps(s.start@, (s.start@ + s.page_count) as usize, s.inner->Some_0.children@);
            &&& 0 <= i < gaps.len()
            &&& gaps[i].start@ <= q
            &&& gaps[i].page_count >= n
        }),
        spec_dynamic_error(s, n) is None,
{
    let nodes = s.inner->Some_0.children@;
    let end = (s.start@ + s.page_count) as usize;
    let gaps = spec_gaps(s.start@, end, nodes);
    assert forall|k: int| 0 <= k < nodes.len() implies !node_contains(#[trigger] nodes[k], q as usize) by {}
    law_gaps_cover_free_pages(s.start@, end, nodes, q);
    lemma_gaps_fit(s.start@, end, nodes);
    let i = choose|i: int| 0 <= i < gaps.len() && (#[trigger] gaps[i]).start@ <= q < gaps[i].start@ + gaps[i].page_count;
    assert(gap_fits(gaps[i], s.start@ as int, end as int, nodes));
    if (gaps[i].position as int) < nodes.len() {
        let pos = gaps[i].position as int;
        assert(nodes[pos].start@ + nodes[pos].page_count <= q || q + n <= nodes[pos].start@);
    }
    assert(gaps[i].page_count >= n);
    i
}

/// Every gap of a slice over `start..end` lies within the slice and is free of children: no child
/// covers one of its pages or starts inside it.
pub proof fn law_gaps_are_free(start: usize, end: usize, nodes: Seq<SliceChildNode>, i: int)
    requires
        nodes_sorted(nodes),
        nodes.len() <= usize::MAX,
        start <= end,
        forall|k: int|
            0 <= k < nodes.len() ==> start <= (#[trigger] nodes[k]).start@ && nodes[k].start@
                + nodes[k].page_count <= end,
        0 <= i < spec_gaps(start, end, nodes).len(),
    ensures
        start <= spec_gaps(start, end, nodes)[i].start@,
        spec_gaps(start, end, nodes)[i].start@ + spec_gaps(start, end, nodes)[i].page_count <= end,
        run_free(
            nodes,
            spec_gaps(start, end, nodes)[i].start@ as int,
            spec_gaps(start, end, nodes)[i].page_count as int,
        ),
{
    let gaps = spec_gaps(start, end, nodes);
    lemma_gaps_fit(start, end, nodes);
    let g = gaps[i];
    assert(gap_fits(g, start as int, end as int, nodes));
    let pos = g.position as int;
    assert forall|k: int| 0 <= k < nodes.len() implies (#[trigger] nodes[k]).start@ + nodes[k].page_count
        <= g.start@ || g.start@ + g.page_count <= nodes[k].start@ by {
        if k < pos - 1 {
            assert(nodes[k].start@ + nodes[k].page_count <= nodes[pos - 1].start@);
        } else if k > pos {
            assert(nodes[pos].start@ + nodes[pos].page_count <= nodes[k].start@);
        }
    }
    if pos < nodes.len() {
        assert(nodes[pos].start@ + nodes[pos].page_count <= end);
    }
}

/// The gaps of a slice come in order of their positions among the children.
proof fn lemma_gaps_between_positions(nodes: Seq<SliceChildNode>, m: int)
    requires
        0 <= m < nodes.len(),
        nodes.len() <= usize::MAX,
    ensures
        forall|i: int|
            0 <= i < gaps_between(nodes, m).len() ==> 1 <= (#[trigger] gaps_between(nodes, m)[i]).position <= m,
        forall|a: int, b: int|
            0 <= a < b < gaps_between(nodes, m).len() ==> gaps_between(nodes, m)[a].position
                < gaps_between(nodes, m)[b].position,
    decreases m,
{
    if m > 0 {
        lemma_gaps_between_positions(nodes, m - 1);
        let before = gaps_between(nodes, m - 1);
        let g = gaps_between(nodes, m);
        assert forall|i: int| 0 <= i < g.len() implies 1 <= (#[trigger] g[i]).position <= m by {
            if i < before.len() {
                assert(g[i] == before[i]);
            }
        }
        assert forall|a: int, b: int| 0 <= a < b < g.len() implies g[a].position < g[b].position by {
            assert(g[a] == before[a]);
            if b < before.len() {
                assert(g[b] == before[b]);
            }
        }
    }
}

/// The gaps of a slice come in ascending order of their first pages.
proof fn lemma_gaps_ascending(start: usize, end: usize, nodes: Seq<SliceChildNode>, a: int, b: int)
    requires
        nodes_sorted(nodes),
        nodes.len() <= usize::MAX,
        start <= end,
        forall|k: int|
            0 <= k < nodes.len() ==> start <= (#[trigger] nodes[k]).start@ && nodes[k].start@
                + nodes[k].page_count <= end,
        0 <= a < b < spec_gaps(start, end, nodes).len(),
    ensures
        spec_gaps(start, end, nodes)[a].start@ <= spec_gaps(start, end, nodes)[b].start@,
{
    let gaps = spec_gaps(start, end, nodes);
    lemma_gaps_fit(start, end, nodes);
    assert(gap_fits(gaps[a], start as int, end as int, nodes));
    assert(gap_fits(gaps[b], start as int, end as int, nodes));
    if nodes.len() > 0 {
        lemma_gaps_between_positions(nodes, nodes.len() - 1);
        let lead_len: int = if start < nodes[0].start@ { 1 } else { 0 };
        let mid = gaps_between(nodes, nodes.len() - 1);
        assert(gaps.len() >= lead_len + mid.len());
        let pa = gaps[a].position as int;
        let pb = gaps[b].position as int;
        assert(pa < pb) by {
            if a < lead_len {
                assert(gaps[a].position == 0);
                if b < lead_len + mid.len() {
                    assert(gaps[b] == mid[b - lead_len]);
                } else {
                    assert(gaps[b].position == nodes.len());
                }
            } else if a < lead_len + mid.len() {
                assert(gaps[a] == mid[a - lead_len]);
                if b < lead_len + mid.len() {
                    assert(gaps[b] == mid[b - lead_len]);
                } else {
                    assert(gaps[b].position == nodes.len());
                }
            } else {
                assert(b >= gaps.len());
            }
        }
        assert(nodes[pa].start@ <= nodes[pb - 1].start@ + nodes[pb - 1].page_count) by {
            if pa < pb - 1 {
                assert(nodes[pa].start@ + nodes[pa].page_count <= nodes[pb - 1].start@);
            }
        }
    }
}

/// Placing `n > 0` pages in the first gap long enough puts them no higher than any run of `n`
/// pages free of children within the slice: that gap starts at the lowest such run.
pub proof fn law_first_fit_is_lowest(s: Slice, n: usize, i: int, q: int)
    requires
        s.inner matches Some(inner) && nodes_sorted(inner.children@) && inner.children@.len() <= usize::MAX
            && forall|k: int|
            0 <= k < inner.children@.len() ==> s.start@ <= (#[trigger] inner.children@[k]).start@
                && inner.children@[k].start@ + inner.children@[k].page_count <= s.start@ + s.page_count,
        s.start@ + s.page_count <= usize::MAX,
        n > 0,
        0 <= i < spec_gaps(s.start@, (s.start@ + s.page_count) as usize, s.inner->Some_0.children@).len(),
        forall|j: int|
            0 <= j < i ==> (#[trigger] spec_gaps(s.start@, (s.start@ + s.page_count) as usize, s.inner->Some_0.children@)[j]).page_count < n,
        s.start@ <= q,
        q + n <= s.start@ + s.page_count,
        run_free(s.inner->Some_0.children@, q, n as int),
    ensures
        spec_gaps(s.start@, (s.start@ + s.page_count) as usize, s.inner->Some_0.children@)[i].start@ <= q,
{
    let nodes = s.inner->Some_0.children@;
    let end = (s.start@ + s.page_count) as usize;
    let gaps = spec_gaps(s.start@, end, nodes);
    let j = law_free_run_fits(s, n, q);
    assert(!(j < i)) by {
        if j < i {
            assert(gaps[j].page_count < n);
        }
    }
    if i < j {
        lemma_gaps_ascending(s.start@, end, nodes, i, j);
    }
}

impl SliceTree {
    /// Lists the gaps of slice `si`, in order; see [`spec_gaps`].
    ///
    /// Errors: `InvalidState` when the slice is detached.
    pub fn iter_gaps_mut(&self, si: usize) -> (r: Result<Vec<Gap>>)
        requires
            self.wf(),
            si < self.slices@.len(),
        ensures
            self.slices@[si as int].inner is None ==> r == Err::<Vec<Gap>, Error>(Error::InvalidState),
            self.slices@[si as int].inner matches Some(inner) ==> (r matches Ok(gaps) && gaps@ == spec_gaps(
                self.slices@[si as int].start@,
                (self.slices@[si as int].start@ + self.slices@[si as int].page_count) as usize,
                inner.children@,
            ) && inner.children@.len() <= usize::MAX),
    {
        proof {
            assert(self.slice_wf(si as int));
        }
        let slice = &self.slices[si];
        let inner = match &slice.inner {
            Some(inner) => inner,
            None => {
                return Err(Error::InvalidState);
            },
        };
        let nodes = &inner.children;
        let slice_start = slice.start.as_usize();
        let slice_end = slice.end().as_usize();
        let mut gaps: Vec<Gap> = Vec::new();
        if nodes.len() == 0 {
            gaps.push(Gap { start: slice.start, page_count: slice.page_count, position: 0 });
            proof {
                VirtPageNum::lemma_spec_new(slice.start);
            }
            return Ok(gaps);
        }
        let first_start = nodes[0].start().as_usize();
        if slice_start < first_start {
            gaps.push(
                Gap { start: slice.start, page_count: first_start - slice_start, position: 0 },
            );
            proof {
                VirtPageNum::lemma_spec_new(slice.start);
            }
        }
        let ghost lead = gaps@;
        let mut k: usize = 1;
        while k < nodes.len()
            invariant
                1 <= k <= nodes@.len(),
                nodes_sorted(nodes@),
                gaps@ == lead + gaps_between(nodes@, k - 1),
            decreases nodes@.len() - k,
        {
            let cur_end = nodes[k - 1].end().as_usize();
            let next_start = nodes[k].start().as_usize();
            if cur_end < next_start {
                let g = Gap { start: VirtPageNum::new(cur_end), page_count: next_start - cur_end, position: k };
                proof {
                    VirtPageNum::lemma_spec_new(g.start);
                }
                gaps.push(g);
            }
            proof {
                assert(gaps@ =~= lead + gaps_between(nodes@, k as int));
            }
            k = k + 1;
        }
        let last_end = nodes[nodes.len() - 1].end().as_usize();
        let ghost mid = gaps@;
        if last_end < slice_end {
            let g = Gap { start: VirtPageNum::new(last_end), page_count: slice_end - last_end, position: nodes.len() };
            proof {
                VirtPageNum::lemma_spec_new(g.start);
            }
            gaps.push(g);
        }
        proof {
            assert(nodes@[nodes@.len() - 1] == nodes@.last());
            assert(gaps@ =~= spec_gaps(slice_start, slice_end, nodes@));
        }
        Ok(gaps)
    }

    /// Places the child described by `new` at the start of the first gap of slice `si` that has
    /// room for `page_count` pages.
    ///
    /// Errors: `InvalidState` when the slice is detached; `OutOfResources` when no gap is long
    /// enough.
    pub fn alloc_spot_dynamic(&mut self, si: usize, page_count: usize, new: NewChild) -> (r: Result<SliceChild>)
        requires
            old(self).wf(),
            si < old(self).slices@.len(),
            new.spec_pages() <= page_count,
        ensures
            final(self).wf(),
            old(self).slices@[si as int].inner is None ==> r == Err::<SliceChild, Error>(
                Error::InvalidState,
            ) && *final(self) == *old(self),
            old(self).slices@[si as int].inner matches Some(inner0) ==> {
                let s = old(self).slices@[si as int];
                let gaps = spec_gaps(s.start@, (s.start@ + s.page_count) as usize, inner0.children@);
                &&& (r is Err <==> forall|i: int| 0 <= i < gaps.len() ==> (#[trigger] gaps[i]).page_count
                    < page_count)
                &&& page_count > 0 && (exists|q: int|
                    s.start@ <= q && q + page_count <= s.start@ + s.page_count && #[trigger] run_free(
                        inner0.children@,
                        q,
                        page_count as int,
                    )) ==> r is Ok
                &&& r is Err ==> r == Err::<SliceChild, Error>(Error::OutOfResources) && *final(self)
                    == *old(self)
                &&& r matches Ok(child) ==> exists|i: int|
                    {
                        &&& 0 <= i < gaps.len()
                        &&& (#[trigger] gaps[i]).page_count >= page_count
                        &&& gaps[i].position <= inner0.children@.len()
                        &&& placed(*old(self), *final(self), si as int, child, gaps[i].start, new)
                        &&& forall|j: int| 0 <= j < i ==> gaps[j].page_count < page_count
                        &&& page_count > 0 ==> forall|q: int|
                            s.start@ <= q && q + page_count <= s.start@ + s.page_count && #[trigger] run_free(
                                inner0.children@,
                                q,
                                page_count as int,
                            ) ==> gaps[i].start@ <= q
                        &&& final(self).slices@[si as int].inner matches Some(inner) && inner.children@
                            == inner0.children@.insert(
                            gaps[i].position as int,
                            SliceChildNode { start: gaps[i].start, page_count: new.spec_pages(), data: child },
                        )
                    }
                &&& r is Ok ==> forall|j: int|
                    0 <= j < old(self).slices@.len() && j != si ==> #[trigger] final(self).slices@[j]
                        == old(self).slices@[j]
            },
    {
        proof {
            assert(self.slice_wf(si as int));
        }
        let gaps = self.iter_gaps_mut(si)?;
        let ghost s = self.slices@[si as int];
        let ghost nodes = s.inner->Some_0.children@;
        proof {
            lemma_gaps_fit(s.start@, (s.start@ + s.page_count) as usize, nodes);
        }
        let mut i: usize = 0;
        while i < gaps.len()
            invariant
                *self == *old(self),
                old(self).wf(),
                si < old(self).slices@.len(),
                new.spec_pages() <= page_count,
                s == old(self).slices@[si as int],
                s.inner matches Some(inner) && nodes == inner.children@,
                nodes.len() <= usize::MAX,
                gaps@ == spec_gaps(s.start@, (s.start@ + s.page_count) as usize, nodes),
                forall|j: int|
                    0 <= j < gaps@.len() ==> gap_fits(
                        #[trigger] gaps@[j],
                        s.start@ as int,
                        s.start@ + s.page_count,
                        nodes,
                    ),
                i <= gaps@.len(),
                forall|j: int| 0 <= j < i ==> (#[trigger] gaps@[j]).page_count < page_count,
            decreases gaps@.len() - i,
        {
            let gap = gaps[i];
            if gap.page_count >= page_count {
                proof {
                    assert(gap_fits(gaps@[i as int], s.start@ as int, s.start@ + s.page_count, nodes));
                    assert(old(self).slice_wf(si as int));
                }
                let pages = new.pages();
                let child = self.push_child_object(si, gap.start, new);
                self.link_child(si, gap.position, SliceChildNode { start: gap.start, page_count: pages, data: child });
                proof {
                    assert(gaps@[i as int].page_count >= page_count);
                    assert(old(self).slice_wf(si as int));
                    if page_count > 0 {
                        assert forall|q: int|
                            s.start@ <= q && q + page_count <= s.start@ + s.page_count && #[trigger] run_free(
                                nodes,
                                q,
                                page_count as int,
                            ) implies gaps@[i as int].start@ <= q by {
                            law_first_fit_is_lowest(s, page_count, i as int, q);
                        }
                    }
                }
                return Ok(child);
            }
            i = i + 1;
        }
        proof {
            assert(old(self).slice_wf(si as int));
            if page_count > 0 && exists|q: int|
                s.start@ <= q && q + page_count <= s.start@ + s.page_count && #[trigger] run_free(
                    nodes,
                    q,
                    page_count as int,
                ) {
                let q = choose|q: int|
                    s.start@ <= q && q + page_count <= s.start@ + s.page_count && #[trigger] run_free(
                        nodes,
                        q,
                        page_count as int,
                    );
                let j = law_free_run_fits(s, page_count, q);
                assert(gaps@[j].page_count < page_count);
            }
        }
        Err(Error::OutOfResources)
    }

    /// Places the child described by `new` in slice `si`: at `start` when it is given (see
    /// [`alloc_spot_fixed`](SliceTree::alloc_spot_fixed)), and otherwise in the first gap long
    /// enough (see [`alloc_spot_dynamic`](SliceTree::alloc_spot_dynamic)). Without a start it
    /// succeeds exactly when the slice is attached and some gap has room for the pages.
    pub fn alloc_spot(&mut self, si: usize, start: Option<VirtPageNum>, page_count: usize, new: NewChild) -> (r: Result<SliceChild>)
        requires
            old(self).wf(),
            si < old(self).slices@.len(),
            new.spec_pages() <= page_count,
        ensures
            final(self).wf(),
            start matches Some(st) ==> (spec_fixed_error(old(self).slices@[si as int], st, page_count)
                matches Some(e) ==> r == Err::<SliceChild, Error>(e)),
            start matches Some(st) ==> (spec_fixed_error(old(self).slices@[si as int], st, page_count)
                is None ==> r is Ok),
            start is None ==> (spec_dynamic_error(old(self).slices@[si as int], page_count) matches Some(e)
                ==> r == Err::<SliceChild, Error>(e)),
            start is None ==> (spec_dynamic_error(old(self).slices@[si as int], page_count) is None
                ==> r is Ok),
            start is None && page_count > 0 && old(self).slices@[si as int].inner is Some && (exists|q: int|
                old(self).slices@[si as int].start@ <= q && q + page_count <= old(self).slices@[si as int].start@
                    + old(self).slices@[si as int].page_count && #[trigger] run_free(
                    old(self).slices@[si as int].inner->Some_0.children@,
                    q,
                    page_count as int,
                )) ==> r is Ok,
            start is None ==> (r matches Ok(child) ==> exists|at: VirtPageNum|
                #[trigger] placed(*old(self), *final(self), si as int, child, at, new) && forall|q: int|
                    old(self).slices@[si as int].start@ <= q && q + page_count <= old(self).slices@[si as int].start@
                        + old(self).slices@[si as int].page_count && page_count > 0 && #[trigger] run_free(
                        old(self).slices@[si as int].inner->Some_0.children@,
                        q,
                        page_count as int,
                    ) ==> at@ <= q),
            r is Err ==> *final(self) == *old(self),
            r matches Ok(child) ==> exists|at: VirtPageNum|
                #[trigger] placed(*old(self), *final(self), si as int, child, at, new),
            r matches Ok(child) ==> (start matches Some(st) ==> placed(
                *old(self),
                *final(self),
                si as int,
                child,
                st,
                new,
            )),
            r matches Ok(child) ==> exists|at: VirtPageNum, pos: int|
                placed(*old(self), *final(self), si as int, child, at, new) && #[trigger] child_inserted(
                    *old(self),
                    *final(self),
                    si as int,
                    pos,
                    SliceChildNode { start: at, page_count: new.spec_pages(), data: child },
                ),
            r matches Ok(child) ==> (start matches Some(st) ==> (final(self).slices@[si as int].inner matches Some(inner)
                && old(self).slices@[si as int].inner matches Some(inner0) && inner.children@
                == inner0.children@.insert(
                count_starting_at_or_before(inner0.children@, st@),
                SliceChildNode { start: st, page_count: new.spec_pages(), data: child },
            ))),
    {
        proof {
            assert(old(self).slice_wf(si as int));
        }
        let ghost new_spec = new;
        match start {
            Some(start) => {
                let r = self.alloc_spot_fixed(si, start, page_count, new);
                proof {
                    if let Ok(child) = r {
                        let inner0 = old(self).slices@[si as int].inner.unwrap();
                        lemma_count_starting(inner0.children@, start@);
                        let pos = count_starting_at_or_before(inner0.children@, start@);
                        assert(child_inserted(
                            *old(self),
                            *self,
                            si as int,
                            pos,
                            SliceChildNode { start, page_count: new_spec.spec_pages(), data: child },
                        ));
                    }
                }
                r
            },
            None => {
                let r = self.alloc_spot_dynamic(si, page_count, new);
                proof {
                    if let Ok(child) = r {
                        let inner0 = old(self).slices@[si as int].inner.unwrap();
                        let s = old(self).slices@[si as int];
                        let gaps = spec_gaps(s.start@, (s.start@ + s.page_count) as usize, inner0.children@);
                        let i = choose|i: int|
                            {
                                &&& 0 <= i < gaps.len()
                                &&& (#[trigger] gaps[i]).page_count >= page_count
                                &&& gaps[i].position <= inner0.children@.len()
                                &&& placed(*old(self), *self, si as int, child, gaps[i].start, new_spec)
                                &&& forall|j: int| 0 <= j < i ==> gaps[j].page_count < page_count
                                &&& self.slices@[si as int].inner matches Some(inner) && inner.children@
                                    == inner0.children@.insert(
                                    gaps[i].position as int,
                                    SliceChildNode { start: gaps[i].start, page_count: new_spec.spec_pages(), data: child },
                                )
                            };
                        assert(child_inserted(
                            *old(self),
                            *self,
                            si as int,
                            gaps[i].position as int,
                            SliceChildNode { start: gaps[i].start, page_count: new_spec.spec_pages(), data: child },
                        ));
                    }
                }
                r
            },
        }
    }
}

/// Removing a node from sorted nodes keeps them sorted.
proof fn lemma_remove_sorted(nodes0: Seq<SliceChildNode>, k: int)
    requires
        nodes_sorted(nodes0),
        0 <= k < nodes0.len(),
    ensures
        nodes_sorted(nodes0.remove(k)),
{
    let nodes = nodes0.remove(k);
    assert forall|a: int, b: int| 0 <= a < b < nodes.len() implies nodes[a].start@
        + nodes[a].page_count <= nodes[b].start@ by {
        let a0 = if a < k { a } else { a + 1 };
        let b0 = if b < k { b } else { b + 1 };
        assert(nodes[a] == nodes0[a0] && nodes[b] == nodes0[b0]);
    }
    assert forall|i: int| 0 <= i < nodes.len() implies (#[trigger] nodes[i]).start@
        + nodes[i].page_count <= usize::MAX by {
        if i < k {
            assert(nodes[i] == nodes0[i]);
        } else {
            assert(nodes[i] == nodes0[i + 1]);
        }
    }
}

/// Whether slice `c` is a subslice among the children of slice `p`, which is attached.
pub open spec fn child_of(tree: SliceTree, p: usize, c: usize) -> bool {
    &&& p < tree.slices@.len()
    &&& tree.slices@[p as int].inner matches Some(inner) && exists|k: int|
        0 <= k < inner.children@.len() && #[trigger] inner.children@[k].data == SliceChild::Subslice(c)
}

/// Whether slice `j` is reached from slice `x` in exactly `n` steps, each from a slice to one of
/// its subslices.
pub open spec fn reaches(tree: SliceTree, x: usize, j: usize, n: nat) -> bool
    decreases n,
{
    if n == 0 {
        x == j
    } else {
        exists|y: usize| #[trigger] child_of(tree, x, y) && reaches(tree, y, j, (n - 1) as nat)
    }
}

/// Whether slice `j` lies below slice `x`: it is a subslice of `x` or lies below one.
pub open spec fn below(tree: SliceTree, x: usize, j: usize) -> bool {
    exists|n: nat| n > 0 && #[trigger] reaches(tree, x, j, n)
}

/// Whether slice `j` is, or lies below, a subslice among the first `n` of `nodes`.
spec fn under_first(tree: SliceTree, nodes: Seq<SliceChildNode>, n: int, j: usize) -> bool {
    exists|i: int|
        0 <= i < n && ((#[trigger] nodes[i]).data matches SliceChild::Subslice(c) && (c == j || below(tree, c, j)))
}

/// Trees that agree on slice `x` and every slice after it reach the same slices from `x`.
pub proof fn lemma_reaches_same_from(t0: SliceTree, t1: SliceTree, x: usize, j: usize, m: nat)
    requires
        t0.wf(),
        t1.slices@.len() == t0.slices@.len(),
        forall|k: int| x <= k < t0.slices@.len() ==> #[trigger] t1.slices@[k] == t0.slices@[k],
        reaches(t0, x, j, m),
    ensures
        reaches(t1, x, j, m),
    decreases m,
{
    if m > 0 {
        let y = choose|y: usize| #[trigger] child_of(t0, x, y) && reaches(t0, y, j, (m - 1) as nat);
        lemma_child_after(t0, x, y);
        assert(t1.slices@[x as int] == t0.slices@[x as int]);
        assert(child_of(t1, x, y));
        lemma_reaches_same_from(t0, t1, y, j, (m - 1) as nat);
    }
}

/// In a valid tree a subslice comes after its parent.
proof fn lemma_child_after(tree: SliceTree, x: usize, y: usize)
    requires
        tree.wf(),
        child_of(tree, x, y),
    ensures
        x < y < tree.slices@.len(),
{
    let inner = tree.slices@[x as int].inner->Some_0;
    let k = choose|k: int| 0 <= k < inner.children@.len() && #[trigger] inner.children@[k].data == SliceChild::Subslice(y);
    assert(tree.slice_wf(x as int));
    assert(tree.node_ok(x as int, inner.children@[k]));
}

/// In a valid tree, a slice reached in some steps comes at or after the first.
proof fn lemma_reaches_after(tree: SliceTree, x: usize, j: usize, n: nat)
    requires
        tree.wf(),
        reaches(tree, x, j, n),
    ensures
        x <= j,
        n > 0 ==> x < j,
        x < tree.slices@.len() ==> j < tree.slices@.len(),
    decreases n,
{
    if n > 0 {
        let y = choose|y: usize| #[trigger] child_of(tree, x, y) && reaches(tree, y, j, (n - 1) as nat);
        lemma_child_after(tree, x, y);
        lemma_reaches_after(tree, y, j, (n - 1) as nat);
    }
}

/// Steps from `x` to `y` followed by steps from `y` to `j` reach `j` from `x`.
proof fn lemma_reaches_trans(tree: SliceTree, x: usize, y: usize, j: usize, a: nat, b: nat)
    requires
        reaches(tree, x, y, a),
        reaches(tree, y, j, b),
    ensures
        reaches(tree, x, j, a + b),
    decreases a,
{
    if a > 0 {
        let z = choose|z: usize| #[trigger] child_of(tree, x, z) && reaches(tree, z, y, (a - 1) as nat);
        lemma_reaches_trans(tree, z, y, j, (a - 1) as nat, b);
        assert(reaches(tree, z, j, (a - 1 + b) as nat));
        assert((a + b - 1) as nat == (a - 1 + b) as nat);
    }
}

/// What is reached from a slice under the first `n` children is under them too.
proof fn lemma_under_first_closed(tree: SliceTree, nodes: Seq<SliceChildNode>, n: int, y: usize, j: usize, m: nat)
    requires
        under_first(tree, nodes, n, y),
        reaches(tree, y, j, m),
    ensures
        under_first(tree, nodes, n, j),
{
    let i = choose|i: int|
        0 <= i < n && ((#[trigger] nodes[i]).data matches SliceChild::Subslice(c) && (c == y || below(tree, c, y)));
    let c = nodes[i].data->Subslice_0;
    if m > 0 {
        if c == y {
            assert(below(tree, c, j));
        } else {
            let a = choose|a: nat| a > 0 && #[trigger] reaches(tree, c, y, a);
            lemma_reaches_trans(tree, c, y, j, a, m);
            assert(below(tree, c, j));
        }
    }
}

/// A tree in which only slice `si` lost children and slices under the first `n` children of
/// `si` were detached has no link that `t0` lacks, so whatever it reaches `t0` reaches too.
proof fn lemma_reaches_fewer(t0: SliceTree, t1: SliceTree, si: usize, n: int, n2: int, x: usize, j: usize, m: nat)
    requires
        si < t0.slices@.len(),
        t0.slices@[si as int].inner matches Some(inner0) && 0 <= n <= n2 <= inner0.children@.len(),
        t1.slices@.len() == t0.slices@.len(),
        t1.slices@[si as int].inner matches Some(inner1) && t0.slices@[si as int].inner matches Some(inner0)
            && inner1.children@ == inner0.children@.subrange(n2, inner0.children@.len() as int),
        forall|k: usize|
            k < t0.slices@.len() && k != si && under_first(t0, t0.slices@[si as int].inner->Some_0.children@, n, k)
                ==> (#[trigger] t1.slices@[k as int]).inner is None,
        forall|k: usize|
            k < t0.slices@.len() && k != si && !under_first(t0, t0.slices@[si as int].inner->Some_0.children@, n, k)
                ==> #[trigger] t1.slices@[k as int] == t0.slices@[k as int],
        reaches(t1, x, j, m),
    ensures
        reaches(t0, x, j, m),
    decreases m,
{
    if m > 0 {
        let y = choose|y: usize| #[trigger] child_of(t1, x, y) && reaches(t1, y, j, (m - 1) as nat);
        lemma_reaches_fewer(t0, t1, si, n, n2, y, j, (m - 1) as nat);
        let inner1 = t1.slices@[x as int].inner->Some_0;
        let k = choose|k: int| 0 <= k < inner1.children@.len() && #[trigger] inner1.children@[k].data == SliceChild::Subslice(y);
        if x == si {
            let inner0 = t0.slices@[si as int].inner->Some_0;
            assert(inner0.children@[k + n2].data == SliceChild::Subslice(y));
        } else {
            assert(t1.slices@[x as int] == t0.slices@[x as int]);
        }
        assert(child_of(t0, x, y));
    }
}

/// A slice reached in `t0` from a slice that neither is `si`, lies under the first `n` children
/// of `si`, nor comes before `si`, is reached in `t1` too, or lies under those children.
proof fn lemma_reaches_kept(t0: SliceTree, t1: SliceTree, si: usize, n: int, x: usize, j: usize, m: nat)
    requires
        t0.wf(),
        si < x,
        si < t0.slices@.len(),
        t0.slices@[si as int].inner is Some,
        !under_first(t0, t0.slices@[si as int].inner->Some_0.children@, n, x),
        t1.slices@.len() == t0.slices@.len(),
        forall|k: usize|
            k < t0.slices@.len() && k != si && !under_first(t0, t0.slices@[si as int].inner->Some_0.children@, n, k)
                ==> #[trigger] t1.slices@[k as int] == t0.slices@[k as int],
        reaches(t0, x, j, m),
    ensures
        reaches(t1, x, j, m) || under_first(t0, t0.slices@[si as int].inner->Some_0.children@, n, j),
    decreases m,
{
    let nodes = t0.slices@[si as int].inner->Some_0.children@;
    if m > 0 {
        let y = choose|y: usize| #[trigger] child_of(t0, x, y) && reaches(t0, y, j, (m - 1) as nat);
        lemma_child_after(t0, x, y);
        assert(t1.slices@[x as int] == t0.slices@[x as int]);
        assert(child_of(t1, x, y));
        if under_first(t0, nodes, n, y) {
            lemma_under_first_closed(t0, nodes, n, y, j, (m - 1) as nat);
        } else {
            lemma_reaches_kept(t0, t1, si, n, y, j, (m - 1) as nat);
        }
    }
}

impl SliceTree {
    /// Replaces the children of slice `si`, which must be attached, by the result of removing the
    /// one at position `k`.
    fn unlink_child(&mut self, si: usize, k: usize) -> (r: SliceChildNode)
        requires
            old(self).wf(),
            si < old(self).slices@.len(),
            old(self).slices@[si as int].inner matches Some(inner) && k < inner.children@.len(),
        ensures
            final(self).wf(),
            final(self).slices@.len() == old(self).slices@.len(),
            final(self).mappings@ == old(self).mappings@,
            forall|j: int|
                0 <= j < old(self).slices@.len() && j != si ==> #[trigger] final(self).slices@[j]
                    == old(self).slices@[j],
            final(self).slices@[si as int].start == old(self).slices@[si as int].start,
            final(self).slices@[si as int].page_count == old(self).slices@[si as int].page_count,
            final(self).slices@[si as int].inner matches Some(inner) && old(self).slices@[si as int].inner matches Some(inner0)
                && inner.parent == inner0.parent && inner.children@ == inner0.children@.remove(k as int)
                && r == inner0.children@[k as int],
    {
        let ghost old_self = *self;
        proof {
            assert(self.slice_wf(si as int));
        }
        let mut slice = Slice::new(None, &[], VirtPageNum::new(0), 0);
        core::mem::swap(&mut slice, &mut self.slices[si]);
        let mut inner = slice.inner.take().unwrap();
        let ghost nodes0 = inner.children@;
        let node = inner.children.remove(k);
        slice.inner = Some(inner);
        core::mem::swap(&mut slice, &mut self.slices[si]);
        proof {
            lemma_remove_sorted(nodes0, k as int);
            let nodes = inner.children@;
            assert forall|j: int| 0 <= j < self.slices@.len() implies #[trigger] self.slice_wf(j) by {
                assert(old_self.slice_wf(j));
                if j != si {
                    assert(self.slices@[j] == old_self.slices@[j]);
                    if let Some(ji) = self.slices@[j].inner {
                        assert forall|i: int| 0 <= i < ji.children@.len() implies self.node_ok(
                            j,
                            #[trigger] ji.children@[i],
                        ) by {
                            assert(old_self.node_ok(j, ji.children@[i]));
                        }
                    }
                } else {
                    assert forall|i: int| 0 <= i < nodes.len() implies {
                        let c = #[trigger] nodes[i];
                        &&& self.slices@[j].start@ <= c.start@
                        &&& c.start@ + c.page_count <= self.slices@[j].start@ + self.slices@[j].page_count
                        &&& self.node_ok(j, c)
                    } by {
                        let i0 = if i < k { i } else { i + 1 };
                        assert(nodes[i] == nodes0[i0]);
                        assert(old_self.node_ok(j, nodes0[i0]));
                    }
                }
            }
        }
        node
    }

    /// Removes the direct child of slice `si` that starts at `start`. Slices only ever ask this
    /// for a child that they hold.
    ///
    /// Errors: `InvalidState` when the slice is detached, or holds no child starting at `start`.
    pub fn remove_child(&mut self, si: usize, start: VirtPageNum) -> (r: Result<()>)
        requires
            old(self).wf(),
            si < old(self).slices@.len(),
        ensures
            final(self).wf(),
            final(self).slices@.len() == old(self).slices@.len(),
            final(self).mappings@ == old(self).mappings@,
            r is Err ==> r == Err::<(), Error>(Error::InvalidState) && *final(self) == *old(self),
            r is Ok <==> (old(self).slices@[si as int].inner matches Some(inner) && exists|k: int|
                0 <= k < inner.children@.len() && (#[trigger] inner.children@[k]).start == start),
            r is Ok ==> (old(self).slices@[si as int].inner matches Some(inner0) && {
                &&& forall|j: int|
                    0 <= j < old(self).slices@.len() && j != si ==> #[trigger] final(self).slices@[j]
                        == old(self).slices@[j]
                &&& exists|k: int|
                    {
                        &&& 0 <= k < inner0.children@.len()
                        &&& (#[trigger] inner0.children@[k]).start == start
                        &&& final(self).slices@[si as int].inner matches Some(inner)
                            && inner.children@ == inner0.children@.remove(k)
                    }
            }),
    {
        let inner = match &self.slices[si].inner {
            Some(inner) => inner,
            None => {
                return Err(Error::InvalidState);
            },
        };
        let mut k: usize = 0;
        while k < inner.children.len() && inner.children[k].start().as_usize() != start.as_usize()
            invariant
                k <= inner.children@.len(),
                forall|i: int| 0 <= i < k ==> (#[trigger] inner.children@[i]).start != start,
            decreases inner.children@.len() - k,
        {
            k = k + 1;
        }
        if k == inner.children.len() {
            return Err(Error::InvalidState);
        }
        proof {
            VirtPageNum::lemma_spec_new(inner.children@[k as int].start);
            VirtPageNum::lemma_spec_new(start);
        }
        let ghost inner0 = *inner;
        self.unlink_child(si, k);
        proof {
            assert(inner0.children@[k as int].start == start);
        }
        Ok(())
    }

    /// Detaches slice `si` and every slice below it: children are taken off one at a time, first
    /// to last, each subslice being detached before the next child is taken off, and finally the
    /// slice itself is marked detached. Mappings below are left as they are, unlinked.
    ///
    /// Every slice that lay [`below`] `si` is then detached, and every other slice but `si` is
    /// left as it was.
    pub fn detach_children(&mut self, si: usize)
        requires
            old(self).wf(),
            si < old(self).slices@.len(),
            old(self).slices@[si as int].inner is Some,
        ensures
            final(self).wf(),
            final(self).slices@.len() == old(self).slices@.len(),
            final(self).mappings@ == old(self).mappings@,
            final(self).slices@[si as int].inner is None,
            forall|j: int| 0 <= j < si ==> #[trigger] final(self).slices@[j] == old(self).slices@[j],
            forall|j: int|
                0 <= j < old(self).slices@.len() ==> (#[trigger] final(self).slices@[j]).start
                    == old(self).slices@[j].start && final(self).slices@[j].page_count == old(self).slices@[j].page_count,
            forall|j: usize| #[trigger] below(*old(self), si, j) ==> final(self).slices@[j as int].inner is None,
            forall|j: usize|
                j < old(self).slices@.len() && j != si && !below(*old(self), si, j)
                    ==> #[trigger] final(self).slices@[j as int] == old(self).slices@[j as int],
        decreases old(self).slices@.len() - si,
    {
        let ghost old_self = *self;
        let ghost nodes = self.slices@[si as int].inner->Some_0.children@;
        let ghost mut n: int = 0;
        proof {
            assert(nodes.subrange(0, nodes.len() as int) =~= nodes);
        }
        loop
            invariant
                self.wf(),
                old_self.wf(),
                si < self.slices@.len(),
                old_self == *old(self),
                self.slices@.len() == old_self.slices@.len(),
                self.mappings@ == old_self.mappings@,
                self.slices@[si as int].inner is Some,
                forall|j: int| 0 <= j < si ==> #[trigger] self.slices@[j] == old_self.slices@[j],
                forall|j: int|
                    0 <= j < old_self.slices@.len() ==> (#[trigger] self.slices@[j]).start
                        == old_self.slices@[j].start && self.slices@[j].page_count
                        == old_self.slices@[j].page_count,
                old_self.slices@[si as int].inner matches Some(inner0) && nodes == inner0.children@,
                0 <= n <= nodes.len(),
                self.slices@[si as int].inner matches Some(inner) && inner.children@ == nodes.subrange(
                    n,
                    nodes.len() as int,
                ),
                forall|k: usize|
                    k < old_self.slices@.len() && k != si && under_first(old_self, nodes, n, k)
                        ==> (#[trigger] self.slices@[k as int]).inner is None,
                forall|k: usize|
                    k < old_self.slices@.len() && k != si && !under_first(old_self, nodes, n, k)
                        ==> #[trigger] self.slices@[k as int] == old_self.slices@[k as int],
            ensures
                n == nodes.len(),
            decreases self.slices@[si as int].inner->Some_0.children@.len(),
        {
            let count = match &self.slices[si].inner {
                Some(inner) => inner.children.len(),
                None => 0,
            };
            if count == 0 {
                break;
            }
            let ghost before = *self;
            let node = self.unlink_child(si, 0);
            let ghost b1 = *self;
            proof {
                assert(node == nodes[n]);
                assert(b1.slices@[si as int].inner->Some_0.children@ =~= nodes.subrange(n + 1, nodes.len() as int));
            }
            if let SliceChild::Subslice(j) = node.data {
                proof {
                    assert(before.slice_wf(si as int));
                    assert(before.node_ok(si as int, node));
                }
                let attached = self.slices[j].inner.is_some();
                if attached {
                    assert(si < j < old(self).slices@.len());
                    self.detach_children(j);
                    proof {
                        assert(!under_first(old_self, nodes, n, j));
                        assert forall|k: usize|
                            k < old_self.slices@.len() && k != si && under_first(old_self, nodes, n + 1, k)
                                implies (#[trigger] self.slices@[k as int]).inner is None by {
                            if !under_first(old_self, nodes, n, k) && k != j {
                                let i = choose|i: int|
                                    0 <= i < n + 1 && ((#[trigger] nodes[i]).data matches SliceChild::Subslice(c) && (
                                    c == k || below(old_self, c, k)));
                                assert(i == n);
                                let m = choose|m: nat| m > 0 && #[trigger] reaches(old_self, j, k, m);
                                lemma_reaches_kept(old_self, b1, si, n, j, k, m);
                                assert(below(b1, j, k));
                            }
                        }
                        assert forall|k: usize|
                            k < old_self.slices@.len() && k != si && !under_first(old_self, nodes, n + 1, k)
                                implies #[trigger] self.slices@[k as int] == old_self.slices@[k as int] by {
                            assert(!under_first(old_self, nodes, n, k));
                            assert(k != j);
                            if below(b1, j, k) {
                                let m = choose|m: nat| m > 0 && #[trigger] reaches(b1, j, k, m);
                                lemma_reaches_fewer(old_self, b1, si, n, n + 1, j, k, m);
                                assert(below(old_self, j, k));
                            }
                        }
                    }
                } else {
                    proof {
                        assert forall|k: usize|
                            k < old_self.slices@.len() && k != si && under_first(old_self, nodes, n + 1, k)
                                implies (#[trigger] self.slices@[k as int]).inner is None by {
                            if !under_first(old_self, nodes, n, k) && k != j {
                                let i = choose|i: int|
                                    0 <= i < n + 1 && ((#[trigger] nodes[i]).data matches SliceChild::Subslice(c) && (
                                    c == k || below(old_self, c, k)));
                                assert(i == n);
                                let m = choose|m: nat| m > 0 && #[trigger] reaches(old_self, j, k, m);
                                if under_first(old_self, nodes, n, j) {
                                    lemma_under_first_closed(old_self, nodes, n, j, k, m);
                                } else {
                                    assert(self.slices@[j as int] == old_self.slices@[j as int]);
                                    let y = choose|y: usize| #[trigger] child_of(old_self, j, y) && reaches(
                                        old_self,
                                        y,
                                        k,
                                        (m - 1) as nat,
                                    );
                                }
                            }
                        }
                        assert forall|k: usize|
                            k < old_self.slices@.len() && k != si && !under_first(old_self, nodes, n + 1, k)
                                implies #[trigger] self.slices@[k as int] == old_self.slices@[k as int] by {
                            assert(!under_first(old_self, nodes, n, k));
                        }
                    }
                }
            } else {
                proof {
                    assert forall|k: usize| under_first(old_self, nodes, n + 1, k) implies #[trigger] under_first(
                        old_self,
                        nodes,
                        n,
                        k,
                    ) by {
                        let i = choose|i: int|
                            0 <= i < n + 1 && ((#[trigger] nodes[i]).data matches SliceChild::Subslice(c) && (c == k
                                || below(old_self, c, k)));
                        assert(i != n);
                    }
                }
            }
            proof {
                assert forall|k: usize| under_first(old_self, nodes, n, k) implies #[trigger] under_first(
                    old_self,
                    nodes,
                    n + 1,
                    k,
                ) by {
                    let i = choose|i: int|
                        0 <= i < n && ((#[trigger] nodes[i]).data matches SliceChild::Subslice(c) && (c == k
                            || below(old_self, c, k)));
                }
                n = n + 1;
            }
        }
        proof {
            let len = nodes.len() as int;
            assert forall|k: usize| #[trigger] below(old_self, si, k) implies under_first(old_self, nodes, len, k) && si < k < old_self.slices@.len() by {
                let m = choose|m: nat| m > 0 && #[trigger] reaches(old_self, si, k, m);
                lemma_reaches_after(old_self, si, k, m);
                let y = choose|y: usize| #[trigger] child_of(old_self, si, y) && reaches(old_self, y, k, (m - 1) as nat);
                let inner0 = old_self.slices@[si as int].inner->Some_0;
                let i = choose|i: int| 0 <= i < inner0.children@.len() && #[trigger] inner0.children@[i].data == SliceChild::Subslice(y);
                if m > 1 {
                    assert(below(old_self, y, k));
                } else {
                    assert(y == k);
                }
                assert(nodes[i].data == SliceChild::Subslice(y));
                assert(0 <= i < len);
                assert((nodes[i]).data matches SliceChild::Subslice(c) && (c == k || below(old_self, c, k)));
                lemma_reaches_after(old_self, y, k, (m - 1) as nat);
                lemma_child_after(old_self, si, y);
            }
            assert forall|k: usize| #[trigger] under_first(old_self, nodes, n, k) implies below(old_self, si, k) by {
                let i = choose|i: int|
                    0 <= i < n && ((#[trigger] nodes[i]).data matches SliceChild::Subslice(c) && (c == k
                        || below(old_self, c, k)));
                let c = nodes[i].data->Subslice_0;
                assert(child_of(old_self, si, c));
                assert(reaches(old_self, c, c, 0));
                assert(reaches(old_self, si, c, 1));
                if c != k {
                    let m = choose|m: nat| m > 0 && #[trigger] reaches(old_self, c, k, m);
                    lemma_reaches_trans(old_self, si, c, k, 1, m);
                }
            }
        }
        let ghost before = *self;
        let mut slice = Slice::new(None, &[], VirtPageNum::new(0), 0);
        core::mem::swap(&mut slice, &mut self.slices[si]);
        slice.inner = None;
        core::mem::swap(&mut slice, &mut self.slices[si]);
        proof {
            assert forall|j: int| 0 <= j < self.slices@.len() implies #[trigger] self.slice_wf(j) by {
                assert(before.slice_wf(j));
                if j != si {
                    assert(self.slices@[j] == before.slices@[j]);
                    if let Some(ji) = self.slices@[j].inner {
                        assert forall|i: int| 0 <= i < ji.children@.len() implies self.node_ok(
                            j,
                            #[trigger] ji.children@[i],
                        ) by {
                            assert(before.node_ok(j, ji.children@[i]));
                        }
                    }
                }
            }
        }
    }
}

} // verus!
