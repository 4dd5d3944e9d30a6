//! Strongly typed physical/virtual addresses and page numbers, and access permission flags.
use vstd::prelude::*;
use crate::arch::{PAGE_SHIFT, PAGE_SIZE, PT_LEVEL_MASK, PT_LEVEL_SHIFT};
use crate::num_utils::{align_down, align_up};

verus! {

/// A physical byte address.
#[derive(Clone, Copy, Debug, PartialEq, Eq, Structural)]
pub struct PhysAddr(usize);

/// A virtual byte address.
#[derive(Clone, Copy, Debug, PartialEq, Eq, Structural)]
pub struct VirtAddr(usize);

/// A physical frame number (a physical address divided by the page size).
#[derive(Clone, Copy, Debug, PartialEq, Eq, Structural)]
pub struct PhysFrameNum(usize);

/// A virtual page number (a virtual address divided by the page size).
#[derive(Clone, Copy, Debug, PartialEq, Eq, Structural)]
pub struct VirtPageNum(usize);

impl PhysAddr {
    /// The raw address.
    pub closed spec fn view(self) -> usize {
        self.0
    }

    pub fn new(val: usize) -> (r: Self)
        ensures
            r@ == val,
    {
        Self(val)
    }

    pub fn as_usize(self) -> (r: usize)
        ensures
            r == self@,
    {
        self.0
    }

    pub fn as_u64(self) -> (r: u64)
        ensures
            r == self@,
    {
        self.0 as u64
    }

    /// The frame containing this address.
    pub fn containing_frame(self) -> (r: PhysFrameNum)
        ensures
            r@ == self@ as int / PAGE_SIZE as int,
    {
        proof {
            vstd::bits::lemma_usize_shr_is_div(self.0, 12);
            vstd::arithmetic::power2::lemma2_to64();
        }
        PhysFrameNum::new(self.0 >> PAGE_SHIFT)
    }

    /// The first frame starting at or after this address.
    pub fn containing_tail_frame(self) -> (r: PhysFrameNum)
        requires
            self@ + PAGE_SIZE <= usize::MAX,
        ensures
            r@ == (self@ + PAGE_SIZE - 1) / PAGE_SIZE as int,
    {
        proof {
            vstd::bits::lemma_usize_shr_is_div((self.0 + 4095) as usize, 12);
            vstd::arithmetic::power2::lemma2_to64();
        }
        PhysFrameNum::new((self.0 + PAGE_SIZE - 1) >> PAGE_SHIFT)
    }

    /// The offset of this address within its frame.
    pub fn frame_offset(self) -> (r: usize)
        ensures
            r == self@ % PAGE_SIZE,
    {
        self.0 % PAGE_SIZE
    }

    /// Rounds this address down to a multiple of `align`.
    pub fn align_down(self, align: usize) -> (r: Self)
        requires
            align > 0,
        ensures
            r@ == (self@ / align) * align,
    {
        Self(align_down(self.0, align))
    }

    /// Rounds this address up to a multiple of `align`.
    pub fn align_up(self, align: usize) -> (r: Self)
        requires
            align > 0,
            self@ + align <= usize::MAX,
        ensures
            r@ == ((self@ + align - 1) / align as int) * align,
            r@ >= self@,
            r@ % align == 0,
            r@ - self@ < align,
    {
        Self(align_up(self.0, align))
    }

    /// The address `rhs` bytes above this one.
    pub fn plus(self, rhs: usize) -> (r: Self)
        requires
            self@ + rhs <= usize::MAX,
        ensures
            r@ == self@ + rhs,
    {
        Self(self.0 + rhs)
    }

    /// The address `rhs` bytes below this one.
    pub fn minus(self, rhs: usize) -> (r: Self)
        requires
            self@ >= rhs,
        ensures
            r@ == self@ - rhs,
    {
        Self(self.0 - rhs)
    }

    /// The number of bytes from `base` up to this address.
    pub fn diff(self, base: Self) -> (r: usize)
        requires
            self@ >= base@,
        ensures
            r == self@ - base@,
    {
        self.0 - base.0
    }
}

impl VirtAddr {
    /// The raw address.
    pub closed spec fn view(self) -> usize {
        self.0
    }

    pub fn new(val: usize) -> (r: Self)
        ensures
            r@ == val,
    {
        Self(val)
    }

    pub fn as_usize(self) -> (r: usize)
        ensures
            r == self@,
    {
        self.0
    }

    pub fn as_u64(self) -> (r: u64)
        ensures
            r == self@,
    {
        self.0 as u64
    }

    /// The page containing this address.
    pub fn containing_page(self) -> (r: VirtPageNum)
        ensures
            r@ == self@ as int / PAGE_SIZE as int,
    {
        proof {
            vstd::bits::lemma_usize_shr_is_div(self.0, 12);
            vstd::arithmetic::power2::lemma2_to64();
        }
        VirtPageNum::new(self.0 >> PAGE_SHIFT)
    }

    /// The first page starting at or after this address.
    pub fn containing_tail_page(self) -> (r: VirtPageNum)
        requires
            self@ + PAGE_SIZE <= usize::MAX,
        ensures
            r@ == (self@ + PAGE_SIZE - 1) / PAGE_SIZE as int,
    {
        proof {
            vstd::bits::lemma_usize_shr_is_div((self.0 + 4095) as usize, 12);
            vstd::arithmetic::power2::lemma2_to64();
        }
        VirtPageNum::new((self.0 + PAGE_SIZE - 1) >> PAGE_SHIFT)
    }

    /// The offset of this address within its page.
    pub fn page_offset(self) -> (r: usize)
        ensures
            r == self@ % PAGE_SIZE,
    {
        self.0 % PAGE_SIZE
    }

    /// Rounds this address down to a multiple of `align`.
    pub fn align_down(self, align: usize) -> (r: Self)
        requires
            align > 0,
        ensures
            r@ == (self@ / align) * align,
    {
        Self(align_down(self.0, align))
    }

    /// Rounds this address up to a multiple of `align`.
    pub fn align_up(self, align: usize) -> (r: Self)
        requires
            align > 0,
            self@ + align <= usize::MAX,
        ensures
            r@ == ((self@ + align - 1) / align as int) * align,
            r@ >= self@,
            r@ % align == 0,
            r@ - self@ < align,
    {
        Self(align_up(self.0, align))
    }

    /// The address `rhs` bytes above this one.
    pub fn plus(self, rhs: usize) -> (r: Self)
        requires
            self@ + rhs <= usize::MAX,
        ensures
            r@ == self@ + rhs,
    {
        Self(self.0 + rhs)
    }

    /// The address `rhs` bytes below this one.
    pub fn minus(self, rhs: usize) -> (r: Self)
        requires
            self@ >= rhs,
        ensures
            r@ == self@ - rhs,
    {
        Self(self.0 - rhs)
    }

    /// The number of bytes from `base` up to this address.
    pub fn diff(self, base: Self) -> (r: usize)
        requires
            self@ >= base@,
        ensures
            r == self@ - base@,
    {
        self.0 - base.0
    }
}

impl PhysFrameNum {
    /// The raw frame number.
    pub closed spec fn view(self) -> usize {
        self.0
    }

    /// The frame number `val`.
    pub closed spec fn spec_new(val: usize) -> Self {
        Self(val)
    }

    /// A frame number is determined by its value.
    pub proof fn lemma_spec_new(pfn: Self)
        ensures
            pfn == Self::spec_new(pfn@),
            Self::spec_new(pfn@)@ == pfn@,
    {
    }

    /// The frame number `val` has value `val`.
    pub proof fn lemma_spec_new_view(val: usize)
        ensures
            Self::spec_new(val)@ == val,
    {
    }

    /// Two frame numbers with the same value are equal.
    pub proof fn lemma_view_injective(a: Self, b: Self)
        ensures
            a@ == b@ ==> a == b,
    {
    }

    pub fn new(val: usize) -> (r: Self)
        ensures
            r@ == val,
    {
        Self(val)
    }

    pub fn as_usize(self) -> (r: usize)
        ensures
            r == self@,
    {
        self.0
    }

    pub fn as_u64(self) -> (r: u64)
        ensures
            r == self@,
    {
        self.0 as u64
    }

    /// The physical address of the start of this frame.
    pub fn addr(self) -> (r: PhysAddr)
        requires
            self@ * PAGE_SIZE <= usize::MAX,
        ensures
            r@ == self@ * PAGE_SIZE,
    {
        proof {
            vstd::arithmetic::power2::lemma2_to64();
            vstd::bits::lemma_usize_shl_is_mul(self.0, 12);
        }
        PhysAddr::new(self.0 << PAGE_SHIFT)
    }

    /// Rounds this frame number down to a multiple of `align`.
    pub fn align_down(self, align: usize) -> (r: Self)
        requires
            align > 0,
        ensures
            r@ == (self@ / align) * align,
    {
        Self(align_down(self.0, align))
    }

    /// Rounds this frame number up to a multiple of `align`.
    pub fn align_up(self, align: usize) -> (r: Self)
        requires
            align > 0,
            self@ + align <= usize::MAX,
        ensures
            r@ == ((self@ + align - 1) / align as int) * align,
            r@ >= self@,
            r@ % align == 0,
            r@ - self@ < align,
    {
        Self(align_up(self.0, align))
    }

    /// The frame `rhs` frames above this one.
    pub fn plus(self, rhs: usize) -> (r: Self)
        requires
            self@ + rhs <= usize::MAX,
        ensures
            r@ == self@ + rhs,
    {
        Self(self.0 + rhs)
    }

    /// The frame `rhs` frames below this one.
    pub fn minus(self, rhs: usize) -> (r: Self)
        requires
            self@ >= rhs,
        ensures
            r@ == self@ - rhs,
    {
        Self(self.0 - rhs)
    }

    /// The number of frames from `base` up to this one.
    pub fn diff(self, base: Self) -> (r: usize)
        requires
            self@ >= base@,
        ensures
            r == self@ - base@,
    {
        self.0 - base.0
    }
}

impl VirtPageNum {
    /// The raw page number.
    pub closed spec fn view(self) -> usize {
        self.0
    }

    /// The page number `val`.
    pub closed spec fn spec_new(val: usize) -> Self {
        Self(val)
    }

    /// The page number `val` has value `val`.
    pub proof fn lemma_spec_new_view(val: usize)
        ensures
            Self::spec_new(val)@ == val,
    {
    }

    /// A page number is determined by its value.
    pub proof fn lemma_spec_new(vpn: Self)
        ensures
            vpn == Self::spec_new(vpn@),
            Self::spec_new(vpn@)@ == vpn@,
    {
    }

    pub fn new(val: usize) -> (r: Self)
        ensures
            r@ == val,
    {
        Self(val)
    }

    pub fn as_usize(self) -> (r: usize)
        ensures
            r == self@,
    {
        self.0
    }

    pub fn as_u64(self) -> (r: u64)
        ensures
            r == self@,
    {
        self.0 as u64
    }

    /// The virtual address of the start of this page.
    pub fn addr(self) -> (r: VirtAddr)
        requires
            self@ * PAGE_SIZE <= usize::MAX,
        ensures
            r@ == self@ * PAGE_SIZE,
    {
        proof {
            vstd::arithmetic::power2::lemma2_to64();
            vstd::bits::lemma_usize_shl_is_mul(self.0, 12);
        }
        VirtAddr::new(self.0 << PAGE_SHIFT)
    }

    /// The index of the entry covering this page in a page table at `level`.
    pub fn pt_index(self, level: usize) -> (r: usize)
        requires
            9 * level < usize::BITS,
        ensures
            r == spec_pt_index(self@, level),
            r < 512,
    {
        let shift = PT_LEVEL_SHIFT * level;
        let v = self.0;
        let r = (v >> shift) & PT_LEVEL_MASK;
        assert(r < 512) by (bit_vector)
            requires r == (v >> shift) & 511usize;
        r
    }

    /// Rounds this page number down to a multiple of `align`.
    pub fn align_down(self, align: usize) -> (r: Self)
        requires
            align > 0,
        ensures
            r@ == (self@ / align) * align,
    {
        Self(align_down(self.0, align))
    }

    /// Rounds this page number up to a multiple of `align`.
    pub fn align_up(self, align: usize) -> (r: Self)
        requires
            align > 0,
            self@ + align <= usize::MAX,
        ensures
            r@ == ((self@ + align - 1) / align as int) * align,
            r@ >= self@,
            r@ % align == 0,
            r@ - self@ < align,
    {
        Self(align_up(self.0, align))
    }

    /// The page `rhs` pages above this one.
    pub fn plus(self, rhs: usize) -> (r: Self)
        requires
            self@ + rhs <= usize::MAX,
        ensures
            r@ == self@ + rhs,
    {
        Self(self.0 + rhs)
    }

    /// The page `rhs` pages below this one.
    pub fn minus(self, rhs: usize) -> (r: Self)
        requires
            self@ >= rhs,
        ensures
            r@ == self@ - rhs,
    {
        Self(self.0 - rhs)
    }

    /// The number of pages from `base` up to this one.
    pub fn diff(self, base: Self) -> (r: usize)
        requires
            self@ >= base@,
        ensures
            r == self@ - base@,
    {
        self.0 - base.0
    }
}

/// The index into a page table at `level` of the entry covering page `vpn`.
pub open spec fn spec_pt_index(vpn: usize, level: usize) -> usize {
    (vpn >> (9 * level) as usize) & 511usize
}

/// Permissions granted by a page table mapping.
#[derive(Clone, Copy, Debug, PartialEq, Eq, Structural)]
pub struct PageTablePerms {
    bits: u8,
}

/// Readable mappings.
pub const PERMS_READ: u8 = 0x1;
/// Writable mappings.
pub const PERMS_WRITE: u8 = 0x2;
/// Executable mappings.
pub const PERMS_EXECUTE: u8 = 0x4;
/// Mappings accessible from user mode.
pub const PERMS_USER: u8 = 0x8;
/// Mappings shared by all address spaces.
pub const PERMS_GLOBAL: u8 = 0x10;

impl PageTablePerms {
    /// The raw flag bits.
    pub closed spec fn view(self) -> u8 {
        self.bits
    }

    /// The permission set with raw flag bits `bits`.
    pub closed spec fn spec_from_bits(bits: u8) -> Self {
        Self { bits }
    }

    /// Creates a permission set from raw flag bits.
    pub fn from_bits(bits: u8) -> (r: Self)
        ensures
            r@ == bits,
            r == Self::spec_from_bits(bits),
    {
        Self { bits }
    }

    /// The raw flag bits.
    pub fn bits(self) -> (r: u8)
        ensures
            r == self@,
    {
        self.bits
    }

    /// The empty permission set.
    pub fn empty() -> (r: Self)
        ensures
            r@ == 0,
            r == Self::spec_from_bits(0),
    {
        Self { bits: 0 }
    }

    /// Whether every flag in `flags` is present.
    pub fn contains(self, flags: u8) -> (r: bool)
        ensures
            r == (self@ & flags == flags),
    {
        self.bits & flags == flags
    }

    /// The union of `self` and `flags`.
    pub fn with(self, flags: u8) -> (r: Self)
        ensures
            r@ == self@ | flags,
    {
        Self { bits: self.bits | flags }
    }

    /// Adds `flags` when `value` holds and removes them otherwise.
    pub fn set(&mut self, flags: u8, value: bool)
        ensures
            final(self)@ == (if value {
                old(self)@ | flags
            } else {
                old(self)@ & !flags
            }),
    {
        if value {
            self.bits = self.bits | flags;
        } else {
            self.bits = self.bits & !flags;
        }
    }
}

/// Protection applied to a virtual memory mapping.
#[derive(Clone, Copy, Debug, PartialEq, Eq, Structural)]
pub struct Protection {
    pub read: bool,
    pub write: bool,
    pub execute: bool,
}

/// The kind of memory access that caused a fault or is being requested.
#[derive(Clone, Copy, Debug, PartialEq, Eq, Structural)]
pub enum AccessType {
    Read,
    Write,
    Execute,
}

/// The privilege level from which an address space may be accessed.
#[derive(Clone, Copy, Debug, PartialEq, Eq, Structural)]
pub enum AccessMode {
    User,
    Kernel,
}

/// The caching behavior applied to a mapping.
#[derive(Clone, Copy, Debug, PartialEq, Eq, Structural)]
pub enum CacheMode {
    Cached,
    WriteBack,
    WriteThrough,
    Uncached,
}

} // verus!

verus! {

/// The size and alignment of a memory allocation request.
#[derive(Clone, Copy, Debug, PartialEq, Eq, Structural)]
pub struct Layout {
    size: usize,
    align: usize,
}

/// Whether `n` is a power of two.
pub open spec fn is_power_of_two(n: usize) -> bool {
    n > 0 && n & ((n - 1) as usize) == 0
}

impl Layout {
    /// The requested size in bytes.
    pub closed spec fn spec_size(self) -> usize {
        self.size
    }

    /// The requested alignment in bytes.
    pub closed spec fn spec_align(self) -> usize {
        self.align
    }

    /// Every layout has a power-of-two alignment, and its size rounded up to the alignment fits
    /// in an `isize`.
    pub closed spec fn wf(self) -> bool {
        is_power_of_two(self.align) && self.size + self.align - 1 <= isize::MAX
    }

    /// Creates a layout, failing when `align` is not a power of two or the size rounded up to the
    /// alignment would exceed `isize::MAX`.
    pub fn from_size_align(size: usize, align: usize) -> (r: Option<Self>)
        ensures
            r.is_some() <==> (is_power_of_two(align) && size + align - 1 <= isize::MAX),
            r matches Some(l) ==> l.spec_size() == size && l.spec_align() == align && l.wf(),
    {
        if align == 0 || align & (align - 1) != 0 {
            return None;
        }
        if align - 1 > isize::MAX as usize || size > isize::MAX as usize - (align - 1) {
            return None;
        }
        Some(Layout { size, align })
    }

    /// The requested size in bytes.
    pub fn size(&self) -> (r: usize)
        ensures
            r == self.spec_size(),
    {
        self.size
    }

    /// The requested alignment in bytes.
    pub fn align(&self) -> (r: usize)
        ensures
            r == self.spec_align(),
    {
        self.align
    }

    /// Proves the facts that every layout carries.
    pub proof fn lemma_wf(self)
        requires
            self.wf(),
        ensures
            self.spec_align() > 0,
            self.spec_size() + self.spec_align() <= usize::MAX,
    {
    }
}

} // verus!
