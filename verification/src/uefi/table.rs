//! Decisions on and decoding of what the boot services return: memory map sizes, memory maps,
//! page allocation requests, and exiting boot services.
use vstd::prelude::*;
use super::status::{Result, Status, BUFFER_TOO_SMALL, INVALID_PARAMETER};
use super::types::{
    descriptor_at, spec_descriptor_at, MemoryDescriptor, MemoryMapKey, MEMORY_DESCRIPTOR_SIZE,
};

verus! {

/// Where pages may be allocated.
#[derive(Clone, Copy, Debug, PartialEq, Eq, Structural)]
pub enum AllocMode {
    /// Anywhere.
    Any,
    /// Below the given address.
    Below(u64),
    /// At the given address.
    At(u64),
}

/// The allocation type that the firmware's page allocator takes.
#[derive(Clone, Copy, Debug, PartialEq, Eq, Structural)]
pub enum AllocModeAbi {
    AnyPages,
    MaxAddress,
    Address,
}

impl AllocMode {
    /// The allocation type and address argument that request pages in this mode.
    pub fn to_abi(self) -> (r: (AllocModeAbi, u64))
        ensures
            r == match self {
                AllocMode::Any => (AllocModeAbi::AnyPages, 0u64),
                AllocMode::Below(a) => (AllocModeAbi::MaxAddress, a),
                AllocMode::At(a) => (AllocModeAbi::Address, a),
            },
    {
        match self {
            AllocMode::Any => (AllocModeAbi::AnyPages, 0),
            AllocMode::Below(addr) => (AllocModeAbi::MaxAddress, addr),
            AllocMode::At(addr) => (AllocModeAbi::Address, addr),
        }
    }
}

/// The size of the memory map, from the status and size that the firmware returned when asked
/// for the map with no buffer: the firmware is expected to report that the buffer is too small.
///
/// Errors: any other error status.
pub fn memory_map_size_from(status: Status, size: usize) -> (r: Result<usize>)
    ensures
        status.0 != BUFFER_TOO_SMALL && status.spec_is_err() ==> r == Err::<usize, Status>(status),
        !(status.0 != BUFFER_TOO_SMALL && status.spec_is_err()) ==> r == Ok::<usize, Status>(size),
{
    if status.0 != BUFFER_TOO_SMALL {
        status.to_result()?;
    }
    Ok(size)
}

/// The descriptors held in the first `size` bytes of `buf`, one every `desc_size` bytes.
pub open spec fn spec_memory_map(buf: Seq<u8>, size: int, desc_size: int) -> Seq<MemoryDescriptor> {
    Seq::new((size / desc_size) as nat, |k: int| spec_descriptor_at(buf, k * desc_size))
}

/// Decodes the memory map that the firmware wrote into the first `size` bytes of `buf`: one
/// descriptor every `desc_size` bytes, each laid out at the start of its stride.
pub fn parse_memory_map(buf: &[u8], size: usize, desc_size: usize) -> (r: Vec<MemoryDescriptor>)
    requires
        size <= buf@.len(),
        desc_size >= MEMORY_DESCRIPTOR_SIZE,
        size % desc_size == 0,
    ensures
        r@ == spec_memory_map(buf@, size as int, desc_size as int),
{
    let mut descs: Vec<MemoryDescriptor> = Vec::new();
    let mut off: usize = 0;
    let count = size / desc_size;
    let mut k: usize = 0;
    proof {
        vstd::arithmetic::div_mod::lemma_fundamental_div_mod(size as int, desc_size as int);
        assert(count * desc_size == size) by (nonlinear_arith)
            requires
                size == desc_size * (size / desc_size) + size % desc_size,
                size % desc_size == 0,
                count == size / desc_size;
    }
    while k < count
        invariant
            size <= buf@.len(),
            desc_size >= 40,
            count == size / desc_size,
            count * desc_size == size,
            k <= count,
            off == k * desc_size,
            descs@ == spec_memory_map(buf@, size as int, desc_size as int).take(k as int),
        decreases count - k,
    {
        proof {
            assert((k + 1) * desc_size <= count * desc_size) by (nonlinear_arith)
                requires k + 1 <= count;
            assert(k * desc_size + desc_size == (k + 1) * desc_size) by (nonlinear_arith);
            assert(off + desc_size <= size);
        }
        let d = descriptor_at(buf, off);
        descs.push(d);
        proof {
            assert(descs@ =~= spec_memory_map(buf@, size as int, desc_size as int).take(k + 1));
        }
        off = off + desc_size;
        k = k + 1;
    }
    proof {
        assert(descs@ =~= spec_memory_map(buf@, size as int, desc_size as int));
    }
    descs
}

/// The memory map, from the status, key, size and descriptor size that the firmware returned
/// after writing the map into `buf`.
///
/// Errors: the status, when it is an error.
pub fn memory_map_from(status: Status, key: MemoryMapKey, buf: &[u8], size: usize, desc_size: usize) -> (r:
    Result<(MemoryMapKey, Vec<MemoryDescriptor>)>)
    requires
        !status.spec_is_err() ==> size <= buf@.len() && desc_size >= MEMORY_DESCRIPTOR_SIZE && size
            % desc_size == 0,
    ensures
        status.spec_is_err() ==> r == Err::<(MemoryMapKey, Vec<MemoryDescriptor>), Status>(status),
        !status.spec_is_err() ==> (r matches Ok((k, descs)) && k == key && descs@ == spec_memory_map(
            buf@,
            size as int,
            desc_size as int,
        )),
{
    status.to_result()?;
    Ok((key, parse_memory_map(buf, size, desc_size)))
}

/// Why exiting boot services failed.
#[derive(Clone, Copy, Debug, PartialEq, Eq, Structural)]
pub enum ExitBootServicesError {
    /// The memory map changed since its key was taken: take it again and retry. Only the memory
    /// allocation services can be used meanwhile.
    StaleMemoryMap,
    /// The firmware refused with this status.
    Error(Status),
}

/// How a request to exit boot services went, from the status that the firmware returned.
///
/// Errors: `StaleMemoryMap` when the firmware reports an invalid parameter (the key is stale);
/// `Error` with any other error status.
pub fn exit_boot_services_outcome(status: Status) -> (r: core::result::Result<(), ExitBootServicesError>)
    ensures
        !status.spec_is_err() ==> r is Ok,
        status.spec_is_err() && status.0 == INVALID_PARAMETER ==> r == Err::<(), ExitBootServicesError>(
            ExitBootServicesError::StaleMemoryMap,
        ),
        status.spec_is_err() && status.0 != INVALID_PARAMETER ==> r == Err::<(), ExitBootServicesError>(
            ExitBootServicesError::Error(status),
        ),
{
    match status.to_result() {
        Ok(()) => Ok(()),
        Err(s) => if s.0 == INVALID_PARAMETER {
            Err(ExitBootServicesError::StaleMemoryMap)
        } else {
            Err(ExitBootServicesError::Error(s))
        },
    }
}

/// What to do after asking the firmware to exit boot services.
#[derive(Clone, Copy, Debug, PartialEq, Eq, Structural)]
pub enum ExitStep {
    /// Boot services are gone: the memory map last taken is final.
    Done,
    /// The memory map changed: take it again and ask again.
    Retry,
    /// The firmware refused with this status.
    Fail(Status),
}

/// The step after a request to exit boot services returned `status`: retry while the memory map
/// is stale, stop on success or another error.
pub fn exit_boot_services_step(status: Status) -> (r: ExitStep)
    ensures
        status.0 == INVALID_PARAMETER ==> r == ExitStep::Retry,
        status.0 != INVALID_PARAMETER && status.spec_is_err() ==> r == ExitStep::Fail(status),
        status.0 != INVALID_PARAMETER && !status.spec_is_err() ==> r == ExitStep::Done,
{
    if status.0 == INVALID_PARAMETER {
        return ExitStep::Retry;
    }
    match status.to_result() {
        Ok(()) => ExitStep::Done,
        Err(s) => ExitStep::Fail(s),
    }
}

/// The phase that a system table belongs to.
pub trait TableState {
}

/// Boot services are available.
pub struct BootState;

impl TableState for BootState {
}

/// Only runtime services are left.
pub struct RuntimeState;

impl TableState for RuntimeState {
}

/// What the boot loader keeps of the firmware's system table in phase `S`.
pub struct SystemTable<S: TableState> {
    firmware_revision: u32,
    state: S,
}

/// The system table, under the name the boot loader's firmware interface gives it.
pub type SystemTableHandle<S> = SystemTable<S>;

impl<S: TableState> SystemTable<S> {
    /// The firmware's revision.
    pub closed spec fn spec_firmware_revision(&self) -> u32 {
        self.firmware_revision
    }

    /// The firmware's revision.
    pub fn firmware_revision(&self) -> (r: u32)
        ensures
            r == self.spec_firmware_revision(),
    {
        self.firmware_revision
    }
}

impl SystemTable<BootState> {
    /// The table of a firmware of revision `firmware_revision`, with boot services available.
    pub fn new(firmware_revision: u32) -> (r: Self)
        ensures
            r.spec_firmware_revision() == firmware_revision,
    {
        SystemTable { firmware_revision, state: BootState }
    }

    /// The table once boot services are gone.
    pub fn into_runtime(self) -> (r: SystemTable<RuntimeState>)
        ensures
            r.spec_firmware_revision() == self.spec_firmware_revision(),
    {
        SystemTable { firmware_revision: self.firmware_revision, state: RuntimeState }
    }
}

} // verus!
