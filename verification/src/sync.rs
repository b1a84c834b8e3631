//! Synchronization bookkeeping shared by the host and the device.
//!
//! Buffers must not be accessed mutably by the host and the device at the
//! same time.  The types here name the possible access states of a tracked
//! range and the conflicts that a refused access reports.

use vstd::prelude::*;
use vstd::pervasive::unreached;

verus! {

/// Declares in which queue(s) a resource can be used.
///
/// When you create a buffer or an image, you have to tell the Vulkan library
/// in which queue families it will be used.
#[derive(Debug, Clone, PartialEq, Eq)]
pub enum SharingMode {
    /// The resource is used in only one queue family.
    Exclusive,
    /// The resource is used in multiple queue families. Can be slower than
    /// `Exclusive`.
    Concurrent(Vec<u32>),
}

/// Declares in which queue(s) a resource can be used.
///
/// The parameter is the collection that carries the queue family indices of
/// the `Concurrent` variant.
#[derive(Debug, Clone, PartialEq, Eq, Hash)]
pub enum Sharing<I> {
    /// The resource is used in only one queue family.
    Exclusive,
    /// The resource is used in multiple queue families. Can be slower than
    /// `Exclusive`.
    Concurrent(I),
}

impl<I> Sharing<I> {
    /// Returns `true` if `self` is the `Exclusive` variant.
    pub fn is_exclusive(&self) -> (r: bool)
        ensures
            r == (self is Exclusive),
    {
        matches!(self, Self::Exclusive)
    }

    /// Returns `true` if `self` is the `Concurrent` variant.
    pub fn is_concurrent(&self) -> (r: bool)
        ensures
            r == (self is Concurrent),
    {
        matches!(self, Self::Concurrent(..))
    }
}

/// How the memory of a resource is currently being accessed.
#[derive(Clone, Copy, Debug, PartialEq, Eq, Structural)]
pub enum CurrentAccess {
    /// The resource is currently being accessed exclusively by the CPU.
    CpuExclusive,
    /// The resource is currently being accessed exclusively by the GPU.
    /// The GPU can have multiple exclusive accesses, if they are separated
    /// by synchronization.
    ///
    /// `gpu_writes` must not be 0. If it's decremented to 0, switch to
    /// `Shared`.
    GpuExclusive { gpu_reads: usize, gpu_writes: usize },
    /// The resource is not currently being accessed, or is being accessed
    /// for reading only.
    Shared { cpu_reads: usize, gpu_reads: usize },
}

/// The conflict that blocks a host read of a byte in state `a`, if any: a
/// host read is refused only while a host or device write is in flight.
pub open spec fn cpu_read_conflict(a: CurrentAccess) -> Option<AccessConflict> {
    match a {
        CurrentAccess::CpuExclusive => Some(AccessConflict::HostWrite),
        CurrentAccess::GpuExclusive { .. } => Some(AccessConflict::DeviceWrite),
        CurrentAccess::Shared { .. } => None,
    }
}

/// The conflict that blocks a host write of a byte in state `a`, if any: a
/// host write needs the rest state, with no reader or writer on either side.
pub open spec fn cpu_write_conflict(a: CurrentAccess) -> Option<AccessConflict> {
    match a {
        CurrentAccess::CpuExclusive => Some(AccessConflict::HostWrite),
        CurrentAccess::GpuExclusive { .. } => Some(AccessConflict::DeviceWrite),
        CurrentAccess::Shared { cpu_reads, gpu_reads } => if cpu_reads == 0 && gpu_reads == 0 {
            None
        } else if cpu_reads > 0 {
            Some(AccessConflict::HostRead)
        } else {
            Some(AccessConflict::DeviceRead)
        },
    }
}

/// Whether the device may read a byte in state `a`: any shared state will
/// do, since device-side ordering is delegated to fences and semaphores.
pub open spec fn gpu_read_allowed(a: CurrentAccess) -> bool {
    a is Shared
}

/// Whether the device may begin writing a byte in state `a`: only the rest
/// state qualifies.
pub open spec fn gpu_write_allowed(a: CurrentAccess) -> bool {
    a == (CurrentAccess::Shared { cpu_reads: 0usize, gpu_reads: 0usize })
}

/// Whether one more host read lock fits state `a`: it must be shared, with
/// room left in the counter.
pub open spec fn cpu_read_lockable(a: CurrentAccess) -> bool {
    match a {
        CurrentAccess::Shared { cpu_reads, .. } => cpu_reads < usize::MAX,
        _ => false,
    }
}

/// The state after one more host read lock.
pub open spec fn cpu_read_inc(a: CurrentAccess) -> CurrentAccess {
    match a {
        CurrentAccess::Shared { cpu_reads, gpu_reads } => CurrentAccess::Shared {
            cpu_reads: (cpu_reads + 1) as usize,
            gpu_reads,
        },
        _ => a,
    }
}

/// Whether a host read lock is outstanding in state `a`, so that one unlock
/// is well paired.
pub open spec fn cpu_read_unlockable(a: CurrentAccess) -> bool {
    match a {
        CurrentAccess::Shared { cpu_reads, .. } => cpu_reads >= 1,
        _ => false,
    }
}

/// The state after releasing one host read lock.
pub open spec fn cpu_read_dec(a: CurrentAccess) -> CurrentAccess {
    match a {
        CurrentAccess::Shared { cpu_reads, gpu_reads } => CurrentAccess::Shared {
            cpu_reads: (cpu_reads - 1) as usize,
            gpu_reads,
        },
        _ => a,
    }
}

/// Whether a host write lock may be taken in state `a`.
pub open spec fn cpu_write_lockable(a: CurrentAccess) -> bool {
    cpu_write_conflict(a) is None
}

/// Whether a host write lock is outstanding in state `a`.
pub open spec fn cpu_write_unlockable(a: CurrentAccess) -> bool {
    a is CpuExclusive
}

/// Whether one more device read lock fits state `a`: anything but a host
/// write, with room left in the counter.
pub open spec fn gpu_read_lockable(a: CurrentAccess) -> bool {
    match a {
        CurrentAccess::CpuExclusive => false,
        CurrentAccess::GpuExclusive { gpu_reads, .. } => gpu_reads < usize::MAX,
        CurrentAccess::Shared { gpu_reads, .. } => gpu_reads < usize::MAX,
    }
}

/// The state after one more device read lock: the device read counter of
/// either a shared or a device-exclusive state grows by one.
pub open spec fn gpu_read_inc(a: CurrentAccess) -> CurrentAccess {
    match a {
        CurrentAccess::CpuExclusive => a,
        CurrentAccess::GpuExclusive { gpu_reads, gpu_writes } => CurrentAccess::GpuExclusive {
            gpu_reads: (gpu_reads + 1) as usize,
            gpu_writes,
        },
        CurrentAccess::Shared { cpu_reads, gpu_reads } => CurrentAccess::Shared {
            cpu_reads,
            gpu_reads: (gpu_reads + 1) as usize,
        },
    }
}

/// Whether a device read lock is outstanding in state `a`.
pub open spec fn gpu_read_unlockable(a: CurrentAccess) -> bool {
    match a {
        CurrentAccess::CpuExclusive => false,
        CurrentAccess::GpuExclusive { gpu_reads, .. } => gpu_reads >= 1,
        CurrentAccess::Shared { gpu_reads, .. } => gpu_reads >= 1,
    }
}

/// The state after releasing one device read lock.
pub open spec fn gpu_read_dec(a: CurrentAccess) -> CurrentAccess {
    match a {
        CurrentAccess::CpuExclusive => a,
        CurrentAccess::GpuExclusive { gpu_reads, gpu_writes } => CurrentAccess::GpuExclusive {
            gpu_reads: (gpu_reads - 1) as usize,
            gpu_writes,
        },
        CurrentAccess::Shared { cpu_reads, gpu_reads } => CurrentAccess::Shared {
            cpu_reads,
            gpu_reads: (gpu_reads - 1) as usize,
        },
    }
}

/// Whether one more device write lock fits state `a`: either the device
/// already holds the range exclusively, or the range is shared with no host
/// readers.
pub open spec fn gpu_write_lockable(a: CurrentAccess) -> bool {
    match a {
        CurrentAccess::CpuExclusive => false,
        CurrentAccess::GpuExclusive { gpu_writes, .. } => gpu_writes < usize::MAX,
        CurrentAccess::Shared { cpu_reads, .. } => cpu_reads == 0,
    }
}

/// The state after one more device write lock: a shared state with no host
/// readers upgrades to device-exclusive, keeping its reader count; a
/// device-exclusive state counts one more writer.
pub open spec fn gpu_write_inc(a: CurrentAccess) -> CurrentAccess {
    match a {
        CurrentAccess::CpuExclusive => a,
        CurrentAccess::GpuExclusive { gpu_reads, gpu_writes } => CurrentAccess::GpuExclusive {
            gpu_reads,
            gpu_writes: (gpu_writes + 1) as usize,
        },
        CurrentAccess::Shared { gpu_reads, .. } => CurrentAccess::GpuExclusive {
            gpu_reads,
            gpu_writes: 1usize,
        },
    }
}

/// Whether a device write lock is outstanding in state `a`.
pub open spec fn gpu_write_unlockable(a: CurrentAccess) -> bool {
    match a {
        CurrentAccess::GpuExclusive { gpu_writes, .. } => gpu_writes >= 1,
        _ => false,
    }
}

/// The state after releasing one device write lock: when the last writer
/// leaves, the state downgrades to shared, keeping its device reader count.
pub open spec fn gpu_write_dec(a: CurrentAccess) -> CurrentAccess {
    match a {
        CurrentAccess::GpuExclusive { gpu_reads, gpu_writes } => if gpu_writes == 1 {
            CurrentAccess::Shared { cpu_reads: 0usize, gpu_reads }
        } else {
            CurrentAccess::GpuExclusive { gpu_reads, gpu_writes: (gpu_writes - 1) as usize }
        },
        _ => a,
    }
}

/// A device-exclusive state records at least one write lock; every state
/// the tracker ever stores satisfies this.
pub open spec fn gpu_writes_positive(a: CurrentAccess) -> bool {
    match a {
        CurrentAccess::GpuExclusive { gpu_writes, .. } => gpu_writes >= 1,
        _ => true,
    }
}

/// Conflict when attempting to access a resource.
#[derive(Clone, Debug, PartialEq, Eq, Structural)]
pub enum AccessConflict {
    /// The resource is already locked for reading by the host (CPU).
    HostRead,
    /// The resource is already locked for writing by the host (CPU).
    HostWrite,
    /// The resource is already locked for reading by the device (GPU).
    DeviceRead,
    /// The resource is already locked for writing by the device (GPU).
    DeviceWrite,
}

impl AccessConflict {
    /// A human-readable description of the conflict.
    pub fn message(&self) -> (s: String)
        ensures
            s@ == (match self {
                AccessConflict::HostRead => "the resource is already locked for reading by the host (CPU)"@,
                AccessConflict::HostWrite => "the resource is already locked for writing by the host (CPU)"@,
                AccessConflict::DeviceRead => "the resource is already locked for reading by the device (GPU)"@,
                AccessConflict::DeviceWrite => "the resource is already locked for writing by the device (GPU)"@,
            }),
    {
        match self {
            AccessConflict::HostRead => "the resource is already locked for reading by the host (CPU)".to_owned(),
            AccessConflict::HostWrite => "the resource is already locked for writing by the host (CPU)".to_owned(),
            AccessConflict::DeviceRead => "the resource is already locked for reading by the device (GPU)".to_owned(),
            AccessConflict::DeviceWrite => "the resource is already locked for writing by the device (GPU)".to_owned(),
        }
    }
}

/// Error when attempting to read or write a resource from the host (CPU).
#[derive(Clone, Debug, PartialEq, Eq)]
pub enum HostAccessError {
    /// The resource is already in use in a conflicting way.
    AccessConflict(AccessConflict),
    /// Invalidating the device memory failed.
    Invalidate,
    /// The resource is not managed by this library.
    Unmanaged,
    /// The device memory is not currently host-mapped.
    NotHostMapped,
    /// The requested range is not within the currently mapped range of
    /// device memory.
    OutOfMappedRange,
}

impl HostAccessError {
    /// A human-readable description of the error.
    pub fn message(&self) -> (s: String)
        ensures
            s@ == (match self {
                HostAccessError::AccessConflict(_) => "the resource is already in use in a conflicting way"@,
                HostAccessError::Invalidate => "invalidating the device memory failed"@,
                HostAccessError::Unmanaged => "the resource is not managed by vulkano"@,
                HostAccessError::NotHostMapped => "the device memory is not current host-mapped"@,
                HostAccessError::OutOfMappedRange => "the requested range is not within the currently mapped range of device memory"@,
            }),
    {
        match self {
            HostAccessError::AccessConflict(_) => "the resource is already in use in a conflicting way".to_owned(),
            HostAccessError::Invalidate => "invalidating the device memory failed".to_owned(),
            HostAccessError::Unmanaged => "the resource is not managed by vulkano".to_owned(),
            HostAccessError::NotHostMapped => "the device memory is not current host-mapped".to_owned(),
            HostAccessError::OutOfMappedRange => "the requested range is not within the currently mapped range of device memory".to_owned(),
        }
    }
}

/// Error when the device attempts an access that the tracker refuses.
#[derive(Clone, Debug, PartialEq, Eq, Structural)]
pub enum AccessError {
    /// The resource is already in use, and there is no tracking of
    /// concurrent usages.
    AlreadyInUse,
}

pub(crate) fn apply_cpu_read_lock(a: CurrentAccess) -> (r: CurrentAccess)
    requires
        cpu_read_lockable(a),
    ensures
        r == cpu_read_inc(a),
{
    match a {
        CurrentAccess::Shared { cpu_reads, gpu_reads } => CurrentAccess::Shared {
            cpu_reads: cpu_reads + 1,
            gpu_reads,
        },
        _ => unreached(),
    }
}

pub(crate) fn apply_cpu_read_unlock(a: CurrentAccess) -> (r: CurrentAccess)
    requires
        cpu_read_unlockable(a),
    ensures
        r == cpu_read_dec(a),
{
    match a {
        CurrentAccess::Shared { cpu_reads, gpu_reads } => CurrentAccess::Shared {
            cpu_reads: cpu_reads - 1,
            gpu_reads,
        },
        _ => unreached(),
    }
}

pub(crate) fn apply_cpu_write_lock(a: CurrentAccess) -> (r: CurrentAccess)
    requires
        cpu_write_lockable(a),
    ensures
        r == CurrentAccess::CpuExclusive,
{
    let _ = a;
    CurrentAccess::CpuExclusive
}

pub(crate) fn apply_cpu_write_unlock(a: CurrentAccess) -> (r: CurrentAccess)
    requires
        cpu_write_unlockable(a),
    ensures
        r == (CurrentAccess::Shared { cpu_reads: 0usize, gpu_reads: 0usize }),
{
    match a {
        CurrentAccess::CpuExclusive => CurrentAccess::Shared { cpu_reads: 0, gpu_reads: 0 },
        _ => unreached(),
    }
}

pub(crate) fn apply_gpu_read_lock(a: CurrentAccess) -> (r: CurrentAccess)
    requires
        gpu_read_lockable(a),
    ensures
        r == gpu_read_inc(a),
{
    match a {
        CurrentAccess::GpuExclusive { gpu_reads, gpu_writes } => CurrentAccess::GpuExclusive {
            gpu_reads: gpu_reads + 1,
            gpu_writes,
        },
        CurrentAccess::Shared { cpu_reads, gpu_reads } => CurrentAccess::Shared {
            cpu_reads,
            gpu_reads: gpu_reads + 1,
        },
        _ => unreached(),
    }
}

pub(crate) fn apply_gpu_read_unlock(a: CurrentAccess) -> (r: CurrentAccess)
    requires
        gpu_read_unlockable(a),
    ensures
        r == gpu_read_dec(a),
{
    match a {
        CurrentAccess::GpuExclusive { gpu_reads, gpu_writes } => CurrentAccess::GpuExclusive {
            gpu_reads: gpu_reads - 1,
            gpu_writes,
        },
        CurrentAccess::Shared { cpu_reads, gpu_reads } => CurrentAccess::Shared {
            cpu_reads,
            gpu_reads: gpu_reads - 1,
        },
        _ => unreached(),
    }
}

pub(crate) fn apply_gpu_write_lock(a: CurrentAccess) -> (r: CurrentAccess)
    requires
        gpu_write_lockable(a),
    ensures
        r == gpu_write_inc(a),
{
    match a {
        CurrentAccess::GpuExclusive { gpu_reads, gpu_writes } => CurrentAccess::GpuExclusive {
            gpu_reads,
            gpu_writes: gpu_writes + 1,
        },
        CurrentAccess::Shared { cpu_reads: _, gpu_reads } => CurrentAccess::GpuExclusive {
            gpu_reads,
            gpu_writes: 1,
        },
        _ => unreached(),
    }
}

pub(crate) fn apply_gpu_write_unlock(a: CurrentAccess) -> (r: CurrentAccess)
    requires
        gpu_write_unlockable(a),
    ensures
        r == gpu_write_dec(a),
{
    match a {
        CurrentAccess::GpuExclusive { gpu_reads, gpu_writes } => if gpu_writes == 1 {
            CurrentAccess::Shared { cpu_reads: 0, gpu_reads }
        } else {
            CurrentAccess::GpuExclusive { gpu_reads, gpu_writes: gpu_writes - 1 }
        },
        _ => unreached(),
    }
}

/// The state after `n` device read lock transitions.
pub open spec fn gpu_read_inc_n(a: CurrentAccess, n: nat) -> CurrentAccess
    decreases n,
{
    if n == 0 {
        a
    } else {
        gpu_read_inc(gpu_read_inc_n(a, (n - 1) as nat))
    }
}

/// The state after `n` device read unlock transitions.
pub open spec fn gpu_read_dec_n(a: CurrentAccess, n: nat) -> CurrentAccess
    decreases n,
{
    if n == 0 {
        a
    } else {
        gpu_read_dec_n(gpu_read_dec(a), (n - 1) as nat)
    }
}

/// Device read locks count: after `i` of `n` concurrent device read locks
/// on a shared state, the device read count has grown by exactly `i`, and
/// every intermediate state is still shared.
pub proof fn lemma_gpu_read_counts(h: usize, d: usize, n: nat)
    requires
        d + n <= usize::MAX,
    ensures
        forall|i: nat|
            i <= n ==> #[trigger] gpu_read_inc_n(
                CurrentAccess::Shared { cpu_reads: h, gpu_reads: d },
                i,
            ) == (CurrentAccess::Shared { cpu_reads: h, gpu_reads: (d + i) as usize }),
    decreases n,
{
    let a = CurrentAccess::Shared { cpu_reads: h, gpu_reads: d };
    if n > 0 {
        lemma_gpu_read_counts(h, d, (n - 1) as nat);
        assert forall|i: nat| i <= n implies #[trigger] gpu_read_inc_n(a, i)
            == (CurrentAccess::Shared { cpu_reads: h, gpu_reads: (d + i) as usize }) by {
            if i == n {
                assert(gpu_read_inc_n(a, (n - 1) as nat) == (CurrentAccess::Shared {
                    cpu_reads: h,
                    gpu_reads: (d + n - 1) as usize,
                }));
            }
        }
    }
}

/// Reader counting: `n` device read locks on a shared state followed by `n`
/// matching unlocks return it to exactly where it began.
pub proof fn lemma_gpu_read_lock_unlock_n(h: usize, d: usize, n: nat)
    requires
        d + n <= usize::MAX,
    ensures
        gpu_read_dec_n(
            gpu_read_inc_n(CurrentAccess::Shared { cpu_reads: h, gpu_reads: d }, n),
            n,
        ) == (CurrentAccess::Shared { cpu_reads: h, gpu_reads: d }),
    decreases n,
{
    let a = CurrentAccess::Shared { cpu_reads: h, gpu_reads: d };
    if n > 0 {
        lemma_gpu_read_counts(h, d, n);
        lemma_gpu_read_counts(h, d, (n - 1) as nat);
        assert(gpu_read_dec(gpu_read_inc_n(a, n)) == gpu_read_inc_n(a, (n - 1) as nat));
        assert(gpu_read_dec_n(gpu_read_inc_n(a, n), n) == gpu_read_dec_n(
            gpu_read_inc_n(a, (n - 1) as nat),
            (n - 1) as nat,
        )) by {
            lemma_gpu_read_dec_n_unfold(gpu_read_inc_n(a, n), n);
        }
        lemma_gpu_read_lock_unlock_n(h, d, (n - 1) as nat);
    }
}

proof fn lemma_gpu_read_dec_n_unfold(a: CurrentAccess, n: nat)
    requires
        n > 0,
    ensures
        gpu_read_dec_n(a, n) == gpu_read_dec_n(gpu_read_dec(a), (n - 1) as nat),
{
}

/// Exclusivity upgrade and downgrade: a device write lock on a shared state
/// with `r` device readers yields a device-exclusive state with one write;
/// a second lock counts a second write; the matching unlocks step back down
/// and the last one restores the shared state with its readers intact.
pub proof fn lemma_gpu_write_upgrade_downgrade(r: usize)
    ensures
        gpu_write_inc(CurrentAccess::Shared { cpu_reads: 0usize, gpu_reads: r })
            == (CurrentAccess::GpuExclusive { gpu_reads: r, gpu_writes: 1usize }),
        gpu_write_inc(CurrentAccess::GpuExclusive { gpu_reads: r, gpu_writes: 1usize })
            == (CurrentAccess::GpuExclusive { gpu_reads: r, gpu_writes: 2usize }),
        gpu_write_dec(CurrentAccess::GpuExclusive { gpu_reads: r, gpu_writes: 2usize })
            == (CurrentAccess::GpuExclusive { gpu_reads: r, gpu_writes: 1usize }),
        gpu_write_dec(CurrentAccess::GpuExclusive { gpu_reads: r, gpu_writes: 1usize })
            == (CurrentAccess::Shared { cpu_reads: 0usize, gpu_reads: r }),
{
}

} // verus!
