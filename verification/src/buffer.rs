//! Location in memory that contains data, and the tracking of who may
//! touch which of its bytes.
//!
//! The heart of this module is [`BufferState`], the range-based access
//! tracker of a buffer: it partitions the buffer's byte extent into
//! sub-ranges with independently tracked access states, classifies every
//! requested host or device access against the states of the sub-ranges it
//! overlaps, and acquires or releases access locks over arbitrary
//! sub-ranges.

use vstd::prelude::*;
use core::ops::Range;
use crate::range_map::{
    boundary_aligned, entries_wf, lemma_covering_entry, lemma_split_keeps_alignment,
    lemma_val_at_entry, seq_val_at, RangeEntry, RangeMap,
};
use crate::sync::{
    apply_cpu_read_lock, apply_cpu_read_unlock, apply_cpu_write_lock, apply_cpu_write_unlock,
    apply_gpu_read_lock, apply_gpu_read_unlock,
    apply_gpu_write_lock, apply_gpu_write_unlock, cpu_read_conflict, cpu_read_dec, cpu_read_inc,
    cpu_read_lockable, cpu_read_unlockable, cpu_write_conflict, cpu_write_lockable,
    cpu_write_unlockable, gpu_read_allowed, gpu_read_dec, gpu_read_inc, gpu_read_lockable,
    gpu_read_unlockable, gpu_write_allowed, gpu_write_dec, gpu_write_inc, gpu_write_lockable,
    gpu_write_unlockable, gpu_writes_positive, AccessConflict, AccessError, CurrentAccess,
};

verus! {

/// The type used for byte offsets and sizes of device resources.
pub type DeviceSize = u64;

/// The current state of a specific range of bytes in a buffer.
#[derive(Clone, Copy, Debug, PartialEq, Eq, Structural)]
pub(crate) struct BufferRangeState {
    pub(crate) current_access: CurrentAccess,
}

/// The current access state of a buffer: one access state per sub-range of
/// its byte extent, with every byte covered by exactly one sub-range.
#[derive(Debug)]
pub struct BufferState {
    ranges: RangeMap<BufferRangeState>,
}

impl BufferState {
    /// The buffer's size in bytes.
    pub closed spec fn size(self) -> int {
        self.ranges.size()
    }

    /// The access state recorded for the byte at offset `k`.
    pub closed spec fn access_at(self, k: int) -> CurrentAccess {
        self.ranges.val_at(k).current_access
    }

    /// The tracker is well formed: its sub-ranges partition `[0, size)`,
    /// and every device-exclusive state records at least one write lock.
    pub closed spec fn wf(self) -> bool {
        &&& self.ranges.wf()
        &&& forall|k: int| 0 <= k < self.size() ==> gpu_writes_positive(#[trigger] self.access_at(k))
    }

    /// Every byte of `[lo, hi)` admits a host read.
    pub open spec fn cpu_read_allowed_on(self, lo: int, hi: int) -> bool {
        forall|k: int| lo <= k < hi ==> cpu_read_conflict(#[trigger] self.access_at(k)) is None
    }

    /// Every byte of `[lo, hi)` admits a host write.
    pub open spec fn cpu_write_allowed_on(self, lo: int, hi: int) -> bool {
        forall|k: int| lo <= k < hi ==> cpu_write_conflict(#[trigger] self.access_at(k)) is None
    }

    /// Every byte of `[lo, hi)` admits a device read.
    pub open spec fn gpu_read_allowed_on(self, lo: int, hi: int) -> bool {
        forall|k: int| lo <= k < hi ==> gpu_read_allowed(#[trigger] self.access_at(k))
    }

    /// Every byte of `[lo, hi)` admits a device write.
    pub open spec fn gpu_write_allowed_on(self, lo: int, hi: int) -> bool {
        forall|k: int| lo <= k < hi ==> gpu_write_allowed(#[trigger] self.access_at(k))
    }

    /// Creates a tracker for a buffer of `size` bytes, with every byte in
    /// the rest state: shared, with no readers on either side.
    pub fn new(size: DeviceSize) -> (s: Self)
        requires
            size > 0,
        ensures
            s.wf(),
            s.size() == size,
            forall|k: int|
                0 <= k < size ==> #[trigger] s.access_at(k) == (CurrentAccess::Shared {
                    cpu_reads: 0usize,
                    gpu_reads: 0usize,
                }),
    {
        BufferState {
            ranges: RangeMap::new(
                size,
                BufferRangeState {
                    current_access: CurrentAccess::Shared { cpu_reads: 0, gpu_reads: 0 },
                },
            ),
        }
    }

    /// The access state currently recorded for the byte at `offset`.
    pub fn current_access(&self, offset: DeviceSize) -> (a: CurrentAccess)
        requires
            self.wf(),
            offset < self.size(),
        ensures
            a == self.access_at(offset as int),
    {
        self.ranges.value_at(offset).current_access
    }

    /// Checks whether the host may read `range`: every overlapped sub-range
    /// must be free of host and device writes.  On a conflict, reports the
    /// one found on the lowest conflicting byte, without mutating anything.
    #[verifier::loop_isolation(false)]
    pub fn check_cpu_read(&self, range: Range<DeviceSize>) -> (r: Result<(), AccessConflict>)
        requires
            self.wf(),
            range.start <= range.end <= self.size(),
        ensures
            r is Ok <==> self.cpu_read_allowed_on(range.start as int, range.end as int),
            (match r {
                Ok(_) => true,
                Err(e) => exists|k: int|
                    range.start <= k < range.end && #[trigger] cpu_read_conflict(self.access_at(k))
                        == Some(e) && self.cpu_read_allowed_on(range.start as int, k),
            }),
    {
        if range.start == range.end {
            return Ok(());
        }
        let n = self.ranges.num_entries();
        let mut i: usize = 0;
        while i < n
            invariant
                i <= n,
                self.cpu_read_allowed_on(
                    range.start as int,
                    scan_floor(self.ranges@, i as int, range.start as int, range.end as int),
                ),
            decreases n - i,
        {
            let e = self.ranges.entry(i);
            let ghost prev = scan_floor(
                self.ranges@,
                i as int,
                range.start as int,
                range.end as int,
            );
            if e.start < range.end && range.start < e.end {
                let ghost k0 = if range.start >= e.start {
                    range.start as int
                } else {
                    e.start as int
                };
                proof {
                    lemma_val_at_entry(self.ranges@, i as int, k0);
                    assert(self.access_at(k0) == e.value.current_access);
                }
                match e.value.current_access {
                    CurrentAccess::CpuExclusive => {
                        proof {
                            assert(cpu_read_conflict(self.access_at(k0)) == Some(
                                AccessConflict::HostWrite,
                            ));
                        }
                        return Err(AccessConflict::HostWrite);
                    },
                    CurrentAccess::GpuExclusive { .. } => {
                        proof {
                            assert(cpu_read_conflict(self.access_at(k0)) == Some(
                                AccessConflict::DeviceWrite,
                            ));
                        }
                        return Err(AccessConflict::DeviceWrite);
                    },
                    CurrentAccess::Shared { .. } => {},
                }
            }
            proof {
                lemma_scan_floor_step(self.ranges@, i as int, range.start as int, range.end as int);
                assert forall|k: int|
                    prev <= k < scan_floor(
                        self.ranges@,
                        i + 1,
                        range.start as int,
                        range.end as int,
                    ) implies cpu_read_conflict(#[trigger] self.access_at(k)) is None by {
                    lemma_val_at_entry(self.ranges@, i as int, k);
                }
            }
            i += 1;
        }
        Ok(())
    }

    /// Checks whether the host may write `range`: every overlapped
    /// sub-range must be in the rest state.  On a conflict, reports the one
    /// found on the lowest conflicting byte, without mutating anything.
    #[verifier::loop_isolation(false)]
    pub fn check_cpu_write(&self, range: Range<DeviceSize>) -> (r: Result<(), AccessConflict>)
        requires
            self.wf(),
            range.start <= range.end <= self.size(),
        ensures
            r is Ok <==> self.cpu_write_allowed_on(range.start as int, range.end as int),
            (match r {
                Ok(_) => true,
                Err(e) => exists|k: int|
                    range.start <= k < range.end && #[trigger] cpu_write_conflict(self.access_at(k))
                        == Some(e) && self.cpu_write_allowed_on(range.start as int, k),
            }),
    {
        if range.start == range.end {
            return Ok(());
        }
        let n = self.ranges.num_entries();
        let mut i: usize = 0;
        while i < n
            invariant
                i <= n,
                self.cpu_write_allowed_on(
                    range.start as int,
                    scan_floor(self.ranges@, i as int, range.start as int, range.end as int),
                ),
            decreases n - i,
        {
            let e = self.ranges.entry(i);
            let ghost prev = scan_floor(
                self.ranges@,
                i as int,
                range.start as int,
                range.end as int,
            );
            if e.start < range.end && range.start < e.end {
                let ghost k0 = if range.start >= e.start {
                    range.start as int
                } else {
                    e.start as int
                };
                proof {
                    lemma_val_at_entry(self.ranges@, i as int, k0);
                    assert(self.access_at(k0) == e.value.current_access);
                }
                match e.value.current_access {
                    CurrentAccess::CpuExclusive => {
                        return Err(AccessConflict::HostWrite);
                    },
                    CurrentAccess::GpuExclusive { .. } => {
                        return Err(AccessConflict::DeviceWrite);
                    },
                    CurrentAccess::Shared { cpu_reads: 0, gpu_reads: 0 } => {},
                    CurrentAccess::Shared { cpu_reads, .. } if cpu_reads > 0 => {
                        return Err(AccessConflict::HostRead);
                    },
                    CurrentAccess::Shared { .. } => {
                        return Err(AccessConflict::DeviceRead);
                    },
                }
            }
            proof {
                lemma_scan_floor_step(self.ranges@, i as int, range.start as int, range.end as int);
                assert forall|k: int|
                    prev <= k < scan_floor(
                        self.ranges@,
                        i + 1,
                        range.start as int,
                        range.end as int,
                    ) implies cpu_write_conflict(#[trigger] self.access_at(k)) is None by {
                    lemma_val_at_entry(self.ranges@, i as int, k);
                }
            }
            i += 1;
        }
        Ok(())
    }

    /// Checks whether the device may read `range`: every overlapped
    /// sub-range must be in a shared state.  Mutates nothing.
    #[verifier::loop_isolation(false)]
    pub fn check_gpu_read(&self, range: Range<DeviceSize>) -> (r: Result<(), AccessError>)
        requires
            self.wf(),
            range.start <= range.end <= self.size(),
        ensures
            r is Ok <==> self.gpu_read_allowed_on(range.start as int, range.end as int),
            r is Err ==> r == Err::<(), AccessError>(AccessError::AlreadyInUse),
    {
        if range.start == range.end {
            return Ok(());
        }
        let n = self.ranges.num_entries();
        let mut i: usize = 0;
        while i < n
            invariant
                i <= n,
                self.gpu_read_allowed_on(
                    range.start as int,
                    scan_floor(self.ranges@, i as int, range.start as int, range.end as int),
                ),
            decreases n - i,
        {
            let e = self.ranges.entry(i);
            let ghost prev = scan_floor(
                self.ranges@,
                i as int,
                range.start as int,
                range.end as int,
            );
            if e.start < range.end && range.start < e.end {
                let ghost k0 = if range.start >= e.start {
                    range.start as int
                } else {
                    e.start as int
                };
                proof {
                    lemma_val_at_entry(self.ranges@, i as int, k0);
                    assert(self.access_at(k0) == e.value.current_access);
                }
                match e.value.current_access {
                    CurrentAccess::Shared { .. } => {},
                    _ => {
                        return Err(AccessError::AlreadyInUse);
                    },
                }
            }
            proof {
                lemma_scan_floor_step(self.ranges@, i as int, range.start as int, range.end as int);
                assert forall|k: int|
                    prev <= k < scan_floor(
                        self.ranges@,
                        i + 1,
                        range.start as int,
                        range.end as int,
                    ) implies gpu_read_allowed(#[trigger] self.access_at(k)) by {
                    lemma_val_at_entry(self.ranges@, i as int, k);
                }
            }
            i += 1;
        }
        Ok(())
    }

    /// Checks whether the device may write `range`: every overlapped
    /// sub-range must be in the rest state.  Mutates nothing.
    #[verifier::loop_isolation(false)]
    pub fn check_gpu_write(&self, range: Range<DeviceSize>) -> (r: Result<(), AccessError>)
        requires
            self.wf(),
            range.start <= range.end <= self.size(),
        ensures
            r is Ok <==> self.gpu_write_allowed_on(range.start as int, range.end as int),
            r is Err ==> r == Err::<(), AccessError>(AccessError::AlreadyInUse),
    {
        if range.start == range.end {
            return Ok(());
        }
        let n = self.ranges.num_entries();
        let mut i: usize = 0;
        while i < n
            invariant
                i <= n,
                self.gpu_write_allowed_on(
                    range.start as int,
                    scan_floor(self.ranges@, i as int, range.start as int, range.end as int),
                ),
            decreases n - i,
        {
            let e = self.ranges.entry(i);
            let ghost prev = scan_floor(
                self.ranges@,
                i as int,
                range.start as int,
                range.end as int,
            );
            if e.start < range.end && range.start < e.end {
                let ghost k0 = if range.start >= e.start {
                    range.start as int
                } else {
                    e.start as int
                };
                proof {
                    lemma_val_at_entry(self.ranges@, i as int, k0);
                    assert(self.access_at(k0) == e.value.current_access);
                }
                match e.value.current_access {
                    CurrentAccess::Shared { cpu_reads: 0, gpu_reads: 0 } => {},
                    _ => {
                        return Err(AccessError::AlreadyInUse);
                    },
                }
            }
            proof {
                lemma_scan_floor_step(self.ranges@, i as int, range.start as int, range.end as int);
                assert forall|k: int|
                    prev <= k < scan_floor(
                        self.ranges@,
                        i + 1,
                        range.start as int,
                        range.end as int,
                    ) implies gpu_write_allowed(#[trigger] self.access_at(k)) by {
                    lemma_val_at_entry(self.ranges@, i as int, k);
                }
            }
            i += 1;
        }
        Ok(())
    }

    /// Acquires a host read lock on `range`: the host read counter of every
    /// byte of the range grows by one, and no other byte changes.  Callers
    /// must have made sure, as [`Self::check_cpu_read`] does, that every
    /// byte of the range is shared.
    #[verifier::loop_isolation(false)]
    #[verifier::rlimit(80)]
    pub fn cpu_read_lock(&mut self, range: Range<DeviceSize>)
        requires
            old(self).wf(),
            range.start <= range.end <= old(self).size(),
            forall|k: int|
                range.start <= k < range.end ==> cpu_read_lockable(
                    #[trigger] old(self).access_at(k),
                ),
        ensures
            final(self).wf(),
            final(self).size() == old(self).size(),
            forall|k: int|
                range.start <= k < range.end ==> #[trigger] final(self).access_at(k)
                    == cpu_read_inc(old(self).access_at(k)),
            forall|k: int|
                0 <= k < old(self).size() && !(range.start <= k < range.end)
                    ==> #[trigger] final(self).access_at(k) == old(self).access_at(k),
    {
        self.ranges.split_at(range.start);
        let ghost m1 = self.ranges;
        self.ranges.split_at(range.end);
        proof {
            lemma_split_keeps_alignment(m1@, range.end, range.start);
        }
        let ghost s0 = self.ranges@;
        proof {
            assert forall|k: int| #[trigger] seq_val_at(s0, k) == seq_val_at(
                old(self).ranges@,
                k,
            ) by {
                assert(self.ranges.val_at(k) == m1.val_at(k));
                assert(m1.val_at(k) == old(self).ranges.val_at(k));
            }
        }
        let n = self.ranges.num_entries();
        let mut i: usize = 0;
        while i < n
            invariant
                n == s0.len(),
                self.ranges@.len() == s0.len(),
                i <= n,
                forall|j: int|
                    0 <= j < s0.len() ==> (#[trigger] self.ranges@[j]).start == s0[j].start
                        && self.ranges@[j].end == s0[j].end,
                forall|j: int|
                    0 <= j < i ==> (#[trigger] self.ranges@[j]).value.current_access == (if
                    range.start <= s0[j].start && s0[j].end <= range.end {
                        cpu_read_inc(s0[j].value.current_access)
                    } else {
                        s0[j].value.current_access
                    }),
                forall|j: int| i <= j < s0.len() ==> (#[trigger] self.ranges@[j]).value == s0[j].value,
            decreases n - i,
        {
            let e = self.ranges.entry(i);
            if range.start <= e.start && e.end <= range.end {
                proof {
                    assert(e.value == s0[i as int].value);
                    assert(s0[i as int].start < s0[i as int].end);
                    lemma_val_at_entry(s0, i as int, e.start as int);
                    assert(cpu_read_lockable(old(self).access_at(e.start as int)));
                }
                let nv = apply_cpu_read_lock(e.value.current_access);
                self.ranges.set_value(i, BufferRangeState { current_access: nv });
            }
            i += 1;
        }
        proof {
            lemma_apply_in_range(
                s0,
                self.ranges@,
                range.start,
                range.end,
                |x: CurrentAccess| cpu_read_inc(x),
            );
            assert(self.ranges@[0].start == s0[0].start);
            assert forall|k: int| 0 <= k < old(self).size() implies gpu_writes_positive(
                #[trigger] self.access_at(k),
            ) by {
                assert(gpu_writes_positive(old(self).access_at(k)));
            }
        }
    }

    /// Releases one host read lock on `range`: the host read counter of
    /// every byte of the range shrinks by one, and no other byte changes.
    /// Must be called exactly once per successful [`Self::cpu_read_lock`]
    /// with the identical range.
    #[verifier::loop_isolation(false)]
    #[verifier::rlimit(80)]
    pub fn cpu_read_unlock(&mut self, range: Range<DeviceSize>)
        requires
            old(self).wf(),
            range.start <= range.end <= old(self).size(),
            forall|k: int|
                range.start <= k < range.end ==> cpu_read_unlockable(
                    #[trigger] old(self).access_at(k),
                ),
        ensures
            final(self).wf(),
            final(self).size() == old(self).size(),
            forall|k: int|
                range.start <= k < range.end ==> #[trigger] final(self).access_at(k)
                    == cpu_read_dec(old(self).access_at(k)),
            forall|k: int|
                0 <= k < old(self).size() && !(range.start <= k < range.end)
                    ==> #[trigger] final(self).access_at(k) == old(self).access_at(k),
    {
        self.ranges.split_at(range.start);
        let ghost m1 = self.ranges;
        self.ranges.split_at(range.end);
        proof {
            lemma_split_keeps_alignment(m1@, range.end, range.start);
        }
        let ghost s0 = self.ranges@;
        proof {
            assert forall|k: int| #[trigger] seq_val_at(s0, k) == seq_val_at(
                old(self).ranges@,
                k,
            ) by {
                assert(self.ranges.val_at(k) == m1.val_at(k));
                assert(m1.val_at(k) == old(self).ranges.val_at(k));
            }
        }
        let n = self.ranges.num_entries();
        let mut i: usize = 0;
        while i < n
            invariant
                n == s0.len(),
                self.ranges@.len() == s0.len(),
                i <= n,
                forall|j: int|
                    0 <= j < s0.len() ==> (#[trigger] self.ranges@[j]).start == s0[j].start
                        && self.ranges@[j].end == s0[j].end,
                forall|j: int|
                    0 <= j < i ==> (#[trigger] self.ranges@[j]).value.current_access == (if
                    range.start <= s0[j].start && s0[j].end <= range.end {
                        cpu_read_dec(s0[j].value.current_access)
                    } else {
                        s0[j].value.current_access
                    }),
                forall|j: int| i <= j < s0.len() ==> (#[trigger] self.ranges@[j]).value == s0[j].value,
            decreases n - i,
        {
            let e = self.ranges.entry(i);
            if range.start <= e.start && e.end <= range.end {
                proof {
                    assert(e.value == s0[i as int].value);
                    assert(s0[i as int].start < s0[i as int].end);
                    lemma_val_at_entry(s0, i as int, e.start as int);
                    assert(cpu_read_unlockable(old(self).access_at(e.start as int)));
                }
                let nv = apply_cpu_read_unlock(e.value.current_access);
                self.ranges.set_value(i, BufferRangeState { current_access: nv });
            }
            i += 1;
        }
        proof {
            lemma_apply_in_range(
                s0,
                self.ranges@,
                range.start,
                range.end,
                |x: CurrentAccess| cpu_read_dec(x),
            );
            assert(self.ranges@[0].start == s0[0].start);
            assert forall|k: int| 0 <= k < old(self).size() implies gpu_writes_positive(
                #[trigger] self.access_at(k),
            ) by {
                assert(gpu_writes_positive(old(self).access_at(k)));
            }
        }
    }

    /// Acquires a host write lock on `range`: every byte of the range
    /// becomes exclusive to the host, and no other byte changes.  Callers
    /// must have made sure, as [`Self::check_cpu_write`] does, that every
    /// byte of the range is in the rest state.
    #[verifier::loop_isolation(false)]
    #[verifier::rlimit(80)]
    pub fn cpu_write_lock(&mut self, range: Range<DeviceSize>)
        requires
            old(self).wf(),
            range.start <= range.end <= old(self).size(),
            forall|k: int|
                range.start <= k < range.end ==> cpu_write_lockable(
                    #[trigger] old(self).access_at(k),
                ),
        ensures
            final(self).wf(),
            final(self).size() == old(self).size(),
            forall|k: int|
                range.start <= k < range.end ==> #[trigger] final(self).access_at(k)
                    == CurrentAccess::CpuExclusive,
            forall|k: int|
                0 <= k < old(self).size() && !(range.start <= k < range.end)
                    ==> #[trigger] final(self).access_at(k) == old(self).access_at(k),
    {
        self.ranges.split_at(range.start);
        let ghost m1 = self.ranges;
        self.ranges.split_at(range.end);
        proof {
            lemma_split_keeps_alignment(m1@, range.end, range.start);
        }
        let ghost s0 = self.ranges@;
        proof {
            assert forall|k: int| #[trigger] seq_val_at(s0, k) == seq_val_at(
                old(self).ranges@,
                k,
            ) by {
                assert(self.ranges.val_at(k) == m1.val_at(k));
                assert(m1.val_at(k) == old(self).ranges.val_at(k));
            }
        }
        let n = self.ranges.num_entries();
        let mut i: usize = 0;
        while i < n
            invariant
                n == s0.len(),
                self.ranges@.len() == s0.len(),
                i <= n,
                forall|j: int|
                    0 <= j < s0.len() ==> (#[trigger] self.ranges@[j]).start == s0[j].start
                        && self.ranges@[j].end == s0[j].end,
                forall|j: int|
                    0 <= j < i ==> (#[trigger] self.ranges@[j]).value.current_access == (if
                    range.start <= s0[j].start && s0[j].end <= range.end {
                        (|y: CurrentAccess| CurrentAccess::CpuExclusive)(s0[j].value.current_access)
                    } else {
                        s0[j].value.current_access
                    }),
                forall|j: int| i <= j < s0.len() ==> (#[trigger] self.ranges@[j]).value == s0[j].value,
            decreases n - i,
        {
            let e = self.ranges.entry(i);
            if range.start <= e.start && e.end <= range.end {
                proof {
                    assert(e.value == s0[i as int].value);
                    assert(s0[i as int].start < s0[i as int].end);
                    lemma_val_at_entry(s0, i as int, e.start as int);
                    assert(cpu_write_lockable(old(self).access_at(e.start as int)));
                }
                let nv = apply_cpu_write_lock(e.value.current_access);
                self.ranges.set_value(i, BufferRangeState { current_access: nv });
            }
            i += 1;
        }
        proof {
            lemma_apply_in_range(
                s0,
                self.ranges@,
                range.start,
                range.end,
                |x: CurrentAccess| (|y: CurrentAccess| CurrentAccess::CpuExclusive)(x),
            );
            assert(self.ranges@[0].start == s0[0].start);
            assert forall|k: int| 0 <= k < old(self).size() implies gpu_writes_positive(
                #[trigger] self.access_at(k),
            ) by {
                assert(gpu_writes_positive(old(self).access_at(k)));
            }
        }
    }

    /// Releases the host write lock on `range`: every byte of the range
    /// returns to the rest state, and no other byte changes.  Must be
    /// called exactly once per successful [`Self::cpu_write_lock`] with the
    /// identical range.
    #[verifier::loop_isolation(false)]
    #[verifier::rlimit(80)]
    pub fn cpu_write_unlock(&mut self, range: Range<DeviceSize>)
        requires
            old(self).wf(),
            range.start <= range.end <= old(self).size(),
            forall|k: int|
                range.start <= k < range.end ==> cpu_write_unlockable(
                    #[trigger] old(self).access_at(k),
                ),
        ensures
            final(self).wf(),
            final(self).size() == old(self).size(),
            forall|k: int|
                range.start <= k < range.end ==> #[trigger] final(self).access_at(k)
                    == (CurrentAccess::Shared { cpu_reads: 0usize, gpu_reads: 0usize }),
            forall|k: int|
                0 <= k < old(self).size() && !(range.start <= k < range.end)
                    ==> #[trigger] final(self).access_at(k) == old(self).access_at(k),
    {
        self.ranges.split_at(range.start);
        let ghost m1 = self.ranges;
        self.ranges.split_at(range.end);
        proof {
            lemma_split_keeps_alignment(m1@, range.end, range.start);
        }
        let ghost s0 = self.ranges@;
        proof {
            assert forall|k: int| #[trigger] seq_val_at(s0, k) == seq_val_at(
                old(self).ranges@,
                k,
            ) by {
                assert(self.ranges.val_at(k) == m1.val_at(k));
                assert(m1.val_at(k) == old(self).ranges.val_at(k));
            }
        }
        let n = self.ranges.num_entries();
        let mut i: usize = 0;
        while i < n
            invariant
                n == s0.len(),
                self.ranges@.len() == s0.len(),
                i <= n,
                forall|j: int|
                    0 <= j < s0.len() ==> (#[trigger] self.ranges@[j]).start == s0[j].start
                        && self.ranges@[j].end == s0[j].end,
                forall|j: int|
                    0 <= j < i ==> (#[trigger] self.ranges@[j]).value.current_access == (if
                    range.start <= s0[j].start && s0[j].end <= range.end {
                        (|y: CurrentAccess| CurrentAccess::Shared { cpu_reads: 0usize, gpu_reads: 0usize })(s0[j].value.current_access)
                    } else {
                        s0[j].value.current_access
                    }),
                forall|j: int| i <= j < s0.len() ==> (#[trigger] self.ranges@[j]).value == s0[j].value,
            decreases n - i,
        {
            let e = self.ranges.entry(i);
            if range.start <= e.start && e.end <= range.end {
                proof {
                    assert(e.value == s0[i as int].value);
                    assert(s0[i as int].start < s0[i as int].end);
                    lemma_val_at_entry(s0, i as int, e.start as int);
                    assert(cpu_write_unlockable(old(self).access_at(e.start as int)));
                }
                let nv = apply_cpu_write_unlock(e.value.current_access);
                self.ranges.set_value(i, BufferRangeState { current_access: nv });
            }
            i += 1;
        }
        proof {
            lemma_apply_in_range(
                s0,
                self.ranges@,
                range.start,
                range.end,
                |x: CurrentAccess| (|y: CurrentAccess| CurrentAccess::Shared { cpu_reads: 0usize, gpu_reads: 0usize })(x),
            );
            assert(self.ranges@[0].start == s0[0].start);
            assert forall|k: int| 0 <= k < old(self).size() implies gpu_writes_positive(
                #[trigger] self.access_at(k),
            ) by {
                assert(gpu_writes_positive(old(self).access_at(k)));
            }
        }
    }

    /// Acquires a device read lock on `range`: the device read counter of
    /// every byte of the range grows by one, whether the byte is shared or
    /// already device-exclusive, and no other byte changes.  Callers must
    /// have made sure that no byte of the range is host-exclusive.
    #[verifier::loop_isolation(false)]
    #[verifier::rlimit(80)]
    pub fn gpu_read_lock(&mut self, range: Range<DeviceSize>)
        requires
            old(self).wf(),
            range.start <= range.end <= old(self).size(),
            forall|k: int|
                range.start <= k < range.end ==> gpu_read_lockable(
                    #[trigger] old(self).access_at(k),
                ),
        ensures
            final(self).wf(),
            final(self).size() == old(self).size(),
            forall|k: int|
                range.start <= k < range.end ==> #[trigger] final(self).access_at(k)
                    == gpu_read_inc(old(self).access_at(k)),
            forall|k: int|
                0 <= k < old(self).size() && !(range.start <= k < range.end)
                    ==> #[trigger] final(self).access_at(k) == old(self).access_at(k),
    {
        self.ranges.split_at(range.start);
        let ghost m1 = self.ranges;
        self.ranges.split_at(range.end);
        proof {
            lemma_split_keeps_alignment(m1@, range.end, range.start);
        }
        let ghost s0 = self.ranges@;
        proof {
            assert forall|k: int| #[trigger] seq_val_at(s0, k) == seq_val_at(
                old(self).ranges@,
                k,
            ) by {
                assert(self.ranges.val_at(k) == m1.val_at(k));
                assert(m1.val_at(k) == old(self).ranges.val_at(k));
            }
        }
        let n = self.ranges.num_entries();
        let mut i: usize = 0;
        while i < n
            invariant
                n == s0.len(),
                self.ranges@.len() == s0.len(),
                i <= n,
                forall|j: int|
                    0 <= j < s0.len() ==> (#[trigger] self.ranges@[j]).start == s0[j].start
                        && self.ranges@[j].end == s0[j].end,
                forall|j: int|
                    0 <= j < i ==> (#[trigger] self.ranges@[j]).value.current_access == (if
                    range.start <= s0[j].start && s0[j].end <= range.end {
                        gpu_read_inc(s0[j].value.current_access)
                    } else {
                        s0[j].value.current_access
                    }),
                forall|j: int| i <= j < s0.len() ==> (#[trigger] self.ranges@[j]).value == s0[j].value,
            decreases n - i,
        {
            let e = self.ranges.entry(i);
            if range.start <= e.start && e.end <= range.end {
                proof {
                    assert(e.value == s0[i as int].value);
                    assert(s0[i as int].start < s0[i as int].end);
                    lemma_val_at_entry(s0, i as int, e.start as int);
                    assert(gpu_read_lockable(old(self).access_at(e.start as int)));
                }
                let nv = apply_gpu_read_lock(e.value.current_access);
                self.ranges.set_value(i, BufferRangeState { current_access: nv });
            }
            i += 1;
        }
        proof {
            lemma_apply_in_range(
                s0,
                self.ranges@,
                range.start,
                range.end,
                |x: CurrentAccess| gpu_read_inc(x),
            );
            assert(self.ranges@[0].start == s0[0].start);
            assert forall|k: int| 0 <= k < old(self).size() implies gpu_writes_positive(
                #[trigger] self.access_at(k),
            ) by {
                assert(gpu_writes_positive(old(self).access_at(k)));
            }
        }
    }

    /// Releases one device read lock on `range`: the device read counter
    /// of every byte of the range shrinks by one, and no other byte
    /// changes.  Must be called exactly once per successful
    /// [`Self::gpu_read_lock`] with the identical range.
    #[verifier::loop_isolation(false)]
    #[verifier::rlimit(80)]
    pub fn gpu_read_unlock(&mut self, range: Range<DeviceSize>)
        requires
            old(self).wf(),
            range.start <= range.end <= old(self).size(),
            forall|k: int|
                range.start <= k < range.end ==> gpu_read_unlockable(
                    #[trigger] old(self).access_at(k),
                ),
        ensures
            final(self).wf(),
            final(self).size() == old(self).size(),
            forall|k: int|
                range.start <= k < range.end ==> #[trigger] final(self).access_at(k)
                    == gpu_read_dec(old(self).access_at(k)),
            forall|k: int|
                0 <= k < old(self).size() && !(range.start <= k < range.end)
                    ==> #[trigger] final(self).access_at(k) == old(self).access_at(k),
    {
        self.ranges.split_at(range.start);
        let ghost m1 = self.ranges;
        self.ranges.split_at(range.end);
        proof {
            lemma_split_keeps_alignment(m1@, range.end, range.start);
        }
        let ghost s0 = self.ranges@;
        proof {
            assert forall|k: int| #[trigger] seq_val_at(s0, k) == seq_val_at(
                old(self).ranges@,
                k,
            ) by {
                assert(self.ranges.val_at(k) == m1.val_at(k));
                assert(m1.val_at(k) == old(self).ranges.val_at(k));
            }
        }
        let n = self.ranges.num_entries();
        let mut i: usize = 0;
        while i < n
            invariant
                n == s0.len(),
                self.ranges@.len() == s0.len(),
                i <= n,
                forall|j: int|
                    0 <= j < s0.len() ==> (#[trigger] self.ranges@[j]).start == s0[j].start
                        && self.ranges@[j].end == s0[j].end,
                forall|j: int|
                    0 <= j < i ==> (#[trigger] self.ranges@[j]).value.current_access == (if
                    range.start <= s0[j].start && s0[j].end <= range.end {
                        gpu_read_dec(s0[j].value.current_access)
                    } else {
                        s0[j].value.current_access
                    }),
                forall|j: int| i <= j < s0.len() ==> (#[trigger] self.ranges@[j]).value == s0[j].value,
            decreases n - i,
        {
            let e = self.ranges.entry(i);
            if range.start <= e.start && e.end <= range.end {
                proof {
                    assert(e.value == s0[i as int].value);
                    assert(s0[i as int].start < s0[i as int].end);
                    lemma_val_at_entry(s0, i as int, e.start as int);
                    assert(gpu_read_unlockable(old(self).access_at(e.start as int)));
                }
                let nv = apply_gpu_read_unlock(e.value.current_access);
                self.ranges.set_value(i, BufferRangeState { current_access: nv });
            }
            i += 1;
        }
        proof {
            lemma_apply_in_range(
                s0,
                self.ranges@,
                range.start,
                range.end,
                |x: CurrentAccess| gpu_read_dec(x),
            );
            assert(self.ranges@[0].start == s0[0].start);
            assert forall|k: int| 0 <= k < old(self).size() implies gpu_writes_positive(
                #[trigger] self.access_at(k),
            ) by {
                assert(gpu_writes_positive(old(self).access_at(k)));
            }
        }
    }

    /// Acquires a device write lock on `range`: a shared byte with no
    /// host readers upgrades to device-exclusive with one write, a
    /// device-exclusive byte counts one more write, and no other byte
    /// changes.  Callers must have made sure, as [`Self::check_gpu_write`]
    /// does for the first lock, that no byte of the range is accessed by
    /// the host.
    #[verifier::loop_isolation(false)]
    #[verifier::rlimit(80)]
    pub fn gpu_write_lock(&mut self, range: Range<DeviceSize>)
        requires
            old(self).wf(),
            range.start <= range.end <= old(self).size(),
            forall|k: int|
                range.start <= k < range.end ==> gpu_write_lockable(
                    #[trigger] old(self).access_at(k),
                ),
        ensures
            final(self).wf(),
            final(self).size() == old(self).size(),
            forall|k: int|
                range.start <= k < range.end ==> #[trigger] final(self).access_at(k)
                    == gpu_write_inc(old(self).access_at(k)),
            forall|k: int|
                0 <= k < old(self).size() && !(range.start <= k < range.end)
                    ==> #[trigger] final(self).access_at(k) == old(self).access_at(k),
    {
        self.ranges.split_at(range.start);
        let ghost m1 = self.ranges;
        self.ranges.split_at(range.end);
        proof {
            lemma_split_keeps_alignment(m1@, range.end, range.start);
        }
        let ghost s0 = self.ranges@;
        proof {
            assert forall|k: int| #[trigger] seq_val_at(s0, k) == seq_val_at(
                old(self).ranges@,
                k,
            ) by {
                assert(self.ranges.val_at(k) == m1.val_at(k));
                assert(m1.val_at(k) == old(self).ranges.val_at(k));
            }
        }
        let n = self.ranges.num_entries();
        let mut i: usize = 0;
        while i < n
            invariant
                n == s0.len(),
                self.ranges@.len() == s0.len(),
                i <= n,
                forall|j: int|
                    0 <= j < s0.len() ==> (#[trigger] self.ranges@[j]).start == s0[j].start
                        && self.ranges@[j].end == s0[j].end,
                forall|j: int|
                    0 <= j < i ==> (#[trigger] self.ranges@[j]).value.current_access == (if
                    range.start <= s0[j].start && s0[j].end <= range.end {
                        gpu_write_inc(s0[j].value.current_access)
                    } else {
                        s0[j].value.current_access
                    }),
                forall|j: int| i <= j < s0.len() ==> (#[trigger] self.ranges@[j]).value == s0[j].value,
            decreases n - i,
        {
            let e = self.ranges.entry(i);
            if range.start <= e.start && e.end <= range.end {
                proof {
                    assert(e.value == s0[i as int].value);
                    assert(s0[i as int].start < s0[i as int].end);
                    lemma_val_at_entry(s0, i as int, e.start as int);
                    assert(gpu_write_lockable(old(self).access_at(e.start as int)));
                }
                let nv = apply_gpu_write_lock(e.value.current_access);
                self.ranges.set_value(i, BufferRangeState { current_access: nv });
            }
            i += 1;
        }
        proof {
            lemma_apply_in_range(
                s0,
                self.ranges@,
                range.start,
                range.end,
                |x: CurrentAccess| gpu_write_inc(x),
            );
            assert(self.ranges@[0].start == s0[0].start);
            assert forall|k: int| 0 <= k < old(self).size() implies gpu_writes_positive(
                #[trigger] self.access_at(k),
            ) by {
                assert(gpu_writes_positive(old(self).access_at(k)));
            }
        }
    }

    /// Releases one device write lock on `range`: every byte of the range
    /// counts one write less, and a byte whose last write lock leaves
    /// downgrades to shared, keeping its device readers.  Must be called
    /// exactly once per successful [`Self::gpu_write_lock`] with the
    /// identical range.
    #[verifier::loop_isolation(false)]
    #[verifier::rlimit(80)]
    pub fn gpu_write_unlock(&mut self, range: Range<DeviceSize>)
        requires
            old(self).wf(),
            range.start <= range.end <= old(self).size(),
            forall|k: int|
                range.start <= k < range.end ==> gpu_write_unlockable(
                    #[trigger] old(self).access_at(k),
                ),
        ensures
            final(self).wf(),
            final(self).size() == old(self).size(),
            forall|k: int|
                range.start <= k < range.end ==> #[trigger] final(self).access_at(k)
                    == gpu_write_dec(old(self).access_at(k)),
            forall|k: int|
                0 <= k < old(self).size() && !(range.start <= k < range.end)
                    ==> #[trigger] final(self).access_at(k) == old(self).access_at(k),
    {
        self.ranges.split_at(range.start);
        let ghost m1 = self.ranges;
        self.ranges.split_at(range.end);
        proof {
            lemma_split_keeps_alignment(m1@, range.end, range.start);
        }
        let ghost s0 = self.ranges@;
        proof {
            assert forall|k: int| #[trigger] seq_val_at(s0, k) == seq_val_at(
                old(self).ranges@,
                k,
            ) by {
                assert(self.ranges.val_at(k) == m1.val_at(k));
                assert(m1.val_at(k) == old(self).ranges.val_at(k));
            }
        }
        let n = self.ranges.num_entries();
        let mut i: usize = 0;
        while i < n
            invariant
                n == s0.len(),
                self.ranges@.len() == s0.len(),
                i <= n,
                forall|j: int|
                    0 <= j < s0.len() ==> (#[trigger] self.ranges@[j]).start == s0[j].start
                        && self.ranges@[j].end == s0[j].end,
                forall|j: int|
                    0 <= j < i ==> (#[trigger] self.ranges@[j]).value.current_access == (if
                    range.start <= s0[j].start && s0[j].end <= range.end {
                        gpu_write_dec(s0[j].value.current_access)
                    } else {
                        s0[j].value.current_access
                    }),
                forall|j: int| i <= j < s0.len() ==> (#[trigger] self.ranges@[j]).value == s0[j].value,
            decreases n - i,
        {
            let e = self.ranges.entry(i);
            if range.start <= e.start && e.end <= range.end {
                proof {
                    assert(e.value == s0[i as int].value);
                    assert(s0[i as int].start < s0[i as int].end);
                    lemma_val_at_entry(s0, i as int, e.start as int);
                    assert(gpu_write_unlockable(old(self).access_at(e.start as int)));
                }
                let nv = apply_gpu_write_unlock(e.value.current_access);
                self.ranges.set_value(i, BufferRangeState { current_access: nv });
            }
            i += 1;
        }
        proof {
            lemma_apply_in_range(
                s0,
                self.ranges@,
                range.start,
                range.end,
                |x: CurrentAccess| gpu_write_dec(x),
            );
            assert(self.ranges@[0].start == s0[0].start);
            assert forall|k: int| 0 <= k < old(self).size() implies gpu_writes_positive(
                #[trigger] self.access_at(k),
            ) by {
                assert(gpu_writes_positive(old(self).access_at(k)));
            }
        }
    }
}

/// While a host write lock covers every byte of a non-empty range, neither
/// a host read nor a device read of that range is admitted; together with
/// [`BufferState::cpu_write_lock`]'s guarantee that the whole range becomes
/// host-exclusive, a successful host write lock blocks both checks until
/// the matching unlock.
pub proof fn lemma_host_write_lock_excludes_readers(s: BufferState, lo: int, hi: int)
    requires
        lo < hi,
        forall|k: int| lo <= k < hi ==> #[trigger] s.access_at(k) == CurrentAccess::CpuExclusive,
    ensures
        !s.cpu_read_allowed_on(lo, hi),
        !s.gpu_read_allowed_on(lo, hi),
{
    assert(s.access_at(lo) == CurrentAccess::CpuExclusive);
}

/// Once every byte of a range is back in the rest state — as
/// [`BufferState::cpu_write_unlock`] leaves it — every kind of access to
/// the range is admitted again.
pub proof fn lemma_rest_state_admits_all(s: BufferState, lo: int, hi: int)
    requires
        forall|k: int|
            lo <= k < hi ==> #[trigger] s.access_at(k) == (CurrentAccess::Shared {
                cpu_reads: 0usize,
                gpu_reads: 0usize,
            }),
    ensures
        s.cpu_read_allowed_on(lo, hi),
        s.cpu_write_allowed_on(lo, hi),
        s.gpu_read_allowed_on(lo, hi),
        s.gpu_write_allowed_on(lo, hi),
{
}

/// A check consults only the bytes of the queried range: two tracker
/// states that agree on a range report the same legality for every kind of
/// access to it.  Since each lock and unlock leaves every byte outside its
/// own range unchanged, a lock on one range never affects what is reported
/// for a disjoint range.
pub proof fn lemma_checks_depend_only_on_range(
    s1: BufferState,
    s2: BufferState,
    lo: int,
    hi: int,
)
    requires
        forall|k: int| lo <= k < hi ==> #[trigger] s1.access_at(k) == s2.access_at(k),
    ensures
        s1.cpu_read_allowed_on(lo, hi) == s2.cpu_read_allowed_on(lo, hi),
        s1.cpu_write_allowed_on(lo, hi) == s2.cpu_write_allowed_on(lo, hi),
        s1.gpu_read_allowed_on(lo, hi) == s2.gpu_read_allowed_on(lo, hi),
        s1.gpu_write_allowed_on(lo, hi) == s2.gpu_write_allowed_on(lo, hi),
{
    if s1.cpu_read_allowed_on(lo, hi) {
        assert forall|k: int|
            lo <= k < hi implies cpu_read_conflict(#[trigger] s2.access_at(k)) is None by {
            assert(cpu_read_conflict(s1.access_at(k)) is None);
        }
    }
    if s2.cpu_read_allowed_on(lo, hi) {
        assert forall|k: int|
            lo <= k < hi implies cpu_read_conflict(#[trigger] s1.access_at(k)) is None by {
            assert(cpu_read_conflict(s2.access_at(k)) is None);
        }
    }
    if s1.cpu_write_allowed_on(lo, hi) {
        assert forall|k: int|
            lo <= k < hi implies cpu_write_conflict(#[trigger] s2.access_at(k)) is None by {
            assert(cpu_write_conflict(s1.access_at(k)) is None);
        }
    }
    if s2.cpu_write_allowed_on(lo, hi) {
        assert forall|k: int|
            lo <= k < hi implies cpu_write_conflict(#[trigger] s1.access_at(k)) is None by {
            assert(cpu_write_conflict(s2.access_at(k)) is None);
        }
    }
    if s1.gpu_read_allowed_on(lo, hi) {
        assert forall|k: int| lo <= k < hi implies gpu_read_allowed(
            #[trigger] s2.access_at(k),
        ) by {
            assert(gpu_read_allowed(s1.access_at(k)));
        }
    }
    if s2.gpu_read_allowed_on(lo, hi) {
        assert forall|k: int| lo <= k < hi implies gpu_read_allowed(
            #[trigger] s1.access_at(k),
        ) by {
            assert(gpu_read_allowed(s2.access_at(k)));
        }
    }
    if s1.gpu_write_allowed_on(lo, hi) {
        assert forall|k: int| lo <= k < hi implies gpu_write_allowed(
            #[trigger] s2.access_at(k),
        ) by {
            assert(gpu_write_allowed(s1.access_at(k)));
        }
    }
    if s2.gpu_write_allowed_on(lo, hi) {
        assert forall|k: int| lo <= k < hi implies gpu_write_allowed(
            #[trigger] s1.access_at(k),
        ) by {
            assert(gpu_write_allowed(s2.access_at(k)));
        }
    }
}

/// After a split at each end of `[a, b)`, every entry lies either inside
/// the range or outside it; applying a transition to the value of exactly
/// the entries inside then transitions the state of every byte of the range
/// and leaves every other byte's state unchanged.
proof fn lemma_apply_in_range(
    s0: Seq<RangeEntry<BufferRangeState>>,
    s1: Seq<RangeEntry<BufferRangeState>>,
    a: u64,
    b: u64,
    f: spec_fn(CurrentAccess) -> CurrentAccess,
)
    requires
        entries_wf(s0),
        s0.len() > 0,
        s0[0].start == 0,
        a <= b <= s0.last().end,
        boundary_aligned(s0, a),
        boundary_aligned(s0, b),
        s1.len() == s0.len(),
        forall|j: int|
            0 <= j < s1.len() ==> (#[trigger] s1[j]).start == s0[j].start && s1[j].end == s0[j].end,
        forall|j: int|
            0 <= j < s1.len() ==> (#[trigger] s1[j]).value.current_access == (if a <= s0[j].start
                && s0[j].end <= b {
                f(s0[j].value.current_access)
            } else {
                s0[j].value.current_access
            }),
    ensures
        entries_wf(s1),
        s1.last().end == s0.last().end,
        forall|k: int|
            a <= k < b ==> #[trigger] seq_val_at(s1, k).current_access == f(
                seq_val_at(s0, k).current_access,
            ),
        forall|k: int|
            0 <= k < s0.last().end && !(a <= k < b) ==> #[trigger] seq_val_at(s1, k).current_access
                == seq_val_at(s0, k).current_access,
{
    assert(entries_wf(s1)) by {
        assert(forall|j: int|
            0 <= j < s1.len() ==> (#[trigger] s1[j]).start == s0[j].start && s1[j].end
                == s0[j].end);
    }
    assert(s1.last().end == s0.last().end);
    assert forall|k: int| a <= k < b implies #[trigger] seq_val_at(s1, k).current_access == f(
        seq_val_at(s0, k).current_access,
    ) by {
        let j = lemma_covering_entry(s0, k);
        assert(!(s0[j].start < a < s0[j].end));
        assert(!(s0[j].start < b < s0[j].end));
        assert(a <= s0[j].start && s0[j].end <= b);
        lemma_val_at_entry(s1, j, k);
    }
    assert forall|k: int|
        0 <= k < s0.last().end && !(a <= k < b) implies #[trigger] seq_val_at(
        s1,
        k,
    ).current_access == seq_val_at(s0, k).current_access by {
        let j = lemma_covering_entry(s0, k);
        assert(!(a <= s0[j].start && s0[j].end <= b));
        lemma_val_at_entry(s1, j, k);
    }
}

/// `x` clamped into the interval `[lo, hi]`.
pub(crate) open spec fn clamped(x: int, lo: int, hi: int) -> int {
    if x < lo {
        lo
    } else if x > hi {
        hi
    } else {
        x
    }
}

/// The first byte of `[lo, hi)` not yet classified when a scan of the
/// entries stands before entry `i`: that entry's start, or the end of the
/// last entry once the scan is done, clamped into the queried range.
pub(crate) open spec fn scan_floor(
    s: Seq<RangeEntry<BufferRangeState>>,
    i: int,
    lo: int,
    hi: int,
) -> int {
    if 0 <= i < s.len() {
        clamped(s[i].start as int, lo, hi)
    } else {
        clamped(s.last().end as int, lo, hi)
    }
}

/// Stepping the scan past entry `i` advances the floor to that entry's end
/// (clamped), and every newly covered byte lies inside entry `i`.
pub(crate) proof fn lemma_scan_floor_step(
    s: Seq<RangeEntry<BufferRangeState>>,
    i: int,
    lo: int,
    hi: int,
)
    requires
        entries_wf(s),
        s.len() > 0,
        0 <= i < s.len(),
        lo <= hi,
    ensures
        scan_floor(s, i + 1, lo, hi) == clamped(s[i].end as int, lo, hi),
        scan_floor(s, i, lo, hi) <= scan_floor(s, i + 1, lo, hi),
{
    if i + 1 < s.len() {
    } else {
        assert(s.last() == s[i]);
    }
}

/// The type of backing memory that a buffer can have.
#[derive(Debug)]
#[non_exhaustive]
pub enum BufferMemory {
    /// The buffer is backed by normal memory, bound with a regular memory
    /// binding; the allocation itself belongs to the excluded allocation
    /// layer.
    Normal,
    /// The buffer is backed by sparse memory.
    Sparse,
    /// The buffer is backed by memory not managed by this library.
    External,
}

/// Error that can happen when allocating a new buffer.  The driver's own
/// error codes belong to the excluded driver layer.
#[derive(Clone, Debug, PartialEq, Eq, Structural)]
pub enum AllocateBufferError {
    /// Creating the buffer failed.
    CreateBuffer,
    /// Allocating memory for the buffer failed.
    AllocateMemory,
    /// Binding memory to the buffer failed.
    BindMemory,
}

impl AllocateBufferError {
    /// A human-readable description of the error.
    pub fn message(&self) -> (s: String)
        ensures
            s@ == (match self {
                AllocateBufferError::CreateBuffer => "creating the buffer failed"@,
                AllocateBufferError::AllocateMemory => "allocating memory for the buffer failed"@,
                AllocateBufferError::BindMemory => "binding memory to the buffer failed"@,
            }),
    {
        match self {
            AllocateBufferError::CreateBuffer => "creating the buffer failed".to_owned(),
            AllocateBufferError::AllocateMemory => "allocating memory for the buffer failed".to_owned(),
            AllocateBufferError::BindMemory => "binding memory to the buffer failed".to_owned(),
        }
    }
}

/// Flags specifying additional properties of a buffer.
#[derive(Clone, Copy, Debug, PartialEq, Eq, Hash, Structural)]
pub struct BufferCreateFlags {
    bits: u32,
}

impl BufferCreateFlags {
    /// The value with every flag unset.
    pub closed spec fn spec_empty() -> Self {
        BufferCreateFlags { bits: 0 }
    }

    /// Returns a value with every flag unset.
    pub fn empty() -> (r: Self)
        ensures
            r == Self::spec_empty(),
    {
        BufferCreateFlags { bits: 0 }
    }

    /// Returns `true` if every flag is unset.
    pub fn is_empty(&self) -> (r: bool)
        ensures
            r == (*self == Self::spec_empty()),
    {
        self.bits == 0
    }
}

/// Flags specifying how a buffer is going to be used.
#[derive(Clone, Copy, Debug, PartialEq, Eq, Hash, Structural)]
pub struct BufferUsage {
    bits: u32,
}

impl BufferUsage {
    /// The value with every usage unset.
    pub closed spec fn spec_empty() -> Self {
        BufferUsage { bits: 0 }
    }

    /// Returns a value with every usage unset.
    pub fn empty() -> (r: Self)
        ensures
            r == Self::spec_empty(),
    {
        BufferUsage { bits: 0 }
    }

    /// Returns `true` if every usage is unset.
    pub fn is_empty(&self) -> (r: bool)
        ensures
            r == (*self == Self::spec_empty()),
    {
        self.bits == 0
    }
}

/// The kind of handle through which external memory is shared with the
/// buffer.
#[derive(Clone, Copy, Debug, PartialEq, Eq, Hash, Structural)]
pub enum ExternalMemoryHandleType {
    /// A POSIX file descriptor handle that is only usable with Vulkan and
    /// compatible APIs.
    OpaqueFd,
    /// A Windows NT handle that is only usable with Vulkan and compatible
    /// APIs.
    OpaqueWin32,
    /// A Windows global share handle that is only usable with Vulkan and
    /// compatible APIs.
    OpaqueWin32Kmt,
    /// A Windows NT handle that refers to a Direct3D 11 texture resource.
    D3D11Texture,
    /// A Windows global share handle that refers to a Direct3D 11 texture
    /// resource.
    D3D11TextureKmt,
    /// A Windows NT handle that refers to a Direct3D 12 heap resource.
    D3D12Heap,
    /// A Windows NT handle that refers to a Direct3D 12 committed resource.
    D3D12Resource,
    /// A POSIX file descriptor handle to a Linux dma-buf.
    DmaBuf,
    /// A reference to an Android hardware buffer.
    AndroidHardwareBuffer,
    /// A pointer to memory allocated by the host.
    HostAllocation,
    /// A pointer to host memory mapped by a foreign device.
    HostMappedForeignMemory,
}

/// The buffer configuration to query in a physical device's external
/// buffer properties.
#[derive(Clone, Debug, PartialEq, Eq, Hash)]
pub struct ExternalBufferInfo {
    /// The flags that will be used.
    pub flags: BufferCreateFlags,
    /// The usage that the buffer will have.
    pub usage: BufferUsage,
    /// The external handle type that will be used with the buffer.
    pub handle_type: ExternalMemoryHandleType,
}

impl ExternalBufferInfo {
    /// Returns a default `ExternalBufferInfo` with the provided
    /// `handle_type`: no flags and no usage set.
    pub fn new(handle_type: ExternalMemoryHandleType) -> (r: Self)
        ensures
            r.flags == BufferCreateFlags::spec_empty(),
            r.usage == BufferUsage::spec_empty(),
            r.handle_type == handle_type,
    {
        ExternalBufferInfo { flags: BufferCreateFlags::empty(), usage: BufferUsage::empty(), handle_type }
    }

    /// The older name of [`Self::new`], kept for its callers.
    pub fn handle_type(handle_type: ExternalMemoryHandleType) -> (r: Self)
        ensures
            r.flags == BufferCreateFlags::spec_empty(),
            r.usage == BufferUsage::spec_empty(),
            r.handle_type == handle_type,
    {
        Self::new(handle_type)
    }
}

/// An enumeration of all valid index types.
#[derive(Clone, Copy, Debug, PartialEq, Eq, Hash, Structural)]
pub enum IndexType {
    /// Indices are 8-bit unsigned integers.
    U8,
    /// Indices are 16-bit unsigned integers.
    U16,
    /// Indices are 32-bit unsigned integers.
    U32,
}

impl IndexType {
    /// Returns the size in bytes of indices of this type.
    pub fn size(self) -> (n: DeviceSize)
        ensures
            self is U8 ==> n == 1,
            self is U16 ==> n == 2,
            self is U32 ==> n == 4,
    {
        match self {
            IndexType::U8 => 1,
            IndexType::U16 => 2,
            IndexType::U32 => 4,
        }
    }
}

/// The little-endian bytes of one 16-bit index.
pub open spec fn u16_le(x: u16) -> Seq<u8> {
    seq![(x & 0xff) as u8, ((x >> 8u16) & 0xff) as u8]
}

/// The little-endian bytes of one 32-bit index.
pub open spec fn u32_le(x: u32) -> Seq<u8> {
    seq![
        (x & 0xff) as u8,
        ((x >> 8u32) & 0xff) as u8,
        ((x >> 16u32) & 0xff) as u8,
        ((x >> 24u32) & 0xff) as u8,
    ]
}

/// The little-endian byte image of a sequence of 16-bit indices.
pub open spec fn bytes_of_u16s(v: Seq<u16>) -> Seq<u8>
    decreases v.len(),
{
    if v.len() == 0 {
        Seq::empty()
    } else {
        bytes_of_u16s(v.drop_last()) + u16_le(v.last())
    }
}

/// The little-endian byte image of a sequence of 32-bit indices.
pub open spec fn bytes_of_u32s(v: Seq<u32>) -> Seq<u8>
    decreases v.len(),
{
    if v.len() == 0 {
        Seq::empty()
    } else {
        bytes_of_u32s(v.drop_last()) + u32_le(v.last())
    }
}

/// A buffer holding index values, which index into buffers holding vertex
/// data.  Each variant carries its indices as plain values.
#[derive(Clone, Debug, PartialEq, Eq)]
pub enum IndexBuffer {
    /// An index buffer containing unsigned 8-bit indices.
    ///
    /// Devices support this kind of index only with a dedicated feature
    /// enabled; that negotiation belongs to the excluded device layer.
    U8(Vec<u8>),
    /// An index buffer containing unsigned 16-bit indices.
    U16(Vec<u16>),
    /// An index buffer containing unsigned 32-bit indices.
    U32(Vec<u32>),
}

impl IndexBuffer {
    /// The buffer's contents reinterpreted as bytes, each index in its
    /// little-endian byte order.
    pub open spec fn spec_bytes(self) -> Seq<u8> {
        match self {
            IndexBuffer::U8(v) => v@,
            IndexBuffer::U16(v) => bytes_of_u16s(v@),
            IndexBuffer::U32(v) => bytes_of_u32s(v@),
        }
    }

    /// The number of elements in the buffer.
    pub open spec fn spec_len(self) -> int {
        match self {
            IndexBuffer::U8(v) => v@.len() as int,
            IndexBuffer::U16(v) => v@.len() as int,
            IndexBuffer::U32(v) => v@.len() as int,
        }
    }

    /// Returns an `IndexType` value corresponding to the type of the
    /// buffer.
    pub fn index_type(&self) -> (t: IndexType)
        ensures
            self is U8 ==> t == IndexType::U8,
            self is U16 ==> t == IndexType::U16,
            self is U32 ==> t == IndexType::U32,
    {
        match self {
            IndexBuffer::U8(_) => IndexType::U8,
            IndexBuffer::U16(_) => IndexType::U16,
            IndexBuffer::U32(_) => IndexType::U32,
        }
    }

    /// Returns the buffer reinterpreted as a buffer of bytes.
    #[verifier::loop_isolation(false)]
    pub fn as_bytes(&self) -> (b: Vec<u8>)
        ensures
            b@ == self.spec_bytes(),
    {
        match self {
            IndexBuffer::U8(v) => {
                let mut b: Vec<u8> = Vec::new();
                let mut i: usize = 0;
                while i < v.len()
                    invariant
                        i <= v@.len(),
                        b@ == v@.take(i as int),
                    decreases v@.len() - i,
                {
                    b.push(v[i]);
                    proof {
                        assert(v@.take(i + 1).drop_last() =~= v@.take(i as int));
                        assert(b@ =~= v@.take(i + 1));
                    }
                    i += 1;
                }
                proof {
                    assert(v@.take(v@.len() as int) =~= v@);
                }
                b
            },
            IndexBuffer::U16(v) => {
                let mut b: Vec<u8> = Vec::new();
                let mut i: usize = 0;
                while i < v.len()
                    invariant
                        i <= v@.len(),
                        b@ == bytes_of_u16s(v@.take(i as int)),
                    decreases v@.len() - i,
                {
                    let x = v[i];
                    b.push((x & 0xff) as u8);
                    b.push(((x >> 8u16) & 0xff) as u8);
                    proof {
                        assert(v@.take(i + 1).drop_last() =~= v@.take(i as int));
                        assert(v@.take(i + 1).last() == x);
                        assert(b@ =~= bytes_of_u16s(v@.take(i as int)) + u16_le(x));
                    }
                    i += 1;
                }
                proof {
                    assert(v@.take(v@.len() as int) =~= v@);
                }
                b
            },
            IndexBuffer::U32(v) => {
                let mut b: Vec<u8> = Vec::new();
                let mut i: usize = 0;
                while i < v.len()
                    invariant
                        i <= v@.len(),
                        b@ == bytes_of_u32s(v@.take(i as int)),
                    decreases v@.len() - i,
                {
                    let x = v[i];
                    b.push((x & 0xff) as u8);
                    b.push(((x >> 8u32) & 0xff) as u8);
                    b.push(((x >> 16u32) & 0xff) as u8);
                    b.push(((x >> 24u32) & 0xff) as u8);
                    proof {
                        assert(v@.take(i + 1).drop_last() =~= v@.take(i as int));
                        assert(v@.take(i + 1).last() == x);
                        assert(b@ =~= bytes_of_u32s(v@.take(i as int)) + u32_le(x));
                    }
                    i += 1;
                }
                proof {
                    assert(v@.take(v@.len() as int) =~= v@);
                }
                b
            },
        }
    }

    /// Returns the number of elements in the buffer.
    pub fn len(&self) -> (n: DeviceSize)
        ensures
            n == self.spec_len(),
    {
        match self {
            IndexBuffer::U8(v) => v.len() as DeviceSize,
            IndexBuffer::U16(v) => v.len() as DeviceSize,
            IndexBuffer::U32(v) => v.len() as DeviceSize,
        }
    }
}

impl From<Vec<u8>> for IndexBuffer {
    /// Wraps 8-bit indices as an index buffer.
    fn from(value: Vec<u8>) -> (r: Self) {
        Self::U8(value)
    }
}

impl vstd::std_specs::convert::FromSpecImpl<Vec<u8>> for IndexBuffer {
    open spec fn obeys_from_spec() -> bool {
        true
    }

    open spec fn from_spec(value: Vec<u8>) -> IndexBuffer {
        IndexBuffer::U8(value)
    }
}

impl From<Vec<u16>> for IndexBuffer {
    /// Wraps 16-bit indices as an index buffer.
    fn from(value: Vec<u16>) -> (r: Self) {
        Self::U16(value)
    }
}

impl vstd::std_specs::convert::FromSpecImpl<Vec<u16>> for IndexBuffer {
    open spec fn obeys_from_spec() -> bool {
        true
    }

    open spec fn from_spec(value: Vec<u16>) -> IndexBuffer {
        IndexBuffer::U16(value)
    }
}

impl From<Vec<u32>> for IndexBuffer {
    /// Wraps 32-bit indices as an index buffer.
    fn from(value: Vec<u32>) -> (r: Self) {
        Self::U32(value)
    }
}

impl vstd::std_specs::convert::FromSpecImpl<Vec<u32>> for IndexBuffer {
    open spec fn obeys_from_spec() -> bool {
        true
    }

    open spec fn from_spec(value: Vec<u32>) -> IndexBuffer {
        IndexBuffer::U32(value)
    }
}

} // verus!

