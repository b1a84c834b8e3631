use vulkano::buffer::BufferState;
use vulkano::range_map::{RangeEntry, RangeMap};
use vulkano::sync::{AccessConflict, AccessError, CurrentAccess};

#[test]
fn host_write_excludes_readers_until_unlock() {
    let mut state = BufferState::new(256);
    assert_eq!(state.check_cpu_write(0..256), Ok(()));
    state.cpu_write_lock(0..256);
    assert_eq!(state.check_cpu_read(0..256), Err(AccessConflict::HostWrite));
    assert_eq!(state.check_gpu_read(0..256), Err(AccessError::AlreadyInUse));
    state.cpu_write_unlock(0..256);
    assert_eq!(state.check_cpu_read(0..256), Ok(()));
    assert_eq!(state.check_gpu_read(0..256), Ok(()));
}

#[test]
fn disjoint_ranges_do_not_interfere() {
    let mut state = BufferState::new(1000);
    state.cpu_write_lock(0..100);
    // The lock on [0, 100) changes nothing that a disjoint query reports.
    assert_eq!(state.check_cpu_write(200..300), Ok(()));
    assert_eq!(state.check_cpu_read(200..300), Ok(()));
    assert_eq!(state.check_gpu_read(200..300), Ok(()));
    assert_eq!(state.check_gpu_write(200..300), Ok(()));
    assert_eq!(
        state.current_access(200),
        CurrentAccess::Shared {
            cpu_reads: 0,
            gpu_reads: 0,
        }
    );
    state.cpu_write_unlock(0..100);
}

#[test]
fn split_at_is_idempotent() {
    let mut once: RangeMap<u32> = RangeMap::new(100, 7);
    once.split_at(30);
    let mut twice: RangeMap<u32> = RangeMap::new(100, 7);
    twice.split_at(30);
    twice.split_at(30);
    assert_eq!(once.num_entries(), 2);
    assert_eq!(twice.num_entries(), 2);
    for i in 0..2 {
        assert_eq!(once.entry(i), twice.entry(i));
    }
    assert_eq!(
        once.entry(0),
        RangeEntry {
            start: 0,
            end: 30,
            value: 7,
        }
    );
    assert_eq!(
        once.entry(1),
        RangeEntry {
            start: 30,
            end: 100,
            value: 7,
        }
    );
    // A split at an outer boundary or outside the domain changes nothing.
    twice.split_at(0);
    twice.split_at(100);
    twice.split_at(2000);
    assert_eq!(twice.num_entries(), 2);
}

#[test]
fn device_reader_counting() {
    let n = 3;
    let mut state = BufferState::new(64);
    for i in 0..n {
        assert_eq!(state.check_gpu_read(16..48), Ok(()));
        state.gpu_read_lock(16..48);
        assert_eq!(
            state.current_access(20),
            CurrentAccess::Shared {
                cpu_reads: 0,
                gpu_reads: i + 1,
            }
        );
    }
    for i in (0..n).rev() {
        state.gpu_read_unlock(16..48);
        assert_eq!(
            state.current_access(20),
            CurrentAccess::Shared {
                cpu_reads: 0,
                gpu_reads: i,
            }
        );
    }
    assert_eq!(
        state.current_access(47),
        CurrentAccess::Shared {
            cpu_reads: 0,
            gpu_reads: 0,
        }
    );
}

#[test]
fn device_write_upgrade_and_downgrade() {
    let mut state = BufferState::new(32);
    state.gpu_read_lock(0..32);
    assert_eq!(
        state.current_access(0),
        CurrentAccess::Shared {
            cpu_reads: 0,
            gpu_reads: 1,
        }
    );
    state.gpu_write_lock(0..32);
    assert_eq!(
        state.current_access(0),
        CurrentAccess::GpuExclusive {
            gpu_reads: 1,
            gpu_writes: 1,
        }
    );
    state.gpu_write_lock(0..32);
    assert_eq!(
        state.current_access(0),
        CurrentAccess::GpuExclusive {
            gpu_reads: 1,
            gpu_writes: 2,
        }
    );
    state.gpu_write_unlock(0..32);
    assert_eq!(
        state.current_access(0),
        CurrentAccess::GpuExclusive {
            gpu_reads: 1,
            gpu_writes: 1,
        }
    );
    state.gpu_write_unlock(0..32);
    assert_eq!(
        state.current_access(0),
        CurrentAccess::Shared {
            cpu_reads: 0,
            gpu_reads: 1,
        }
    );
    state.gpu_read_unlock(0..32);
}

#[test]
fn overlapping_device_read_blocked_by_host_write() {
    let mut state = BufferState::new(1024);
    assert_eq!(state.check_cpu_write(0..512), Ok(()));
    state.cpu_write_lock(0..512);
    assert_eq!(state.check_gpu_read(256..768), Err(AccessError::AlreadyInUse));
    state.cpu_write_unlock(0..512);
    assert_eq!(state.check_gpu_read(256..768), Ok(()));
    state.gpu_read_lock(256..768);
    assert_eq!(
        state.current_access(256),
        CurrentAccess::Shared {
            cpu_reads: 0,
            gpu_reads: 1,
        }
    );
    assert_eq!(
        state.current_access(767),
        CurrentAccess::Shared {
            cpu_reads: 0,
            gpu_reads: 1,
        }
    );
    assert_eq!(
        state.current_access(255),
        CurrentAccess::Shared {
            cpu_reads: 0,
            gpu_reads: 0,
        }
    );
    assert_eq!(
        state.current_access(768),
        CurrentAccess::Shared {
            cpu_reads: 0,
            gpu_reads: 0,
        }
    );
}

#[test]
fn concurrent_disjoint_host_writes_both_succeed() {
    let mut state = BufferState::new(1000);
    assert_eq!(state.check_cpu_write(0..100), Ok(()));
    state.cpu_write_lock(0..100);
    assert_eq!(state.check_cpu_write(900..1000), Ok(()));
    state.cpu_write_lock(900..1000);
    assert_eq!(state.current_access(0), CurrentAccess::CpuExclusive);
    assert_eq!(state.current_access(999), CurrentAccess::CpuExclusive);
    assert_eq!(
        state.current_access(500),
        CurrentAccess::Shared {
            cpu_reads: 0,
            gpu_reads: 0,
        }
    );
    state.cpu_write_unlock(0..100);
    state.cpu_write_unlock(900..1000);
    assert_eq!(state.check_cpu_write(0..1000), Ok(()));
}

#[test]
fn every_conflict_kind_is_reported() {
    let mut state = BufferState::new(100);
    state.cpu_read_lock(0..50);
    assert_eq!(state.check_cpu_write(0..100), Err(AccessConflict::HostRead));
    assert_eq!(state.check_cpu_read(0..100), Ok(()));
    state.cpu_read_unlock(0..50);

    state.gpu_read_lock(0..50);
    assert_eq!(state.check_cpu_write(0..100), Err(AccessConflict::DeviceRead));
    assert_eq!(state.check_gpu_write(0..100), Err(AccessError::AlreadyInUse));
    state.gpu_read_unlock(0..50);

    state.gpu_write_lock(0..50);
    assert_eq!(state.check_cpu_write(0..100), Err(AccessConflict::DeviceWrite));
    assert_eq!(state.check_cpu_read(0..100), Err(AccessConflict::DeviceWrite));
    state.gpu_write_unlock(0..50);

    state.cpu_write_lock(0..50);
    assert_eq!(state.check_cpu_write(0..100), Err(AccessConflict::HostWrite));
    assert_eq!(state.check_cpu_read(0..100), Err(AccessConflict::HostWrite));
    state.cpu_write_unlock(0..50);

    assert_eq!(state.check_cpu_write(0..100), Ok(()));
}

#[test]
fn first_conflict_in_byte_order_wins() {
    let mut state = BufferState::new(1000);
    state.cpu_read_lock(500..600);
    state.gpu_write_lock(100..200);
    // Scanning from the low end, the device write on [100, 200) is hit
    // before the host read on [500, 600).
    assert_eq!(state.check_cpu_write(0..1000), Err(AccessConflict::DeviceWrite));
    // A query starting past it reports the host read instead.
    assert_eq!(state.check_cpu_write(300..1000), Err(AccessConflict::HostRead));
    state.gpu_write_unlock(100..200);
    state.cpu_read_unlock(500..600);
}

#[test]
fn empty_range_never_conflicts() {
    let mut state = BufferState::new(10);
    state.cpu_write_lock(0..10);
    assert_eq!(state.check_cpu_read(5..5), Ok(()));
    assert_eq!(state.check_cpu_write(5..5), Ok(()));
    assert_eq!(state.check_gpu_read(5..5), Ok(()));
    assert_eq!(state.check_gpu_write(5..5), Ok(()));
    state.cpu_write_unlock(0..10);
}

#[test]
fn host_read_counting() {
    let mut state = BufferState::new(16);
    assert_eq!(state.check_cpu_read(0..16), Ok(()));
    state.cpu_read_lock(0..16);
    state.cpu_read_lock(0..16);
    assert_eq!(
        state.current_access(3),
        CurrentAccess::Shared {
            cpu_reads: 2,
            gpu_reads: 0,
        }
    );
    // Host reads coexist with device reads, but not with a host write.
    assert_eq!(state.check_gpu_read(0..16), Ok(()));
    assert_eq!(state.check_cpu_write(0..16), Err(AccessConflict::HostRead));
    state.cpu_read_unlock(0..16);
    state.cpu_read_unlock(0..16);
    assert_eq!(state.check_cpu_write(0..16), Ok(()));
}

#[test]
fn partial_overlap_splits_only_what_it_must() {
    let mut map: RangeMap<u8> = RangeMap::new(100, 0);
    map.split_at(40);
    map.split_at(60);
    assert_eq!(map.num_entries(), 3);
    assert_eq!(map.value_at(0), 0);
    map.set_value(1, 9);
    assert_eq!(map.value_at(39), 0);
    assert_eq!(map.value_at(40), 9);
    assert_eq!(map.value_at(59), 9);
    assert_eq!(map.value_at(60), 0);
}
