//! Overlap-set contents, the exact payload of insertion rejections, the
//! non-overlap invariant across mixed operations, and no-op unmapping.

use vmem::elf::Segment;
use vmem::vm::{Error, VirtualMemory};

fn three_small_segments() -> VirtualMemory {
    let segments = vec![
        Segment {
            start: 10,
            protection: 0.into(),
            data: vec![0; 3],
        },
        Segment {
            start: 20,
            protection: 0.into(),
            data: vec![0; 3],
        },
        Segment {
            start: 30,
            protection: 0.into(),
            data: vec![0; 3],
        },
    ];
    VirtualMemory::try_from_iter(segments).unwrap()
}

#[test]
fn overlap_list_contents() {
    let vm = three_small_segments();

    assert_eq!(vm.get_overlapping(12, 10), vec![10, 20]);
    assert_eq!(vm.get_overlapping(0, 100), vec![10, 20, 30]);
    assert_eq!(vm.get_overlapping(13, 8), vec![20]);
    assert_eq!(vm.get_overlapping(0, 10), Vec::<usize>::new());
}

#[test]
fn insert_overlap_error_payload() {
    let mut vm = three_small_segments();

    match vm.insert(Segment {
        start: 12,
        protection: 0.into(),
        data: vec![0; 10],
    }) {
        Err(Error::InsertOverlap { new, overlapping }) => {
            assert_eq!(new, 12);
            assert_eq!(overlapping, vec![10, 20]);
        }
        other => panic!("expected an insert overlap, got {:?}", other),
    }

    // the rejected insertion changed nothing
    assert_eq!(vm.segment_count(), 3);
    assert_eq!(vm.segment_at(0).start, 10);
    assert_eq!(vm.segment_at(1).start, 20);
    assert_eq!(vm.segment_at(2).start, 30);
}

#[test]
fn build_reports_first_conflict() {
    let segments = vec![
        Segment {
            start: 10,
            protection: 0.into(),
            data: vec![0; 3],
        },
        Segment {
            start: 11,
            protection: 0.into(),
            data: vec![0; 4],
        },
    ];

    match VirtualMemory::try_from_iter(segments) {
        Err(Error::InsertOverlap { new, overlapping }) => {
            assert_eq!(new, 11);
            assert_eq!(overlapping, vec![10]);
        }
        other => panic!("expected an insert overlap, got {:?}", other),
    }
}

#[test]
fn segments_stay_disjoint_after_mixed_operations() {
    let mut vm = three_small_segments();

    vm.unmap(11, 10).unwrap();
    vm.insert(Segment {
        start: 14,
        protection: 0.into(),
        data: vec![0; 4],
    })
    .unwrap();
    vm.unmap(30, 1).unwrap();

    // stored segments are in ascending order and never touch
    let count = vm.segment_count();
    assert!(count > 0);
    for i in 0..count - 1 {
        let here = vm.segment_at(i);
        let next = vm.segment_at(i + 1);
        assert!(here.start + here.data.len() <= next.start);
    }
    for i in 0..count {
        assert!(!vm.segment_at(i).data.is_empty());
    }
}

#[test]
fn unmap_outside_changes_nothing() {
    let mut vm = VirtualMemory::default();

    vm.insert(Segment {
        start: 1234,
        protection: 0b111.into(),
        data: vec![9, 8, 7],
    })
    .unwrap();

    assert!(vm.unmap(0, 1234).is_ok());
    assert!(vm.unmap(1237, 100).is_ok());

    assert_eq!(vm.segment_count(), 1);
    let segment = vm.segment_at(0);
    assert_eq!(segment.start, 1234);
    assert_eq!(segment.data, &[9, 8, 7]);
}

#[test]
fn write_read_round_trip_inside_segment() {
    let mut vm = VirtualMemory::default();

    vm.insert(Segment {
        start: 500,
        protection: 0b110.into(),
        data: vec![0; 16],
    })
    .unwrap();

    let payload = [42u8, 43, 44, 45, 46];
    vm.write_slice(505, &payload).unwrap();
    let buf = vm.read_slice(505, 5).unwrap();
    assert_eq!(buf, payload);

    // bytes around the written range are untouched
    assert_eq!(vm.read(504).unwrap(), 0);
    assert_eq!(vm.read(510).unwrap(), 0);
}

#[test]
fn unmap_empty_range_splits_at_an_interior_point() {
    // the overlap set of an empty range still holds the covering segment,
    // so the single-segment resolution splits it at the point
    let mut vm = VirtualMemory::default();

    vm.insert(Segment {
        start: 100,
        protection: 0b111.into(),
        data: vec![1, 2, 3, 4],
    })
    .unwrap();

    vm.unmap(102, 0).unwrap();

    assert_eq!(vm.segment_count(), 2);
    assert_eq!(vm.segment_at(0).start, 100);
    assert_eq!(vm.segment_at(0).data, &[1, 2]);
    assert_eq!(vm.segment_at(1).start, 102);
    assert_eq!(vm.segment_at(1).data, &[3, 4]);

    // every byte is still mapped, with its value
    for (addr, want) in [(100, 1), (101, 2), (102, 3), (103, 4)] {
        assert_eq!(vm.read(addr).unwrap(), want);
    }
}

#[test]
fn segment_at_the_end_of_the_address_range() {
    let mut vm = VirtualMemory::default();

    vm.insert(Segment {
        start: usize::MAX - 2,
        protection: 0b110.into(),
        data: vec![1, 2],
    })
    .unwrap();

    assert_eq!(vm.read(usize::MAX - 1).unwrap(), 2);
    assert!(matches!(
        vm.read(usize::MAX),
        Err(Error::UnmappedAddress(..))
    ));

    vm.write(usize::MAX - 2, 9).unwrap();
    assert_eq!(vm.read(usize::MAX - 2).unwrap(), 9);
}

#[test]
fn protection_zero_rejects_byte_access() {
    let mut vm = VirtualMemory::default();

    vm.insert(Segment {
        start: 64,
        protection: 0.into(),
        data: vec![5, 6],
    })
    .unwrap();

    assert!(matches!(vm.read(64), Err(Error::Protection { .. })));
    assert!(matches!(vm.write(64, 1), Err(Error::Protection { .. })));

    // the underlying bytes were left alone
    assert_eq!(vm.segment_at(0).data, &[5, 6]);
}
