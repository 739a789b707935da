//! The virtual-memory tests: lookup boundaries, insertion and overlap
//! rejection, byte and slice access with protection, and range unmapping.

use vmem::elf::Segment;
use vmem::vm::{Error, VirtualMemory};

#[test]
fn last_possible() {
    let segments = vec![
        Segment {
            start: 123,
            protection: 0.into(),
            data: vec![0; 10],
        },
        Segment {
            start: 140,
            protection: 0.into(),
            data: vec![0; 10],
        },
    ];

    let vm = VirtualMemory::try_from_iter(segments).unwrap();

    assert!(matches!(
        vm.get_segment(122),
        Err(Error::UnmappedAddress(..))
    ));
    assert_eq!(vm.get_segment(123).unwrap().start, 123);
    assert_eq!(vm.get_segment(123 + 1).unwrap().start, 123);
    assert_eq!(vm.get_segment(123 + 9).unwrap().start, 123);
    assert!(matches!(
        vm.get_segment(123 + 10),
        Err(Error::UnmappedAddress(..))
    ));
    assert_eq!(vm.get_segment(140).unwrap().start, 140);
    assert_eq!(vm.get_segment(140 + 5).unwrap().start, 140);
    assert_eq!(vm.get_segment(140 + 9).unwrap().start, 140);
    assert!(matches!(
        vm.get_segment(140 + 10),
        Err(Error::UnmappedAddress(..))
    ));
}

#[test]
fn insert_empty() {
    let mut vm = VirtualMemory::default();

    vm.insert(Segment {
        start: 0,
        protection: 0.into(),
        data: vec![],
    })
    .unwrap();

    assert!(vm.segment_count() == 0);
}

#[test]
fn insert() {
    let mut vm = VirtualMemory::default();

    let segments = vec![
        Segment {
            start: 0,
            protection: 0.into(),
            data: vec![0; 10],
        },
        Segment {
            start: 10,
            protection: 0.into(),
            data: vec![0; 10],
        },
        Segment {
            start: 21,
            protection: 0.into(),
            data: vec![0; 10],
        },
    ];

    for segment in segments {
        vm.insert(segment).unwrap();
    }

    assert_eq!(vm.segment_count(), 3);
}

#[test]
fn insert_overlap_left() {
    let mut vm = VirtualMemory::default();

    vm.insert(Segment {
        start: 0,
        protection: 0.into(),
        data: vec![0; 10],
    })
    .unwrap();

    assert!(matches!(
        vm.insert(Segment {
            start: 9,
            protection: 0.into(),
            data: vec![0; 10],
        }),
        Err(Error::InsertOverlap { .. })
    ));
}

#[test]
fn insert_overlap_right() {
    let mut vm = VirtualMemory::default();

    vm.insert(Segment {
        start: 9,
        protection: 0.into(),
        data: vec![0; 10],
    })
    .unwrap();

    assert!(matches!(
        vm.insert(Segment {
            start: 0,
            protection: 0.into(),
            data: vec![0; 10],
        }),
        Err(Error::InsertOverlap { .. })
    ));
}

#[test]
fn insert_overlap_inside() {
    let mut vm = VirtualMemory::default();

    vm.insert(Segment {
        start: 1,
        protection: 0.into(),
        data: vec![0; 9],
    })
    .unwrap();

    assert!(matches!(
        vm.insert(Segment {
            start: 0,
            protection: 0.into(),
            data: vec![0; 10],
        }),
        Err(Error::InsertOverlap { .. })
    ));
}

#[test]
fn insert_overlap_left_and_right() {
    let mut vm = VirtualMemory::default();

    vm.insert(Segment {
        start: 0,
        protection: 0.into(),
        data: vec![0; 10],
    })
    .unwrap();

    assert!(matches!(
        vm.insert(Segment {
            start: 1,
            protection: 0.into(),
            data: vec![0; 9],
        }),
        Err(Error::InsertOverlap { .. })
    ));
}

#[test]
fn insert_multi_left_and_right() {
    let mut vm = VirtualMemory::default();

    let segments = vec![
        Segment {
            start: 0,
            protection: 0.into(),
            data: vec![0; 10],
        },
        Segment {
            start: 20,
            protection: 0.into(),
            data: vec![0; 10],
        },
    ];

    for segment in segments {
        vm.insert(segment).unwrap();
    }

    assert!(matches!(
        vm.insert(Segment {
            start: 9,
            protection: 0.into(),
            data: vec![0; 11],
        }),
        Err(Error::InsertOverlap { .. })
    ));
}

#[test]
fn read() {
    let mut vm = VirtualMemory::default();

    vm.insert(Segment {
        start: 1234,
        protection: 0b111.into(),
        data: vec![111],
    })
    .unwrap();

    assert_eq!(vm.read(1234).unwrap(), 111);
}

#[test]
fn read_protection() {
    let mut vm = VirtualMemory::default();

    vm.insert(Segment {
        start: 1234,
        protection: 0.into(),
        data: vec![111],
    })
    .unwrap();

    assert!(matches!(vm.read(1234), Err(Error::Protection { .. })));
}

#[test]
fn read_unmapped() {
    let vm = VirtualMemory::default();

    assert!(matches!(vm.read(1234), Err(Error::UnmappedAddress(..))));
}

#[test]
fn read_slice() {
    let mut vm = VirtualMemory::default();

    vm.insert(Segment {
        start: 1234,
        protection: 0b111.into(),
        data: vec![1, 2, 3, 4, 5, 6],
    })
    .unwrap();

    let buf = vm.read_slice(1234 + 1, 3).unwrap();

    assert_eq!(buf, [2, 3, 4]);
}

#[test]
fn read_slice_protection() {
    let mut vm = VirtualMemory::default();

    vm.insert(Segment {
        start: 1234,
        protection: 0.into(),
        data: vec![1, 2, 3, 4, 5, 6],
    })
    .unwrap();

    assert!(matches!(
        vm.read_slice(1234 + 1, 3),
        Err(Error::Protection { .. })
    ));
}

#[test]
fn read_slice_unmapped() {
    let vm = VirtualMemory::default();

    assert!(matches!(
        vm.read_slice(1234, 3),
        Err(Error::UnmappedAddress(..))
    ));
}

#[test]
fn read_slice_oob() {
    let mut vm = VirtualMemory::default();

    vm.insert(Segment {
        start: 1234,
        protection: 0b111.into(),
        data: vec![1, 2, 3, 4, 5, 6],
    })
    .unwrap();

    assert!(matches!(
        vm.read_slice(1234, 7),
        Err(Error::SliceOutOfBounds { .. }),
    ));
}

#[test]
fn write() {
    let mut vm = VirtualMemory::default();

    vm.insert(Segment {
        start: 1234,
        protection: 0b111.into(),
        data: vec![0],
    })
    .unwrap();

    vm.write(1234, 1).unwrap();
    assert!(matches!(vm.read(1234), Ok(1)));
}

#[test]
fn write_protection() {
    let mut vm = VirtualMemory::default();

    vm.insert(Segment {
        start: 1234,
        protection: 0b100.into(),
        data: vec![0],
    })
    .unwrap();

    assert!(matches!(vm.write(1234, 1), Err(Error::Protection { .. })));
    assert!(matches!(vm.read(1234), Ok(0)));
}

#[test]
fn write_unmapped() {
    let mut vm = VirtualMemory::default();

    assert!(matches!(vm.write(1234, 1), Err(Error::UnmappedAddress(..))));
}

#[test]
fn write_slice() {
    let mut vm = VirtualMemory::default();

    vm.insert(Segment {
        start: 1234,
        protection: 0b111.into(),
        data: vec![0; 6],
    })
    .unwrap();

    let data = "asdasd".as_bytes();

    vm.write_slice(1234, data).unwrap();

    let buf = vm.read_slice(1234, 6).unwrap();

    assert_eq!(buf, data);
}

#[test]
fn write_slice_protection() {
    let mut vm = VirtualMemory::default();

    vm.insert(Segment {
        start: 1234,
        protection: 0b100.into(),
        data: vec![0; 6],
    })
    .unwrap();

    let data = "asdasd".as_bytes();

    assert!(matches!(
        vm.write_slice(1234, data),
        Err(Error::Protection { .. })
    ));

    let buf = vm.read_slice(1234, 6).unwrap();

    assert_eq!(buf, [0; 6]);
}

#[test]
fn write_slice_unmapped() {
    let mut vm = VirtualMemory::default();

    let data = "asdasd".as_bytes();

    assert!(matches!(
        vm.write_slice(1234, data),
        Err(Error::UnmappedAddress { .. })
    ));
}

#[test]
fn write_slice_oob() {
    let mut vm = VirtualMemory::default();

    vm.insert(Segment {
        start: 1234,
        protection: 0b111.into(),
        data: vec![0; 6],
    })
    .unwrap();

    let data = &[1; 7];

    assert!(matches!(
        vm.write_slice(1234, data),
        Err(Error::SliceOutOfBounds { .. })
    ));

    let buf = vm.read_slice(1234, 6).unwrap();

    assert_eq!(buf, [0; 6]);
}

#[test]
fn no_overlaps() {
    let mut vm = VirtualMemory::default();

    vm.insert(Segment {
        start: 1234,
        protection: 0b111.into(),
        data: vec![0; 6],
    })
    .unwrap();

    let overlapping = vm.get_overlapping(0, 1234);

    assert_eq!(overlapping.len(), 0);
}

#[test]
fn single_overlap() {
    let mut vm = VirtualMemory::default();

    vm.insert(Segment {
        start: 1234,
        protection: 0b111.into(),
        data: vec![0; 6],
    })
    .unwrap();

    let overlapping = vm.get_overlapping(0, 1235);
    assert_eq!(overlapping.len(), 1);

    let overlapping = vm.get_overlapping(1234 + 6 - 1, 10);
    assert_eq!(overlapping.len(), 1);
}

#[test]
fn multiple_overlap() {
    let mut vm = VirtualMemory::default();

    let segments = vec![
        Segment {
            start: 10,
            protection: 0.into(),
            data: vec![0; 3],
        },
        Segment {
            start: 20,
            protection: 0.into(),
            data: vec![0; 3],
        },
        Segment {
            start: 30,
            protection: 0.into(),
            data: vec![0; 3],
        },
    ];

    for segment in segments {
        vm.insert(segment).unwrap();
    }

    let overlapping = vm.get_overlapping(12, 10);
    assert_eq!(overlapping.len(), 2);

    let overlapping = vm.get_overlapping(0, 21);
    assert_eq!(overlapping.len(), 2);

    let overlapping = vm.get_overlapping(22, 10);
    assert_eq!(overlapping.len(), 2);

    let overlapping = vm.get_overlapping(19, 100);
    assert_eq!(overlapping.len(), 2);

    let overlapping = vm.get_overlapping(20, 12);
    assert_eq!(overlapping.len(), 2);

    let overlapping = vm.get_overlapping(0, 100);
    assert_eq!(overlapping.len(), 3);

    let overlapping = vm.get_overlapping(10, 100);
    assert_eq!(overlapping.len(), 3);

    let overlapping = vm.get_overlapping(12, 100);
    assert_eq!(overlapping.len(), 3);

    let overlapping = vm.get_overlapping(12, 32 - 12 + 1);
    assert_eq!(overlapping.len(), 3);
}

#[test]
fn unmap_none() {
    let mut vm = VirtualMemory::default();
    assert!(vm.unmap(1234, 1234).is_ok());
}

#[test]
fn unmap_exact() {
    let mut vm = VirtualMemory::default();

    vm.insert(Segment {
        start: 1234,
        protection: 0b111.into(),
        data: vec![0; 6],
    })
    .unwrap();

    assert!(vm.unmap(1234, 6).is_ok());
    assert_eq!(vm.segment_count(), 0);
}

#[test]
fn unmap_overlap_whole() {
    let mut vm = VirtualMemory::default();

    vm.insert(Segment {
        start: 1234,
        protection: 0b111.into(),
        data: vec![0; 6],
    })
    .unwrap();

    assert!(vm.unmap(0, 10000).is_ok());
    assert_eq!(vm.segment_count(), 0);
}

#[test]
fn unmap_head() {
    let mut vm = VirtualMemory::default();

    vm.insert(Segment {
        start: 1234,
        protection: 0b111.into(),
        data: vec![1, 2, 3, 4, 5, 6],
    })
    .unwrap();

    assert!(vm.unmap(0, 1234 + 5).is_ok());
    assert_eq!(vm.segment_count(), 1);
    let segment = vm.segment_at(0);
    assert_eq!(segment.start, 1234 + 5);
    assert_eq!(segment.data, &[6]);
}

#[test]
fn unmap_tail() {
    let mut vm = VirtualMemory::default();

    vm.insert(Segment {
        start: 1234,
        protection: 0b111.into(),
        data: vec![1, 2, 3, 4, 5, 6],
    })
    .unwrap();

    assert!(vm.unmap(1234 + 5, 1000).is_ok());
    assert_eq!(vm.segment_count(), 1);
    let segment = vm.segment_at(0);
    assert_eq!(segment.start, 1234);
    assert_eq!(segment.data, &[1, 2, 3, 4, 5]);
}

#[test]
fn unmap_inside() {
    let mut vm = VirtualMemory::default();

    vm.insert(Segment {
        start: 1234,
        protection: 0b111.into(),
        data: vec![1, 2, 3, 4, 5, 6],
    })
    .unwrap();

    assert!(vm.unmap(1234 + 2, 2).is_ok());
    assert_eq!(vm.segment_count(), 2);

    let segment = vm.segment_at(0);
    assert_eq!(segment.start, 1234);
    assert_eq!(segment.data, &[1, 2]);

    let segment = vm.segment_at(1);
    assert_eq!(segment.start, 1234 + 4);
    assert_eq!(segment.data, &[5, 6]);
}

#[test]
fn unmap_multiple_exact() {
    let mut vm = VirtualMemory::default();

    let segments = vec![
        Segment {
            start: 10,
            protection: 0.into(),
            data: vec![0; 3],
        },
        Segment {
            start: 20,
            protection: 0.into(),
            data: vec![0; 3],
        },
        Segment {
            start: 30,
            protection: 0.into(),
            data: vec![0; 3],
        },
    ];

    for segment in segments {
        vm.insert(segment).unwrap();
    }

    assert!(vm.unmap(10, 23).is_ok());
    assert_eq!(vm.segment_count(), 0);
}

#[test]
fn unmap_multiple_head() {
    let mut vm = VirtualMemory::default();

    let segments = vec![
        Segment {
            start: 10,
            protection: 0.into(),
            data: vec![1, 2, 3],
        },
        Segment {
            start: 20,
            protection: 0.into(),
            data: vec![4, 5, 6],
        },
        Segment {
            start: 30,
            protection: 0.into(),
            data: vec![7, 8, 9],
        },
    ];

    for segment in segments {
        vm.insert(segment).unwrap();
    }

    assert!(vm.unmap(0, 22).is_ok());
    assert_eq!(vm.segment_count(), 2);

    let segment = vm.segment_at(0);
    assert_eq!(segment.start, 22);
    assert_eq!(segment.data, &[6]);

    let segment = vm.segment_at(1);
    assert_eq!(segment.start, 30);
    assert_eq!(segment.data, &[7, 8, 9]);
}

#[test]
fn unmap_multiple_tail() {
    let mut vm = VirtualMemory::default();

    let segments = vec![
        Segment {
            start: 10,
            protection: 0.into(),
            data: vec![1, 2, 3],
        },
        Segment {
            start: 20,
            protection: 0.into(),
            data: vec![4, 5, 6],
        },
        Segment {
            start: 30,
            protection: 0.into(),
            data: vec![7, 8, 9],
        },
    ];

    for segment in segments {
        vm.insert(segment).unwrap();
    }

    assert!(vm.unmap(0, 12).is_ok());
    assert_eq!(vm.segment_count(), 3);

    let segment = vm.segment_at(0);
    assert_eq!(segment.start, 12);
    assert_eq!(segment.data, &[3]);

    let segment = vm.segment_at(1);
    assert_eq!(segment.start, 20);
    assert_eq!(segment.data, &[4, 5, 6]);

    let segment = vm.segment_at(2);
    assert_eq!(segment.start, 30);
    assert_eq!(segment.data, &[7, 8, 9]);
}
