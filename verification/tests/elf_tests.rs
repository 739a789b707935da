//! Parsing executable images: both address widths and byte orders, region
//! extraction with zero-fill, skipped entries, and each parse fault.

use vmem::elf::{parse_elf, Elf, Error, Usize};

fn push_u16_le(v: &mut Vec<u8>, x: u16) {
    v.extend_from_slice(&x.to_le_bytes());
}

fn push_u32_le(v: &mut Vec<u8>, x: u32) {
    v.extend_from_slice(&x.to_le_bytes());
}

fn push_u64_le(v: &mut Vec<u8>, x: u64) {
    v.extend_from_slice(&x.to_le_bytes());
}

/// A minimal 64-bit little-endian image: one program-table entry, placed
/// right after the header, whose 4 file bytes start at offset 120.
fn image_64_le(seg_type: u32, flags: u32, filesz: u64, memsz: u64) -> Vec<u8> {
    let mut v = vec![0x7f, b'E', b'L', b'F', 2, 1, 1, 0, 0];
    v.extend_from_slice(&[0; 7]); // padding
    push_u16_le(&mut v, 2); // type
    push_u16_le(&mut v, 0xf3); // machine
    push_u32_le(&mut v, 1); // image version
    push_u64_le(&mut v, 0x1000); // entry
    push_u64_le(&mut v, 64); // program table offset
    push_u64_le(&mut v, 0); // section table offset
    push_u32_le(&mut v, 0); // flags
    push_u16_le(&mut v, 64); // header size
    push_u16_le(&mut v, 56); // entry size
    push_u16_le(&mut v, 1); // entry count
    v.extend_from_slice(&[0; 6]); // section counts, unread
    assert_eq!(v.len(), 64);

    push_u32_le(&mut v, seg_type);
    push_u32_le(&mut v, flags);
    push_u64_le(&mut v, 120); // file offset
    push_u64_le(&mut v, 0x1000); // virtual address
    push_u64_le(&mut v, 0); // physical address
    push_u64_le(&mut v, filesz);
    push_u64_le(&mut v, memsz);
    push_u64_le(&mut v, 0x1000); // alignment
    assert_eq!(v.len(), 120);

    v.extend_from_slice(&[0xaa, 0xbb, 0xcc, 0xdd]);
    v
}

#[test]
fn parse_64_little_endian() {
    let bytes = image_64_le(1, 0b101, 4, 8);
    let elf: Elf = parse_elf(&bytes).unwrap();

    assert_eq!(elf.entry, Usize::U64(0x1000));
    assert_eq!(elf.segments.len(), 1);

    let seg = &elf.segments[0];
    assert_eq!(seg.start, 0x1000);
    assert!(seg.protection.r);
    assert!(!seg.protection.w);
    assert!(seg.protection.x);
    // the file bytes, zero-filled up to the memory size
    assert_eq!(seg.data, vec![0xaa, 0xbb, 0xcc, 0xdd, 0, 0, 0, 0]);
}

#[test]
fn parse_skips_non_loadable_entries() {
    let bytes = image_64_le(2, 0b101, 4, 8);
    let elf = parse_elf(&bytes).unwrap();
    assert_eq!(elf.segments.len(), 0);
}

#[test]
fn parse_skips_zero_sized_entries() {
    let bytes = image_64_le(1, 0b101, 0, 0);
    let elf = parse_elf(&bytes).unwrap();
    assert_eq!(elf.segments.len(), 0);
}

#[test]
fn parse_zero_fills_file_less_regions() {
    let bytes = image_64_le(1, 0b110, 0, 5);
    let elf = parse_elf(&bytes).unwrap();
    assert_eq!(elf.segments.len(), 1);
    assert_eq!(elf.segments[0].data, vec![0; 5]);
    assert!(elf.segments[0].protection.r);
    assert!(elf.segments[0].protection.w);
    assert!(!elf.segments[0].protection.x);
}

#[test]
fn parse_64_big_endian() {
    let mut v = vec![0x7f, b'E', b'L', b'F', 2, 2, 1, 0, 0];
    v.extend_from_slice(&[0; 7]);
    v.extend_from_slice(&2u16.to_be_bytes());
    v.extend_from_slice(&0xf3u16.to_be_bytes());
    v.extend_from_slice(&1u32.to_be_bytes());
    v.extend_from_slice(&0x2000u64.to_be_bytes()); // entry
    v.extend_from_slice(&64u64.to_be_bytes()); // program table offset
    v.extend_from_slice(&0u64.to_be_bytes());
    v.extend_from_slice(&0u32.to_be_bytes());
    v.extend_from_slice(&64u16.to_be_bytes());
    v.extend_from_slice(&56u16.to_be_bytes());
    v.extend_from_slice(&1u16.to_be_bytes());
    v.extend_from_slice(&[0; 6]);
    assert_eq!(v.len(), 64);

    v.extend_from_slice(&1u32.to_be_bytes()); // loadable
    v.extend_from_slice(&0b100u32.to_be_bytes()); // readable
    v.extend_from_slice(&120u64.to_be_bytes()); // file offset
    v.extend_from_slice(&0x2000u64.to_be_bytes()); // virtual address
    v.extend_from_slice(&0u64.to_be_bytes());
    v.extend_from_slice(&2u64.to_be_bytes()); // file size
    v.extend_from_slice(&2u64.to_be_bytes()); // memory size
    v.extend_from_slice(&0u64.to_be_bytes());
    assert_eq!(v.len(), 120);
    v.extend_from_slice(&[7, 9]);

    let elf = parse_elf(&v).unwrap();
    assert_eq!(elf.entry, Usize::U64(0x2000));
    assert_eq!(elf.segments.len(), 1);
    assert_eq!(elf.segments[0].start, 0x2000);
    assert_eq!(elf.segments[0].data, vec![7, 9]);
}

#[test]
fn parse_32_little_endian() {
    let mut v = vec![0x7f, b'E', b'L', b'F', 1, 1, 1, 0, 0];
    v.extend_from_slice(&[0; 7]);
    push_u16_le(&mut v, 2);
    push_u16_le(&mut v, 0xf3);
    push_u32_le(&mut v, 1);
    push_u32_le(&mut v, 0x3000); // entry
    push_u32_le(&mut v, 52); // program table offset
    push_u32_le(&mut v, 0);
    push_u32_le(&mut v, 0);
    push_u16_le(&mut v, 52);
    push_u16_le(&mut v, 32);
    push_u16_le(&mut v, 1);
    v.extend_from_slice(&[0; 6]);
    assert_eq!(v.len(), 52);

    push_u32_le(&mut v, 1); // loadable
    push_u32_le(&mut v, 84); // file offset
    push_u32_le(&mut v, 0x3000); // virtual address
    push_u32_le(&mut v, 0);
    push_u32_le(&mut v, 2); // file size
    push_u32_le(&mut v, 3); // memory size
    push_u32_le(&mut v, 0b111); // flags, after the sizes in a 32-bit image
    push_u32_le(&mut v, 4);
    assert_eq!(v.len(), 84);
    v.extend_from_slice(&[5, 6]);

    let elf = parse_elf(&v).unwrap();
    assert_eq!(elf.entry, Usize::U32(0x3000));
    assert_eq!(elf.segments.len(), 1);
    assert_eq!(elf.segments[0].start, 0x3000);
    assert_eq!(elf.segments[0].data, vec![5, 6, 0]);
    assert!(elf.segments[0].protection.r);
    assert!(elf.segments[0].protection.w);
    assert!(elf.segments[0].protection.x);
}

#[test]
fn parse_rejects_bad_magic() {
    let bytes = vec![0x7f, b'E', b'L', b'G', 2, 1, 1, 0];
    match parse_elf(&bytes) {
        Err(Error::Magic(m)) => assert_eq!(m, [0x7f, b'E', b'L', b'G']),
        other => panic!("expected a magic fault, got {:?}", other),
    }
}

#[test]
fn parse_rejects_unknown_class() {
    let bytes = vec![0x7f, b'E', b'L', b'F', 5, 1, 1, 0];
    match parse_elf(&bytes) {
        Err(Error::Bitness(b)) => assert_eq!(b, 5),
        other => panic!("expected a class fault, got {:?}", other),
    }
}

#[test]
fn parse_rejects_unknown_encoding() {
    let bytes = vec![0x7f, b'E', b'L', b'F', 2, 9, 1, 0];
    match parse_elf(&bytes) {
        Err(Error::Endianness(b)) => assert_eq!(b, 9),
        other => panic!("expected an encoding fault, got {:?}", other),
    }
}

#[test]
fn parse_rejects_truncated_input() {
    let bytes = vec![0x7f, b'E', b'L', b'F', 2, 1];
    match parse_elf(&bytes) {
        Err(Error::FieldRead(name)) => assert_eq!(name, "version"),
        other => panic!("expected a truncation fault, got {:?}", other),
    }

    // a header whose program table lies past the end of the input
    let mut v = image_64_le(1, 0b101, 4, 8);
    v.truncate(70);
    match parse_elf(&v) {
        Err(Error::FieldRead(name)) => assert_eq!(name, "segment flags for 64 bit"),
        other => panic!("expected a truncation fault, got {:?}", other),
    }
}

#[test]
fn parse_rejects_data_past_end() {
    // the entry claims more file bytes than the image holds
    let bytes = image_64_le(1, 0b101, 40, 40);
    match parse_elf(&bytes) {
        Err(Error::FieldRead(name)) => assert_eq!(name, "segment data"),
        other => panic!("expected a truncation fault, got {:?}", other),
    }
}
