//! The device-tree reader: byte streams, blob validation, the walks and
//! memory discovery.

use kmem::buddy::Buddy;
use kmem::dtb::stream::ByteStream;
use kmem::dtb::{Dtb, DtbError, DtbHeader};
use kmem::mem::{discover, physical_region, reserved_regions, Region};

fn push32(out: &mut Vec<u8>, v: u32) {
    out.extend_from_slice(&v.to_be_bytes());
}

fn push64(out: &mut Vec<u8>, v: u64) {
    out.extend_from_slice(&v.to_be_bytes());
}

/// A small well-formed blob: a root with the cell sizes, one memory
/// node, and one reserved-memory child, plus one reservation entry.
fn sample_blob() -> Vec<u8> {
    let mut out = vec![];
    // header
    push32(&mut out, 0xd00d_feed);
    push32(&mut out, 299); // totalsize
    push32(&mut out, 72); // off_dt_struct
    push32(&mut out, 256); // off_dt_strings
    push32(&mut out, 40); // off_mem_rsvmap
    push32(&mut out, 17); // version
    push32(&mut out, 16); // last_comp_version
    push32(&mut out, 0); // boot_cpuid_phys
    push32(&mut out, 43); // size_dt_strings
    push32(&mut out, 184); // size_dt_struct
    assert_eq!(out.len(), 40);
    // reservation block
    push64(&mut out, 0x9000_0000);
    push64(&mut out, 0x1000);
    push64(&mut out, 0);
    push64(&mut out, 0);
    assert_eq!(out.len(), 72);
    // structure block
    push32(&mut out, 1);
    out.extend_from_slice(b"\0\0\0\0"); // root name, padded
    push32(&mut out, 3);
    push32(&mut out, 4);
    push32(&mut out, 0); // "#address-cells"
    push32(&mut out, 2);
    push32(&mut out, 3);
    push32(&mut out, 4);
    push32(&mut out, 15); // "#size-cells"
    push32(&mut out, 2);
    push32(&mut out, 1);
    out.extend_from_slice(b"memory@80000000\0");
    push32(&mut out, 3);
    push32(&mut out, 7);
    push32(&mut out, 27); // "device_type"
    out.extend_from_slice(b"memory\0\0");
    push32(&mut out, 3);
    push32(&mut out, 16);
    push32(&mut out, 39); // "reg"
    push64(&mut out, 0x8000_0000);
    push64(&mut out, 0x0010_0000);
    push32(&mut out, 2);
    push32(&mut out, 1);
    out.extend_from_slice(b"reserved-memory\0");
    push32(&mut out, 1);
    out.extend_from_slice(b"r@0\0");
    push32(&mut out, 3);
    push32(&mut out, 16);
    push32(&mut out, 39); // "reg"
    push64(&mut out, 0x8800_0000);
    push64(&mut out, 0x2000);
    push32(&mut out, 2);
    push32(&mut out, 2);
    push32(&mut out, 2);
    push32(&mut out, 9);
    assert_eq!(out.len(), 256);
    // strings block
    out.extend_from_slice(b"#address-cells\0");
    out.extend_from_slice(b"#size-cells\0");
    out.extend_from_slice(b"device_type\0");
    out.extend_from_slice(b"reg\0");
    assert_eq!(out.len(), 299);
    out
}

#[test]
fn stream_reads_big_endian_values() {
    let buf: Vec<u8> = vec![0xd0, 0x0d, 0xfe, 0xed, 0x01, 0x02, 0x03, 0x04, 0x05, 0x06, 0x07, 0x08];
    let mut s = ByteStream::new(&buf, 0);
    assert_eq!(s.u32(), Some(0xd00d_feed));
    assert_eq!(s.u64(), Some(0x0102_0304_0506_0708));
    assert_eq!(s.u32(), None);
    assert_eq!(s.len(), 0);
}

#[test]
fn stream_cells_and_bytes() {
    let buf: Vec<u8> = vec![0, 0, 0, 7, 0, 0, 0, 0, 0, 0, 0, 9];
    let mut s = ByteStream::new(&buf, 0);
    assert_eq!(s.u64_cells(1), Some(7));
    assert_eq!(s.u64_cells(2), Some(9));
    let mut t = ByteStream::new(&buf, 0);
    assert_eq!(t.u64_bytes(3), Some(0));
    assert_eq!(t.u8(), Some(7));
    assert_eq!(t.offset(), 4);
}

#[test]
fn stream_cstr_and_align() {
    let buf: Vec<u8> = vec![b'h', b'i', 0, 1, 2, 3, 4, 5];
    let mut s = ByteStream::new(&buf, 0);
    let name = s.cstr().unwrap();
    assert_eq!(name, b"hi");
    assert_eq!(s.offset(), 3);
    s.align(4);
    assert_eq!(s.offset(), 4);
    assert_eq!(s.u8(), Some(2));
    let mut t = ByteStream::new(&buf[3..], 3);
    assert_eq!(t.cstr(), None);
}

#[test]
fn stream_contains_str_scans_tokens() {
    let buf: Vec<u8> = b"ab\0cd\0".to_vec();
    let s = ByteStream::new(&buf, 0);
    assert!(s.contains_str(b"ab"));
    assert!(s.contains_str(b"cd"));
    assert!(!s.contains_str(b"a"));
    assert!(!s.contains_str(b"x"));
}

#[test]
fn stream_chunks() {
    let buf: Vec<u8> = vec![1, 2, 3, 4, 5];
    let mut s = ByteStream::new(&buf, 0);
    let c = s.chunk_ref::<2>().unwrap();
    assert_eq!(c, &[1, 2]);
    let d = s.chunk::<2>().unwrap();
    assert_eq!(d, vec![3, 4]);
    assert!(s.chunk::<2>().is_none());
    assert!(!s.is_empty());
    assert_eq!(s.buf(), &[5]);
}

#[test]
fn strings_block_lookups() {
    let buf: Vec<u8> = b"abc\0de\0".to_vec();
    let st = kmem::dtb::strings::DtbStrings::new(&buf);
    assert_eq!(st.get(0), Some(&b"abc"[..]));
    assert_eq!(st.get(4), Some(&b"de"[..]));
    assert_eq!(st.get(1), Some(&b"bc"[..]));
    assert_eq!(st.get(8), None);
    assert_eq!(st.buf(), &buf[..]);
}

#[test]
fn blob_header_is_decoded_exactly() {
    let blob = sample_blob();
    let dtb = Dtb::from_slice(&blob).unwrap();
    let h = dtb.header();
    assert_eq!(h.magic, DtbHeader::MAGIC);
    assert_eq!(h.totalsize, 299);
    assert_eq!(h.off_dt_struct, 72);
    assert_eq!(h.off_dt_strings, 256);
    assert_eq!(h.off_mem_rsvmap, 40);
    assert_eq!(h.version, 17);
    assert_eq!(h.last_comp_version, 16);
    assert_eq!(h.boot_cpuid_phys, 0);
    assert_eq!(h.size_dt_strings, 43);
    assert_eq!(h.size_dt_struct, 184);
}

#[test]
fn bad_magic_is_reported_with_its_value() {
    let mut blob = sample_blob();
    blob[0] = 0x12;
    match Dtb::from_slice(&blob) {
        Err(e) => assert_eq!(e, DtbError::InvalidMagic(0x120d_feed)),
        Ok(_) => panic!("expected a rejection"),
    }
}

#[test]
fn truncated_header_is_rejected() {
    let blob = sample_blob();
    match Dtb::from_slice(&blob[..10]) {
        Err(e) => assert_eq!(e, DtbError::InvalidHeader),
        Ok(_) => panic!("expected a rejection"),
    }
}

#[test]
fn unknown_token_is_rejected() {
    let mut blob = sample_blob();
    // overwrite the first structure token with a bogus code
    blob[72] = 0;
    blob[73] = 0;
    blob[74] = 0;
    blob[75] = 42;
    match Dtb::from_slice(&blob) {
        Err(e) => assert_eq!(e, DtbError::InvalidStructTok(42)),
        Ok(_) => panic!("expected a rejection"),
    }
}

#[test]
fn unterminated_reservations_are_rejected() {
    let mut blob = sample_blob();
    // damage the terminating empty entry
    blob[56] = 1;
    match Dtb::from_slice(&blob) {
        Err(e) => assert_eq!(e, DtbError::InvalidReserved),
        Ok(_) => panic!("expected a rejection"),
    }
}

#[test]
fn reservation_entries_are_walked() {
    let blob = sample_blob();
    let dtb = Dtb::from_slice(&blob).unwrap();
    let mut it = dtb.reserved();
    let e = it.next().unwrap();
    assert_eq!(e.address, 0x9000_0000);
    assert_eq!(e.size, 0x1000);
    assert!(it.next().is_none());
}

#[test]
fn nodes_are_walked_in_document_order() {
    let blob = sample_blob();
    let dtb = Dtb::from_slice(&blob).unwrap();
    let mut names: Vec<Vec<u8>> = vec![];
    let mut it = dtb.nodes();
    while let Some(n) = it.next() {
        names.push(n.name().to_vec());
    }
    assert_eq!(
        names,
        vec![
            b"".to_vec(),
            b"memory@80000000".to_vec(),
            b"reserved-memory".to_vec(),
            b"r@0".to_vec(),
        ]
    );
}

#[test]
fn children_skip_nested_nodes() {
    let blob = sample_blob();
    let dtb = Dtb::from_slice(&blob).unwrap();
    let mut it = dtb.root().childern();
    assert_eq!(it.next().unwrap().name(), b"memory@80000000");
    assert_eq!(it.next().unwrap().name(), b"reserved-memory");
    assert!(it.next().is_none());
}

#[test]
fn properties_resolve_names_and_values() {
    let blob = sample_blob();
    let dtb = Dtb::from_slice(&blob).unwrap();
    let mut props = dtb.root().properties();
    let p = props.next().unwrap();
    assert_eq!(p.name, b"#address-cells");
    let mut v = p.data;
    assert_eq!(v.u32(), Some(2));
    let p = props.next().unwrap();
    assert_eq!(p.name, b"#size-cells");
    assert!(props.next().is_none());
}

#[test]
fn memory_range_is_found() {
    let blob = sample_blob();
    let dtb = Dtb::from_slice(&blob).unwrap();
    assert_eq!(
        physical_region(&dtb),
        Some(Region { start: 0x8000_0000, end: 0x8010_0000 })
    );
}

#[test]
fn reserved_ranges_are_collected() {
    let blob = sample_blob();
    let dtb = Dtb::from_slice(&blob).unwrap();
    let rs = reserved_regions(&dtb);
    assert_eq!(
        rs,
        vec![
            Region { start: 0x8800_0000, end: 0x8800_2000 },
            Region { start: 0x9000_0000, end: 0x9000_1000 },
        ]
    );
}

#[test]
fn discovery_frees_the_unreserved_granules() {
    let blob = sample_blob();
    let dtb = Dtb::from_slice(&blob).unwrap();
    let mut buddy = Buddy::new();
    let kernel = Region { start: 0x8000_0000, end: 0x8002_0000 };
    let dtbr = Region { start: 0x800f_0000, end: 0x800f_1000 };
    discover(&mut buddy, &dtb, kernel, dtbr).unwrap();
    let total: u64 = buddy.free_blocks().iter().map(|&(_, o)| 4096u64 << o).sum();
    // 256 granules of memory, minus 32 of kernel image, minus 1 of blob
    assert_eq!(total, 223 * 4096);
    for &(a, o) in buddy.free_blocks().iter() {
        let end = a + (4096u64 << o);
        assert!(a >= 0x8000_0000 && end <= 0x8010_0000);
        assert!(end <= kernel.start || a >= kernel.end);
        assert!(end <= dtbr.start || a >= dtbr.end);
    }
}

#[test]
fn discovery_without_memory_node_is_an_error() {
    let mut blob = sample_blob();
    // rename device_type so no memory node is found
    blob[283] = b'x';
    let dtb = Dtb::from_slice(&blob).unwrap();
    let mut buddy = Buddy::new();
    let none = Region { start: 0, end: 0 };
    assert_eq!(
        discover(&mut buddy, &dtb, none, none),
        Err(DtbError::ExpectedProperty)
    );
}
