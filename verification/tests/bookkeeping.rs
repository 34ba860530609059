//! The growable arena, layouts, and the error-reporting device-tree
//! walks.

use kmem::dtb::parser::{DtbNodePropertyParser, DtbReserveParser, DtbStructParser, DtbStrings, Tok};
use kmem::dtb::stream::ByteStream;
use kmem::dtb::DtbError;
use kmem::layout::Layout;
use kmem::page_vec::PageVec;

#[test]
fn page_vec_push_pop() {
    let mut v: PageVec<u64> = PageVec::new();
    assert!(v.is_empty());
    assert_eq!(v.capacity(), 0);
    v.push(10);
    v.push(20);
    v.push(30);
    assert_eq!(v.len(), 3);
    assert!(v.capacity() >= 3);
    assert_eq!(v.pop(), Some(30));
    assert_eq!(v.pop(), Some(20));
    assert_eq!(v.pop(), Some(10));
    assert_eq!(v.pop(), None);
}

#[test]
fn page_vec_insert_remove_keep_order() {
    let mut v: PageVec<u64> = PageVec::new();
    v.push(1);
    v.push(3);
    v.insert(1, 2);
    assert_eq!(v.as_slice(), &[1, 2, 3]);
    assert_eq!(v.remove(0), 1);
    assert_eq!(v.as_slice(), &[2, 3]);
    assert_eq!(*v.get(1), 3);
    v.set(1, 9);
    assert_eq!(v.as_slice(), &[2, 9]);
    *v.get_mut(0) = 7;
    assert_eq!(v.as_slice(), &[7, 9]);
}

#[test]
fn page_vec_capacity_is_kept_ahead() {
    let mut v: PageVec<u8> = PageVec::new();
    v.ensure_capacity(5);
    assert!(v.capacity() >= 5);
    let cap = v.capacity();
    v.ensure_capacity(2);
    assert_eq!(v.capacity(), cap);
}

#[test]
fn layouts_require_power_of_two_alignment() {
    assert!(Layout::from_size_align(100, 8).is_some());
    assert!(Layout::from_size_align(100, 1).is_some());
    assert!(Layout::from_size_align(100, 0).is_none());
    assert!(Layout::from_size_align(100, 24).is_none());
    let l = Layout::from_size_align(100, 16).unwrap();
    assert_eq!(l.size(), 100);
    assert_eq!(l.align(), 16);
    assert!(kmem::layout::is_power_of_two(4096));
    assert!(!kmem::layout::is_power_of_two(0));
    assert!(!kmem::layout::is_power_of_two(12));
}

#[test]
fn reporting_reserve_walk_names_truncation() {
    let buf: Vec<u8> = vec![0; 16];
    let mut p = DtbReserveParser::new(ByteStream::new(&buf, 0));
    assert!(matches!(p.next(), Ok(None)));
    let short: Vec<u8> = vec![0; 10];
    let mut p = DtbReserveParser::new(ByteStream::new(&short, 0));
    assert_eq!(p.next().unwrap_err(), DtbError::InvalidReserved);
}

#[test]
fn reporting_token_walk_yields_the_same_tokens() {
    let mut buf = vec![];
    buf.extend_from_slice(&1u32.to_be_bytes());
    buf.extend_from_slice(b"nd\0\0");
    buf.extend_from_slice(&3u32.to_be_bytes());
    buf.extend_from_slice(&2u32.to_be_bytes());
    buf.extend_from_slice(&0u32.to_be_bytes());
    buf.extend_from_slice(b"hi\0\0");
    buf.extend_from_slice(&2u32.to_be_bytes());
    buf.extend_from_slice(&9u32.to_be_bytes());
    let strings = DtbStrings::new(b"name\0");
    let mut p = DtbStructParser::new(ByteStream::new(&buf, 0), strings);
    match p.next() {
        Ok(Some(Tok::BeginNode(n))) => assert_eq!(n, b"nd"),
        _ => panic!("expected a node"),
    }
    match p.next() {
        Ok(Some(Tok::Prop(prop))) => {
            assert_eq!(prop.name, b"name");
            assert_eq!(prop.data.buf(), b"hi");
        },
        _ => panic!("expected a property"),
    }
    assert!(matches!(p.next(), Ok(Some(Tok::EndNode))));
    assert!(matches!(p.next(), Ok(None)));
}

#[test]
fn reporting_walk_names_unknown_tokens() {
    let buf = 77u32.to_be_bytes().to_vec();
    let strings = DtbStrings::new(b"");
    let mut p = DtbStructParser::new(ByteStream::new(&buf, 0), strings);
    match p.next() {
        Err(e) => assert_eq!(e, DtbError::InvalidStructTok(77)),
        Ok(_) => panic!("expected an error"),
    }
}

#[test]
fn missing_property_is_reported() {
    let mut buf = vec![];
    buf.extend_from_slice(&3u32.to_be_bytes());
    buf.extend_from_slice(&2u32.to_be_bytes());
    buf.extend_from_slice(&0u32.to_be_bytes());
    buf.extend_from_slice(b"ab\0\0");
    buf.extend_from_slice(&2u32.to_be_bytes());
    let strings = DtbStrings::new(b"one\0");
    let p = DtbStructParser::new(ByteStream::new(&buf, 0), strings);
    let props = DtbNodePropertyParser::new(p);
    assert!(props.find(b"one").unwrap().is_some());
    let p = DtbStructParser::new(ByteStream::new(&buf, 0), strings);
    let props = DtbNodePropertyParser::new(p);
    assert!(props.find(b"two").unwrap().is_none());
    let p = DtbStructParser::new(ByteStream::new(&buf, 0), strings);
    let props = DtbNodePropertyParser::new(p);
    match props.expect(b"two") {
        Err(e) => assert_eq!(e, DtbError::ExpectedProperty),
        Ok(_) => panic!("expected an error"),
    }
    let p = DtbStructParser::new(ByteStream::new(&buf, 0), strings);
    let props = DtbNodePropertyParser::new(p);
    assert_eq!(props.expect(b"one").unwrap().buf(), b"ab");
}

#[test]
fn reporting_strings_lookup_errors() {
    let st = DtbStrings::new(b"abc\0");
    assert_eq!(st.get(0).unwrap(), b"abc");
    assert_eq!(st.get(9).unwrap_err(), DtbError::InvalidStrings);
}
