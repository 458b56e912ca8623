use pg_proxy::wire::{Buffer, DecodeError};

#[test]
fn read_cstr_returns_bytes_before_terminator() {
    let mut b = Buffer { bytes: b"user\0rest".to_vec(), idx: 0 };
    assert_eq!(b.read_cstr().unwrap(), b"user".to_vec());
    assert_eq!(b.idx, 5);
    assert_eq!(b.slice(), b"rest");
}

#[test]
fn read_cstr_without_terminator_fails() {
    let mut b = Buffer { bytes: b"user".to_vec(), idx: 0 };
    assert_eq!(b.read_cstr(), Err(DecodeError::UnexpectedEof));
    assert_eq!(b.idx, 0);
}

#[test]
fn read_cstr_empty_string() {
    let mut b = Buffer { bytes: b"\0tail".to_vec(), idx: 0 };
    assert_eq!(b.read_cstr().unwrap(), Vec::<u8>::new());
    assert_eq!(b.idx, 1);
}

#[test]
fn read_all_drains_the_rest() {
    let mut b = Buffer { bytes: b"abcdef".to_vec(), idx: 2 };
    assert_eq!(b.read_all(), b"cdef".to_vec());
    assert!(b.is_empty());
    assert_eq!(b.read_all(), Vec::<u8>::new());
}

#[test]
fn read_copies_at_most_n_bytes() {
    let mut b = Buffer { bytes: b"abcdef".to_vec(), idx: 0 };
    assert_eq!(b.read(4), b"abcd".to_vec());
    assert_eq!(b.read(4), b"ef".to_vec());
    assert_eq!(b.read(4), Vec::<u8>::new());
}

#[test]
fn read_u32_be_advances() {
    let mut b = Buffer { bytes: vec![0x00, 0x01, 0x02, 0x03, 0xFF], idx: 0 };
    assert_eq!(b.read_u32_be().unwrap(), 0x00010203);
    assert_eq!(b.idx, 4);
    assert_eq!(b.read_u32_be(), Err(DecodeError::UnexpectedEof));
}

#[test]
fn read_i32_be_two_complement() {
    let mut b = Buffer { bytes: vec![0xFF, 0xFF, 0xFF, 0xFE, 0x80, 0x00, 0x00, 0x00], idx: 0 };
    assert_eq!(b.read_i32_be().unwrap(), -2);
    assert_eq!(b.read_i32_be().unwrap(), i32::MIN);
}
