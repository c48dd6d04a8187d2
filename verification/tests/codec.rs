use regen_avl::codec::{decode, encode, put_varint, varint_at, Record};

fn record(key: &[u8], value: &[u8], left: &[u8], right: &[u8], height: u32, rank: u64) -> Record {
    Record {
        key: key.to_vec(),
        value: value.to_vec(),
        left: left.to_vec(),
        right: right.to_vec(),
        height,
        rank,
    }
}

fn same(a: &Record, b: &Record) -> bool {
    a.key == b.key
        && a.value == b.value
        && a.left == b.left
        && a.right == b.right
        && a.height == b.height
        && a.rank == b.rank
}

fn varint(n: u64) -> Vec<u8> {
    let mut out = Vec::new();
    put_varint(&mut out, n);
    out
}

/// The same record written field by field with the protobuf crate.
fn by_protobuf(r: &Record) -> Vec<u8> {
    let mut out = Vec::new();
    {
        let mut s = protobuf::CodedOutputStream::vec(&mut out);
        if !r.key.is_empty() {
            s.write_bytes(1, &r.key).unwrap();
        }
        if !r.value.is_empty() {
            s.write_bytes(2, &r.value).unwrap();
        }
        if !r.left.is_empty() {
            s.write_bytes(3, &r.left).unwrap();
        }
        if !r.right.is_empty() {
            s.write_bytes(4, &r.right).unwrap();
        }
        if r.height != 0 {
            s.write_uint32(5, r.height).unwrap();
        }
        if r.rank != 0 {
            s.write_uint64(6, r.rank).unwrap();
        }
        s.flush().unwrap();
    }
    out
}

#[test]
fn varints_are_base_128_low_digit_first() {
    assert_eq!(varint(0), vec![0]);
    assert_eq!(varint(1), vec![1]);
    assert_eq!(varint(127), vec![0x7f]);
    assert_eq!(varint(128), vec![0x80, 0x01]);
    assert_eq!(varint(300), vec![0xac, 0x02]);
    assert_eq!(varint(u64::MAX), vec![0xff, 0xff, 0xff, 0xff, 0xff, 0xff, 0xff, 0xff, 0xff, 0x01]);
    let mut out = vec![9];
    put_varint(&mut out, 300);
    assert_eq!(out, vec![9, 0xac, 0x02]);
}

#[test]
fn varints_read_back() {
    for n in [0u64, 1, 127, 128, 300, 16383, 16384, 1 << 32, u64::MAX - 1, u64::MAX] {
        let mut bytes = vec![0xee];
        bytes.extend(varint(n));
        bytes.push(0x11);
        let len = bytes.len();
        assert_eq!(varint_at(&bytes, 1, 10), Some((n, len - 1)));
    }
    assert_eq!(varint_at(&[0x05], 0, 10), Some((5, 1)));
    // not the shortest form, the same number
    assert_eq!(varint_at(&[0x85, 0x00], 0, 10), Some((5, 2)));
}

#[test]
fn varints_that_end_early_or_run_on_are_none() {
    assert_eq!(varint_at(&[], 0, 10), None);
    assert_eq!(varint_at(&[0x80], 0, 10), None);
    assert_eq!(varint_at(&[0x01], 1, 10), None);
    assert_eq!(varint_at(&[0x01], 0, 0), None);
    assert_eq!(varint_at(&[0x80, 0x80, 0x01], 0, 2), None);
    // eleven bytes
    assert_eq!(varint_at(&[0x80; 11], 0, 10), None);
    // ten bytes that need more than 64 bits
    let mut big = vec![0xff; 9];
    big.push(0x02);
    assert_eq!(varint_at(&big, 0, 10), None);
}

#[test]
fn a_record_is_its_fields_in_order() {
    let r = record(b"k", b"vv", &[0xaa], &[0xbb, 0xcc], 3, 300);
    let expected = vec![
        0x0a, 1, b'k', // key
        0x12, 2, b'v', b'v', // value
        0x1a, 1, 0xaa, // left
        0x22, 2, 0xbb, 0xcc, // right
        0x28, 3, // height
        0x30, 0xac, 0x02, // rank
    ];
    assert_eq!(encode(&r), expected);
    assert!(same(&decode(&expected).unwrap(), &r));
}

#[test]
fn empty_and_zero_fields_are_left_out() {
    assert_eq!(encode(&record(b"", b"", b"", b"", 0, 0)), Vec::<u8>::new());
    assert_eq!(encode(&record(b"", b"x", b"", b"", 0, 1)), vec![0x12, 1, b'x', 0x30, 1]);
    let blank = decode(&[]).unwrap();
    assert!(same(&blank, &record(b"", b"", b"", b"", 0, 0)));
}

#[test]
fn records_read_back() {
    let long = vec![7u8; 1000];
    let records = vec![
        record(b"", b"", b"", b"", 0, 0),
        record(b"key", b"", b"", b"", 1, 1),
        record(b"key", b"value", b"left-hash", b"", 2, 2),
        record(&long, &long, &[1; 32], &[2; 32], u32::MAX, u64::MAX),
        record(&[0], &[0x80, 0xff], b"", &[0], 129, 1 << 40),
    ];
    for r in &records {
        let back = decode(&encode(r)).unwrap();
        assert!(same(&back, r));
    }
}

#[test]
fn the_bytes_are_those_of_protocol_buffers() {
    let long = vec![7u8; 300];
    let records = vec![
        record(b"", b"", b"", b"", 0, 0),
        record(b"key", b"value", b"left-hash", b"right-hash", 2, 3),
        record(&long, b"", &[1; 32], b"", u32::MAX, u64::MAX),
        record(b"", &long, b"", &[2; 64], 0, 128),
    ];
    for r in &records {
        assert_eq!(encode(r), by_protobuf(r));
    }
}

#[test]
fn fields_may_come_in_any_order_and_the_last_one_counts() {
    let bytes = vec![0x30, 7, 0x0a, 1, b'a', 0x28, 2, 0x0a, 1, b'b', 0x28, 4];
    let r = decode(&bytes).unwrap();
    assert!(same(&r, &record(b"b", b"", b"", b"", 4, 7)));
}

#[test]
fn fields_of_other_numbers_are_passed_over() {
    // field 7 as varint, field 8 as bytes, field 9 as 64 bits, field 10 as 32 bits
    let mut bytes = vec![0x38, 0x05];
    bytes.extend([0x42, 2, 1, 2]);
    bytes.extend([0x49, 1, 2, 3, 4, 5, 6, 7, 8]);
    bytes.extend([0x55, 1, 2, 3, 4]);
    bytes.extend([0x0a, 1, b'k']);
    let r = decode(&bytes).unwrap();
    assert!(same(&r, &record(b"k", b"", b"", b"", 0, 0)));
    // field 16 needs a tag of two bytes
    let r = decode(&[0x80, 0x01, 0x09, 0x30, 2]).unwrap();
    assert!(same(&r, &record(b"", b"", b"", b"", 0, 2)));
}

#[test]
fn malformed_bytes_are_no_record() {
    // a lone tag
    assert!(decode(&[0x0a]).is_none());
    // a length that runs past the end
    assert!(decode(&[0x0a, 5, 1, 2]).is_none());
    // field number 0
    assert!(decode(&[0x02, 0]).is_none());
    // groups
    assert!(decode(&[0x0b]).is_none());
    assert!(decode(&[0x3b]).is_none());
    assert!(decode(&[0x3c]).is_none());
    // wire types 6 and 7
    assert!(decode(&[0x3e, 0]).is_none());
    assert!(decode(&[0x3f, 0]).is_none());
    // the key as a varint, the height as bytes
    assert!(decode(&[0x08, 1]).is_none());
    assert!(decode(&[0x2a, 1, 1]).is_none());
    // one of the six fields as fixed 64 or 32 bits
    assert!(decode(&[0x31, 1, 2, 3, 4, 5, 6, 7, 8]).is_none());
    assert!(decode(&[0x2d, 1, 2, 3, 4]).is_none());
    // a height that needs more than 32 bits
    assert!(decode(&[0x28, 0x80, 0x80, 0x80, 0x80, 0x10]).is_none());
    assert!(decode(&[0x28, 0xff, 0xff, 0xff, 0xff, 0x0f]).is_some());
    // fixed fields cut short
    assert!(decode(&[0x49, 1, 2, 3]).is_none());
    assert!(decode(&[0x55, 1, 2, 3]).is_none());
    // a varint that does not end
    assert!(decode(&[0x30, 0x80]).is_none());
}
