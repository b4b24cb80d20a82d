use bvarint::{encoded_len, read_bvarint, write_bvarint, DecodeError};

fn encode(x: u64) -> Vec<u8> {
    let mut buf = Vec::new();
    write_bvarint(x, &mut buf);
    buf
}

fn check_round_trip_u64(x: u64) {
    let buf = encode(x);
    let (y, n) = read_bvarint(&buf[..]).unwrap();
    assert_eq!(x, y, "check_round_trip(0x{:x})", x);
    assert_eq!(n, buf.len());
}

fn check_order_u64(x: u64, y: u64) {
    let bufx = encode(x);
    let bufy = encode(y);
    assert_eq!(
        x.cmp(&y),
        bufx.cmp(&bufy),
        "check_order_u64(0x{:x}, 0x{:x}) {:?} {:?}",
        x,
        y,
        bufx,
        bufy,
    );
}

fn interesting_values() -> Vec<u64> {
    vec![0, 0xef, 0x7ee, 0x8ee, 0x107ee, 0x108ee, u64::MAX - 3]
        .into_iter()
        .chain((5..=63).map(|b| (1u64 << b) - 2))
        .flat_map(|v| vec![v, v + 1, v + 2, v + 3])
        .collect()
}

#[test]
fn test_round_trip_u64_manual() {
    for x in 0..0x20000 {
        check_round_trip_u64(x);
    }
    for x in interesting_values() {
        check_round_trip_u64(x);
    }
}

#[test]
fn test_order_manual() {
    for x in 0..0x20000 {
        check_order_u64(x, x + 1);
    }
    let values = interesting_values();
    for x in &values {
        for y in &values {
            check_order_u64(*x, *y);
        }
    }
}

#[test]
fn exact_bytes_at_tier_boundaries() {
    assert_eq!(encode(0), vec![0x00]);
    assert_eq!(encode(0xf0), vec![0xf0]);
    assert_eq!(encode(0xf1), vec![0xf1, 0x01]);
    assert_eq!(encode(0x1ef), vec![0xf1, 0xff]);
    assert_eq!(encode(0x1f0), vec![0xf2, 0x00]);
    assert_eq!(encode(0x7ef), vec![0xf7, 0xff]);
    assert_eq!(encode(0x7f0), vec![0xf8, 0x00, 0x00]);
    assert_eq!(encode(0x107ef), vec![0xf8, 0xff, 0xff]);
    assert_eq!(encode(0x107f0), vec![0xf9, 0x01, 0x07, 0xf0]);
    assert_eq!(encode(0xff_ffff), vec![0xf9, 0xff, 0xff, 0xff]);
    assert_eq!(encode(0x100_0000), vec![0xfa, 0x01, 0x00, 0x00, 0x00]);
    assert_eq!(
        encode(0xff_ffff_ffff_ffff),
        vec![0xfd, 0xff, 0xff, 0xff, 0xff, 0xff, 0xff, 0xff]
    );
    assert_eq!(
        encode(0x100_0000_0000_0000),
        vec![0xfe, 0x01, 0x00, 0x00, 0x00, 0x00, 0x00, 0x00, 0x00]
    );
    assert_eq!(
        encode(u64::MAX),
        vec![0xfe, 0xff, 0xff, 0xff, 0xff, 0xff, 0xff, 0xff, 0xff]
    );
}

#[test]
fn lengths_never_shrink() {
    let values = interesting_values();
    for x in &values {
        for y in &values {
            if x <= y {
                assert!(encode(*x).len() <= encode(*y).len());
            }
        }
    }
    assert_eq!(encode(0xf0).len(), 1);
    assert_eq!(encode(0xf1).len(), 2);
    assert_eq!(encode(0x7f0).len(), 3);
    assert_eq!(encode(0x107f0).len(), 4);
    assert_eq!(encode(u64::MAX).len(), 9);
}

#[test]
fn truncated_at_every_tier_boundary() {
    let edges: Vec<u64> = vec![
        0xf1, 0x7ef, 0x7f0, 0x107ef, 0x107f0, 0xff_ffff, 0x100_0000, 0xffff_ffff,
        0x1_0000_0000, 0xff_ffff_ffff, 0x100_0000_0000, 0xffff_ffff_ffff,
        0x1_0000_0000_0000, 0xff_ffff_ffff_ffff, 0x100_0000_0000_0000, u64::MAX,
    ];
    for x in edges {
        let buf = encode(x);
        for n in 0..buf.len() {
            assert_eq!(read_bvarint(&buf[..n]), Err(DecodeError::Truncated), "0x{:x} cut at {}", x, n);
        }
    }
    assert_eq!(read_bvarint(&[]), Err(DecodeError::Truncated));
}

#[test]
fn lone_reserved_byte_is_out_of_range() {
    assert_eq!(read_bvarint(&[0xff]), Err(DecodeError::OutOfRange));
    assert_eq!(read_bvarint(&[0xff, 0x00, 0x01]), Err(DecodeError::OutOfRange));
}

#[test]
fn decodes_exact_values() {
    assert_eq!(read_bvarint(&[0x2a]), Ok((0x2a, 1)));
    assert_eq!(read_bvarint(&[0xf3, 0x10]), Ok((0x2f0 + 0x10, 2)));
    assert_eq!(read_bvarint(&[0xf8, 0x12, 0x34]), Ok((0x7f0 + 0x1234, 3)));
    assert_eq!(read_bvarint(&[0xfa, 0x12, 0x34, 0x56, 0x78]), Ok((0x1234_5678, 5)));
}

#[test]
fn concatenated_values_decode_in_turn() {
    let values: Vec<u64> = vec![0, 0xf5, 0x1234, u64::MAX, 0x107f0, 7];
    let mut buf = Vec::new();
    for v in &values {
        write_bvarint(*v, &mut buf);
    }
    let mut pos = 0;
    for v in &values {
        let (got, n) = read_bvarint(&buf[pos..]).unwrap();
        assert_eq!(got, *v);
        pos += n;
    }
    assert_eq!(pos, buf.len());
}

#[test]
fn appends_after_existing_bytes() {
    let mut buf = vec![0xaa, 0xbb];
    write_bvarint(0x7f0, &mut buf);
    assert_eq!(buf, vec![0xaa, 0xbb, 0xf8, 0x00, 0x00]);
}

#[test]
fn lengths_announced_by_leading_byte() {
    assert_eq!(encoded_len(0x00), Some(1));
    assert_eq!(encoded_len(0xf0), Some(1));
    assert_eq!(encoded_len(0xf1), Some(2));
    assert_eq!(encoded_len(0xf7), Some(2));
    assert_eq!(encoded_len(0xf8), Some(3));
    assert_eq!(encoded_len(0xf9), Some(4));
    assert_eq!(encoded_len(0xfe), Some(9));
    assert_eq!(encoded_len(0xff), None);
}
