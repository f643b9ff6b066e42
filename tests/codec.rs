use mls_core::codec::{read_varint, write_varint, Codec};

fn varint_bytes(n: u64) -> Vec<u8> {
    let mut out = Vec::new();
    write_varint(&mut out, n);
    out
}

#[test]
fn varint_boundaries() {
    assert_eq!(varint_bytes(0), vec![0]);
    assert_eq!(varint_bytes(63), vec![63]);
    assert_eq!(varint_bytes(64), vec![0x40, 64]);
    assert_eq!(varint_bytes(16383), vec![0x7f, 0xff]);
    assert_eq!(varint_bytes(16384), vec![0x80, 0, 0x40, 0]);
    assert_eq!(varint_bytes(0x3fff_ffff), vec![0xbf, 0xff, 0xff, 0xff]);
}

#[test]
fn varint_reads_back() {
    for n in [0u64, 1, 63, 64, 300, 16383, 16384, 1_000_000, 0x3fff_ffff] {
        let b = varint_bytes(n);
        assert_eq!(read_varint(&b, 0, b.len()), Some((n, b.len())));
    }
}

#[test]
fn varint_refuses_non_minimal_and_reserved() {
    assert_eq!(read_varint(&[0x40, 0x05], 0, 2), None);
    assert_eq!(read_varint(&[0x80, 0, 0, 5], 0, 4), None);
    assert_eq!(read_varint(&[0xc0, 0, 0, 0, 0, 0, 0, 1], 0, 8), None);
    assert_eq!(read_varint(&[0x41], 0, 1), None);
}

#[test]
fn integers_are_big_endian() {
    let mut out = Vec::new();
    0x0102u16.encode(&mut out);
    0x03040506u32.encode(&mut out);
    0x0708090a0b0c0d0eu64.encode(&mut out);
    assert_eq!(out, vec![1, 2, 3, 4, 5, 6, 7, 8, 9, 10, 11, 12, 13, 14]);
    assert_eq!(u64::decode(&out, 6, out.len()), Some((0x0708090a0b0c0d0e, 14)));
    assert_eq!(u32::decode(&out, 12, out.len()), None);
}

#[test]
fn option_and_vector_round_trip() {
    let v: Vec<Option<u16>> = vec![Some(7), None, Some(0xffff)];
    let mut out = Vec::new();
    v.encode(&mut out);
    assert_eq!(out, vec![7, 1, 0, 7, 0, 1, 0xff, 0xff]);
    assert_eq!(<Vec<Option<u16>>>::decode(&out, 0, out.len()), Some((v, out.len())));
    assert_eq!(<Vec<Option<u16>>>::decode(&out, 0, out.len() - 1), None);
}
