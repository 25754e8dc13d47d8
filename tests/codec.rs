use split_buffer::{
    Buffer, ByteOrder, Config, LengthOverflowError, LengthWidth, MalformedBufferError, configure,
    size_estimate,
};

fn decode(buf: &Buffer) -> Vec<Vec<u8>> {
    buf.to_parts().unwrap().into_iter().map(|p| p.to_vec()).collect()
}

fn host_is_big() -> bool {
    u16::from_ne_bytes([0, 1]) == 1
}

const WIDTHS: [LengthWidth; 4] =
    [LengthWidth::Bits8, LengthWidth::Bits16, LengthWidth::Bits32, LengthWidth::Pointer];
const ORDERS: [ByteOrder; 3] = [ByteOrder::Big, ByteOrder::Little, ByteOrder::Native];

#[test]
fn round_trip_every_layout() {
    let long = vec![7u8; 255];
    let parts: Vec<&[u8]> = vec![&[1, 2, 3], &[], &long, &[9]];
    for w in WIDTHS {
        for o in ORDERS {
            let buf = configure().with_length_width(w).with_byte_order(o).build(&parts).unwrap();
            let back = decode(&buf);
            assert_eq!(back.len(), parts.len());
            for (a, b) in back.iter().zip(parts.iter()) {
                assert_eq!(a.as_slice(), *b);
            }
        }
    }
}

#[test]
fn length_limit_enforced() {
    let big = vec![0u8; 256];
    let parts: Vec<&[u8]> = vec![&big];
    let r = configure().with_length_width(LengthWidth::Bits8).build(&parts);
    assert_eq!(r.unwrap_err(), LengthOverflowError { index: 0, len: 256 });
    let buf = configure().with_length_width(LengthWidth::Bits16).build(&parts).unwrap();
    assert_eq!(decode(&buf), vec![big.clone()]);
}

#[test]
fn length_limit_names_first_offender() {
    let ok = vec![1u8; 255];
    let bad = vec![2u8; 300];
    let worse = vec![3u8; 400];
    let parts: Vec<&[u8]> = vec![&ok, &bad, &worse];
    let r = configure().with_length_width(LengthWidth::Bits8).build(&parts);
    assert_eq!(r.unwrap_err(), LengthOverflowError { index: 1, len: 300 });
}

#[test]
fn sixteen_bit_limit() {
    let at = vec![0u8; 65535];
    let over = vec![0u8; 65536];
    let cfg = configure().with_length_width(LengthWidth::Bits16);
    assert!(cfg.build(&[&at[..]]).is_ok());
    assert_eq!(cfg.build(&[&over[..]]).unwrap_err(), LengthOverflowError { index: 0, len: 65536 });
}

#[test]
fn empty_input_is_header_only() {
    let parts: Vec<&[u8]> = vec![];
    let buf = configure().build(&parts).unwrap();
    assert_eq!(buf.to_parts().unwrap().len(), 0);
    assert_eq!(buf.into_inner(), vec![0u8, 3]);
    let buf = configure()
        .with_length_width(LengthWidth::Bits16)
        .with_byte_order(ByteOrder::Little)
        .build(&parts)
        .unwrap();
    assert_eq!(buf.into_inner(), vec![1u8, 1]);
}

#[test]
fn empty_part_kept_in_place() {
    let parts: Vec<&[u8]> = vec![&[5], &[], &[6, 6]];
    let buf = configure().with_length_width(LengthWidth::Bits8).build(&parts).unwrap();
    assert_eq!(buf.clone().into_inner(), vec![0u8, 0, 1, 5, 0, 2, 6, 6]);
    assert_eq!(decode(&buf), vec![vec![5u8], vec![], vec![6, 6]]);
}

#[test]
fn byte_order_fidelity() {
    let parts: Vec<&[u8]> = vec![&[1, 3], &[2, 3, 4]];
    let cfg = configure().with_length_width(LengthWidth::Bits32);
    let be = cfg.with_byte_order(ByteOrder::Big).build(&parts).unwrap().into_inner();
    assert_eq!(be, vec![0u8, 2, 0, 0, 0, 2, 1, 3, 0, 0, 0, 3, 2, 3, 4]);
    let le = cfg.with_byte_order(ByteOrder::Little).build(&parts).unwrap().into_inner();
    assert_eq!(le, vec![1u8, 2, 2, 0, 0, 0, 1, 3, 3, 0, 0, 0, 2, 3, 4]);
}

#[test]
fn sixteen_bit_prefixes_both_orders() {
    let long = vec![9u8; 0x0102];
    let parts: Vec<&[u8]> = vec![&long];
    let cfg = configure().with_length_width(LengthWidth::Bits16);
    let be = cfg.build(&parts).unwrap().into_inner();
    assert_eq!(&be[..4], &[0u8, 1, 0x01, 0x02]);
    let le = cfg.with_byte_order(ByteOrder::Little).build(&parts).unwrap().into_inner();
    assert_eq!(&le[..4], &[1u8, 1, 0x02, 0x01]);
}

#[test]
fn native_order_resolved_in_header() {
    let parts: Vec<&[u8]> = vec![&[1, 3], &[2, 3, 4]];
    let cfg = configure().with_length_width(LengthWidth::Bits32).with_byte_order(ByteOrder::Native);
    let buf = cfg.build(&parts).unwrap();
    let bytes = buf.clone().into_inner();
    let expected_order = if host_is_big() { ByteOrder::Big } else { ByteOrder::Little };
    let concrete = cfg.with_byte_order(expected_order).build(&parts).unwrap().into_inner();
    assert_eq!(bytes, concrete);
    assert_eq!(ByteOrder::Native.resolve(), host_is_big());
    assert_eq!(decode(&buf), vec![vec![1u8, 3], vec![2, 3, 4]]);
}

#[test]
fn truncation_detected() {
    let parts: Vec<&[u8]> = vec![&[1, 2], &[3, 4, 5, 6]];
    for w in WIDTHS {
        for o in [ByteOrder::Big, ByteOrder::Little] {
            let bytes =
                configure().with_length_width(w).with_byte_order(o).build(&parts).unwrap().into_inner();
            for cut in 1..=4 {
                let short = bytes[..bytes.len() - cut].to_vec();
                let buf = Buffer::from_bytes(short);
                assert_eq!(buf.to_parts().unwrap_err(), MalformedBufferError);
            }
        }
    }
}

#[test]
fn truncated_prefix_detected() {
    let bytes = vec![0u8, 2, 0, 0, 0];
    let buf = Buffer::from_bytes(bytes);
    let mut it = buf.parts().unwrap();
    assert_eq!(it.next(), Some(Err(MalformedBufferError)));
    assert_eq!(it.next(), None);
}

#[test]
fn idempotent_iteration() {
    let parts: Vec<&[u8]> = vec![&[1], &[2, 2], &[]];
    let buf = configure().with_length_width(LengthWidth::Bits8).build(&parts).unwrap();
    let mut first = buf.parts().unwrap();
    assert_eq!(first.next(), Some(Ok(&[1u8][..])));
    let mut second = buf.parts().unwrap();
    assert_eq!(second.next(), Some(Ok(&[1u8][..])));
    assert_eq!(first.next(), Some(Ok(&[2u8, 2][..])));
    assert_eq!(first.next(), Some(Ok(&[][..])));
    assert_eq!(first.next(), None);
    assert_eq!(second.next(), Some(Ok(&[2u8, 2][..])));
    assert_eq!(second.next(), Some(Ok(&[][..])));
    assert_eq!(second.next(), None);
    assert_eq!(decode(&buf), decode(&buf));
}

#[test]
fn malformed_headers() {
    for bytes in [vec![], vec![0u8], vec![2u8, 0], vec![3u8, 0], vec![0u8, 4]] {
        let buf = Buffer::from_bytes(bytes);
        assert!(buf.parts().is_err());
        assert_eq!(buf.to_parts().unwrap_err(), MalformedBufferError);
    }
}

#[test]
fn build_uses_eight_byte_little_endian() {
    let x = vec![0u8; 300];
    let buf = Buffer::build(&[x.as_slice(), &[2, 3, 4][..], &[5, 5, 5][..], &[1, 1][..]]);
    let bytes = buf.clone().into_inner();
    assert_eq!(&bytes[..10], &[1u8, 3, 0x2c, 0x01, 0, 0, 0, 0, 0, 0]);
    assert_eq!(bytes.len(), 2 + 4 * 8 + 300 + 3 + 3 + 2);
    let back = decode(&buf);
    assert_eq!(back, vec![x.clone(), vec![2, 3, 4], vec![5, 5, 5], vec![1, 1]]);
}

#[test]
fn build_with_size_hint_same_bytes() {
    let parts: [&[u8]; 2] = [&[1, 2], &[3]];
    let a = Buffer::build(&parts).into_inner();
    let b = Buffer::build_with_size_hint(&parts, 0).into_inner();
    let c = Buffer::build_with_size_hint(&parts, 1000).into_inner();
    assert_eq!(a, b);
    assert_eq!(a, c);
    assert_eq!(a, vec![1u8, 3, 2, 0, 0, 0, 0, 0, 0, 0, 1, 2, 1, 0, 0, 0, 0, 0, 0, 0, 3]);
}

#[test]
fn size_estimate_exact() {
    let parts: [&[u8]; 3] = [&[1, 2], &[], &[3, 4, 5]];
    assert_eq!(size_estimate(&parts, LengthWidth::Pointer), 2 + 3 * 8 + 5);
    assert_eq!(size_estimate(&parts, LengthWidth::Bits16), 2 + 3 * 2 + 5);
    let none: [&[u8]; 0] = [];
    assert_eq!(size_estimate(&none, LengthWidth::Bits8), 2);
}

#[test]
fn default_configuration() {
    let c = Config::new();
    assert_eq!(c, configure());
    assert_eq!(c.length_width, LengthWidth::Pointer);
    assert_eq!(c.byte_order, ByteOrder::Big);
    assert_eq!(c.size_hint, None);
    let d = c.with_size_hint(12).with_length_width(LengthWidth::Bits8);
    assert_eq!(d.size_hint, Some(12));
    assert_eq!(d.length_width, LengthWidth::Bits8);
    assert_eq!(d.byte_order, ByteOrder::Big);
}

#[test]
fn width_tags_and_limits() {
    for (i, w) in WIDTHS.iter().enumerate() {
        assert_eq!(w.tag() as usize, i);
        assert_eq!(LengthWidth::from_tag(i as u8), Some(*w));
    }
    assert_eq!(LengthWidth::from_tag(4), None);
    assert_eq!(LengthWidth::Bits8.max_len(), 255);
    assert_eq!(LengthWidth::Bits32.max_len(), 0xffff_ffff);
    assert_eq!(LengthWidth::Pointer.byte_len(), 8);
}
