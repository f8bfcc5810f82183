use pix::tile_ref::{Pow2, TileRef};

#[test]
fn size_conversions() {
    assert_eq!(Pow2::from(128), Pow2(7));
    assert_eq!(Pow2(7).u32(), 128);
}

#[test]
fn tile_ref_test() {
    assert_eq!(
        TileRef::new(Pow2(0xFFu8), 0u64, 0u16),
        TileRef(0xFF00_0000_0000_0000u64)
    );
    assert_eq!(
        TileRef::new(Pow2(0xFFu8), 0u64, 0u16).deconstruct(),
        (Pow2(0xFFu8), 0u64, 0u16)
    );
    assert_eq!(
        TileRef::new(Pow2(0xFFu8), 0u64, 0u16).0.to_be_bytes(),
        [0xFF, 0, 0, 0, 0, 0, 0, 0]
    );

    assert_eq!(
        TileRef::new(Pow2(0u8), 0x00FF_FFFF_FFFFu64, 0u16),
        TileRef(0x00F_FFFFF_FFFF_0000u64)
    );
    assert_eq!(
        TileRef::new(Pow2(0u8), 0x00FF_FFFF_FFFFu64, 0u16).deconstruct(),
        (Pow2(0u8), 0x00FF_FFFF_FFFFu64, 0u16)
    );

    assert_eq!(
        TileRef::new(Pow2(0u8), 0u64, 0xFFFFu16),
        TileRef(0x0000_0000_0000_FFFFu64)
    );
    assert_eq!(
        TileRef::new(Pow2(0u8), 0u64, 0xFFFFu16).deconstruct(),
        (Pow2(0u8), 0u64, 0xFFFFu16)
    )
}

#[test]
fn pow2_of_every_exponent() {
    for k in 0u8..32 {
        let p = 1u32 << k;
        assert_eq!(Pow2::from(p), Pow2(k));
        assert_eq!(Pow2(k).u32(), p);
    }
}

#[test]
fn round_trip_keeps_the_triple() {
    let cases: Vec<(u8, u64, u16)> = vec![
        (0, 0, 0),
        (7, 1, 2),
        (9, 123_456_789, 65_535),
        (255, (1u64 << 40) - 1, 0),
        (128, 0x00AB_CDEF_0123, 0x4567),
    ];
    for (size, index, chunk) in cases {
        let t = TileRef::new(Pow2(size), index, chunk);
        assert_eq!(t.deconstruct(), (Pow2(size), index, chunk));
    }
}

#[test]
fn index_wraps_modulo_two_to_the_forty() {
    let t = TileRef::new(Pow2(3), (1u64 << 40) + 5, 9);
    assert_eq!(t, TileRef::new(Pow2(3), 5, 9));
    assert_eq!(t.deconstruct(), (Pow2(3), 5, 9));
    let top = TileRef::new(Pow2(0), u64::MAX, 0);
    assert_eq!(top.deconstruct(), (Pow2(0), (1u64 << 40) - 1, 0));
}

#[test]
fn exact_address_of_a_triple() {
    let t = TileRef::new(Pow2(7), 0x12_3456_789A, 0xBCDE);
    assert_eq!(t.0, 0x0712_3456_789A_BCDEu64);
}

#[test]
fn size_class_orders_addresses() {
    let small = TileRef::new(Pow2(6), (1u64 << 40) - 1, 0xFFFF);
    let large = TileRef::new(Pow2(7), 0, 0);
    assert!(small.0 < large.0);
    assert!(small < large);
}

#[test]
fn addresses_order_by_size_then_index_then_chunk() {
    let a = TileRef::new(Pow2(5), 10, 0xFFFF);
    let b = TileRef::new(Pow2(5), 11, 0);
    let c = TileRef::new(Pow2(5), 11, 1);
    assert!(a < b);
    assert!(b < c);
    assert!(a.0 < b.0 && b.0 < c.0);
}

#[test]
fn default_address_is_zero() {
    assert_eq!(TileRef::default(), TileRef(0));
}
