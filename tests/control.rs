use aehobak::{Aehobak, Bsdiff};

#[test]
fn bsdiff_vectors() {
    let mut patch = vec![0u8; 24];
    for (v, (add, copy, seek)) in [
        ((0u8, 0u8, 0u8, 0u8), (0u64, 0u64, 0i64)),
        ((1, 1, 1, 0), (1, 1, 1)),
        ((0, 0, 1, 128), (0, 0, -1)),
        ((0, 0, 0, 128), (0, 0, i64::MIN)),
    ] {
        patch[0] = v.0;
        patch[8] = v.1;
        patch[16] = v.2;
        patch[23] = v.3;

        let decoded = Bsdiff::decode(patch.as_slice()).unwrap();
        let reference = Bsdiff { add, copy, seek };
        assert_eq!(decoded, reference);
    }
}

#[test]
fn aehobak_vectors() {
    let mut patch = vec![0u32; 3];
    for (v, (add, copy, seek)) in [
        ((0u32, 0u32, 0u32), (0u32, 0u32, 0i32)),
        ((1, 1, 2), (1, 1, 1)),
        ((0, 0, 1), (0, 0, -1)),
    ] {
        patch[0] = v.0;
        patch[1] = v.1;
        patch[2] = v.2;

        let decoded = Aehobak::decode(patch.as_slice()).unwrap();
        let reference = Aehobak { add, copy, seek };
        assert_eq!(decoded, reference);
    }
}

#[test]
fn bsdiff_encode_vectors() {
    let cases = [
        ((0u64, 0u64, 0i64), vec![]),
        ((1, 1, 1), vec![(0usize, 1u8), (8, 1), (16, 1)]),
        ((0, 0, -1), vec![(16, 1), (23, 0x80)]),
        ((0, 0, i64::MIN), vec![(23, 0x80)]),
    ];
    for ((add, copy, seek), set) in cases {
        let mut expected = vec![0u8; 24];
        for (i, b) in set {
            expected[i] = b;
        }
        let mut out = vec![9u8];
        Bsdiff { add, copy, seek }.encode(&mut out);
        assert_eq!(out[0], 9);
        assert_eq!(&out[1..], expected.as_slice());
    }
}

#[test]
fn bsdiff_round_trip_values() {
    let values = [
        (0u64, 0u64, 0i64),
        (u64::MAX, 1, i64::MAX),
        (12345, u64::MAX, i64::MIN),
        (1 << 40, 7, -(1 << 40)),
        (3, 4, -1),
    ];
    for (add, copy, seek) in values {
        let reference = Bsdiff { add, copy, seek };
        let mut patch = Vec::new();
        reference.encode(&mut patch);
        assert_eq!(patch.len(), 24);
        assert_eq!(Bsdiff::decode(&patch), Some(reference));
    }
}

#[test]
fn bsdiff_decode_wrong_length() {
    assert_eq!(Bsdiff::decode(&[0u8; 23]), None);
    assert_eq!(Bsdiff::decode(&[0u8; 25]), None);
    assert_eq!(Aehobak::decode(&[0u32; 2]), None);
}

#[test]
fn aehobak_round_trip_values() {
    for (add, copy, seek) in [(0u32, 0u32, 0i32), (u32::MAX, 5, i32::MIN), (9, 9, i32::MAX), (1, 2, -3)] {
        let reference = Aehobak { add, copy, seek };
        let mut adds = Vec::new();
        let mut copies = Vec::new();
        let mut seeks = Vec::new();
        reference.encode(&mut adds, &mut copies, &mut seeks);
        let words = [adds[0], copies[0], seeks[0]];
        assert_eq!(Aehobak::decode(&words), Some(reference));
        let wide = Bsdiff::from_aehobak(&reference);
        assert_eq!(Aehobak::from_bsdiff(&wide), Some(reference));
    }
}

#[test]
fn zigzag_vectors() {
    for (seek, word) in [(0i32, 0u32), (-1, 1), (1, 2), (-2, 3), (2, 4)] {
        let mut adds = Vec::new();
        let mut copies = Vec::new();
        let mut seeks = Vec::new();
        Aehobak { add: 0, copy: 0, seek }.encode(&mut adds, &mut copies, &mut seeks);
        assert_eq!(seeks, vec![word]);
        assert_eq!(Aehobak::decode(&[0, 0, word]).unwrap().seek, seek);
    }
}

#[test]
fn narrowing_refuses_wide_fields() {
    assert_eq!(Aehobak::from_bsdiff(&Bsdiff { add: 1 << 32, copy: 0, seek: 0 }), None);
    assert_eq!(Aehobak::from_bsdiff(&Bsdiff { add: 0, copy: 1 << 32, seek: 0 }), None);
    assert_eq!(Aehobak::from_bsdiff(&Bsdiff { add: 0, copy: 0, seek: 1 << 31 }), None);
    assert_eq!(Aehobak::from_bsdiff(&Bsdiff { add: 0, copy: 0, seek: -(1 << 31) - 1 }), None);
    assert_eq!(
        Aehobak::from_bsdiff(&Bsdiff { add: 1, copy: 2, seek: -(1 << 31) }),
        Some(Aehobak { add: 1, copy: 2, seek: i32::MIN })
    );
}
