use feruca_mapper::weights::{pack_code_points, pack_weights, unpack_weights, SEC_MAX, TER_MAX};

#[test]
fn pack_weights_exact_value() {
    assert_eq!(pack_weights(false, 0x0B7E, 0x0020, 0x0008), 0x0B7E_1020);
    assert_eq!(pack_weights(true, 0x0209, 0x0020, 0x0002), 0x0209_8420);
    assert_eq!(pack_weights(false, 0, 0, 0), 0);
    assert_eq!(pack_weights(true, 0xFFFF, SEC_MAX, TER_MAX), 0xFFFF_BD26);
    assert_eq!(pack_weights(false, 0x1234, SEC_MAX, TER_MAX), 0x1234_3D26);
}

#[test]
fn unpack_weights_exact_value() {
    assert_eq!(unpack_weights(0x0B7E_1020), (false, 0x0B7E, 0x0020, 0x0008));
    assert_eq!(unpack_weights(0x0209_8420), (true, 0x0209, 0x0020, 0x0002));
    assert_eq!(unpack_weights(0), (false, 0, 0, 0));
    assert_eq!(unpack_weights(0xFFFF_FFFF), (true, 0xFFFF, 0x1FF, 0x3F));
}

#[test]
fn round_trip_within_the_maxima() {
    for variable in [false, true] {
        for primary in [0u16, 1, 0x0B7E, 0x2380, 0x7FFF, 0x8000, 0xFFFF] {
            for secondary in 0..=SEC_MAX {
                for tertiary in 0..=TER_MAX {
                    let packed = pack_weights(variable, primary, secondary, tertiary);
                    assert_eq!(
                        unpack_weights(packed),
                        (variable, primary, secondary, tertiary)
                    );
                }
            }
        }
    }
}

#[test]
fn repacking_unpacked_fields_gives_the_same_value() {
    for packed in [0u32, 1, 0x0B7E_1020, 0x0209_8420, 0xDEAD_BD26, 0xFFFF_3C00] {
        let (variable, primary, secondary, tertiary) = unpack_weights(packed);
        assert!(secondary <= SEC_MAX && tertiary <= TER_MAX);
        assert_eq!(pack_weights(variable, primary, secondary, tertiary), packed);
    }
}

#[test]
fn pack_two_code_points() {
    assert_eq!(pack_code_points(&[0x41, 0x42]), 0x0820_0042);
    assert_eq!(pack_code_points(&[0x10FFFF, 0x10FFFF]), (0x10FFFFu64 << 21) | 0x10FFFF);
}

#[test]
fn pack_three_code_points() {
    assert_eq!(
        pack_code_points(&[0x0FB2, 0x0F71, 0x0F80]),
        (0x0FB2u64 << 42) | (0x0F71u64 << 21) | 0x0F80
    );
    assert_eq!(pack_code_points(&[1, 0, 0]), 1u64 << 42);
    assert_eq!(pack_code_points(&[0, 1, 0]), 1u64 << 21);
}

#[test]
fn packed_keys_of_different_sequences_differ() {
    let keys = [
        pack_code_points(&[0x41, 0x42]),
        pack_code_points(&[0x42, 0x41]),
        pack_code_points(&[0x41, 0x42, 0x43]),
        pack_code_points(&[0x41, 0x43, 0x42]),
        pack_code_points(&[0x43, 0x41, 0x42]),
    ];
    for i in 0..keys.len() {
        for j in 0..keys.len() {
            if i != j {
                assert_ne!(keys[i], keys[j]);
            }
        }
    }
}
