use jamkey::key::password_from_checksum;
use jamkey::{InvalidKey, RecoveryKey};

#[test]
fn short_key() {
    let key = RecoveryKey::from_str("203c-d001-0000-001d-e960-227d").unwrap();
    assert_eq!("494eab7c", key.calculate_password())
}

#[test]
fn known_key() {
    let key = RecoveryKey::from_str("203c-d001-4f30-609d-5125-646a").unwrap();
    assert_eq!("66b14918", key.calculate_password())
}

#[test]
fn groups_pack_top_first() {
    let key = RecoveryKey::from_str("203c-d001-4f30-609d-5125-646a").unwrap();
    assert_eq!(key.value(), 0x4f30_609d_5125_646a);
}

#[test]
fn wrong_first_field_is_rejected() {
    assert_eq!(
        RecoveryKey::from_str("203d-d001-0000-0000-0000-0000"),
        Err(InvalidKey)
    );
}

#[test]
fn wrong_second_field_is_rejected() {
    assert_eq!(
        RecoveryKey::from_str("203c-d000-0000-0000-0000-0000"),
        Err(InvalidKey)
    );
}

#[test]
fn empty_and_prefix_only_are_rejected() {
    assert_eq!(RecoveryKey::from_str(""), Err(InvalidKey));
    assert_eq!(RecoveryKey::from_str("203c"), Err(InvalidKey));
    assert_eq!(RecoveryKey::from_str("203c-d001"), Err(InvalidKey));
    assert_eq!(RecoveryKey::from_str("203c-d001-"), Err(InvalidKey));
}

#[test]
fn three_groups_are_rejected() {
    assert_eq!(
        RecoveryKey::from_str("203c-d001-0000-001d-e960"),
        Err(InvalidKey)
    );
}

#[test]
fn non_hex_group_is_rejected() {
    assert_eq!(
        RecoveryKey::from_str("203c-d001-zzzz-001d-e960-227d"),
        Err(InvalidKey)
    );
    assert_eq!(
        RecoveryKey::from_str("203c-d001-0000-001d-e960-227g"),
        Err(InvalidKey)
    );
}

#[test]
fn empty_group_is_rejected() {
    assert_eq!(
        RecoveryKey::from_str("203c-d001-0000--e960-227d"),
        Err(InvalidKey)
    );
}

#[test]
fn signed_or_prefixed_group_is_rejected() {
    assert_eq!(
        RecoveryKey::from_str("203c-d001-+1-001d-e960-227d"),
        Err(InvalidKey)
    );
    assert_eq!(
        RecoveryKey::from_str("203c-d001-0x1-001d-e960-227d"),
        Err(InvalidKey)
    );
}

#[test]
fn group_above_sixteen_bits_is_rejected() {
    assert_eq!(
        RecoveryKey::from_str("203c-d001-10000-001d-e960-227d"),
        Err(InvalidKey)
    );
}

#[test]
fn short_upper_and_zero_led_groups_parse_by_value() {
    let key = RecoveryKey::from_str("203c-d001-0-1D-E960-00227d").unwrap();
    assert_eq!(key.value(), 0x0000_001d_e960_227d);
    assert_eq!("494eab7c", key.calculate_password());
}

#[test]
fn fields_after_the_sixth_are_ignored() {
    let key = RecoveryKey::from_str("203c-d001-0000-001d-e960-227d-extra").unwrap();
    assert_eq!(key.value(), 0x0000_001d_e960_227d);
    assert_eq!("494eab7c", key.calculate_password());
    let more = RecoveryKey::from_str("203c-d001-0000-001d-e960-227d-zz-").unwrap();
    assert_eq!(more.value(), 0x0000_001d_e960_227d);
}

#[test]
fn formatted_values_parse_back() {
    for v in [0u64, 1, 0xffff, 0x0123_4567_89ab_cdef, u64::MAX, 0x8000_0000_0000_0000] {
        let text = format!(
            "203c-d001-{:04x}-{:04x}-{:04x}-{:04x}",
            v >> 48,
            (v >> 32) & 0xffff,
            (v >> 16) & 0xffff,
            v & 0xffff
        );
        assert_eq!(RecoveryKey::from_str(&text).unwrap().value(), v);
    }
}

#[test]
fn parsing_twice_gives_the_same_password() {
    let text = "203c-d001-4f30-609d-5125-646a";
    let a = RecoveryKey::from_str(text).unwrap();
    let b = RecoveryKey::from_str(text).unwrap();
    assert_eq!(a, b);
    assert_eq!(a.calculate_password(), b.calculate_password());
}

#[test]
fn passwords_of_edge_values() {
    let zero = RecoveryKey::from_str("203c-d001-0-0-0-0").unwrap();
    assert_eq!("5dff949b", zero.calculate_password());
    let top = RecoveryKey::from_str("203c-d001-ffff-ffff-ffff-ffff").unwrap();
    assert_eq!("bc8bb006", top.calculate_password());
    let mixed = RecoveryKey::from_str("203c-d001-0123-4567-89ab-cdef").unwrap();
    assert_eq!("973b0fcc", mixed.calculate_password());
}

#[test]
fn checksum_is_written_without_padding() {
    assert_eq!(password_from_checksum(0), "0");
    assert_eq!(password_from_checksum(0xf), "f");
    assert_eq!(password_from_checksum(0x10), "10");
    assert_eq!(password_from_checksum(0x0abc), "abc");
    assert_eq!(password_from_checksum(0x494e_ab7c), "494eab7c");
    assert_eq!(password_from_checksum(u32::MAX), "ffffffff");
}

#[test]
fn trait_parse_agrees() {
    let key: RecoveryKey = "203c-d001-0000-001d-e960-227d".parse().unwrap();
    assert_eq!(key.value(), 0x0000_001d_e960_227d);
    let bad: Result<RecoveryKey, InvalidKey> = "203c".parse();
    assert_eq!(bad, Err(InvalidKey));
}

#[test]
fn error_message() {
    assert_eq!(InvalidKey.message(), "invalid key");
}
