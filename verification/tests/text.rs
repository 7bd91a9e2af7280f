use rustfs2::text::{
    checksum, create_tlist, generate_string_alpha, generate_string_fixed, parse_unit, scale_steps,
    strip, to_hex, Unit,
};

#[test]
fn test_strip() {
    assert_eq!(strip(r#""bob""#.to_string()), "bob");
}

#[test]
fn strip_of_two_characters_is_empty() {
    assert_eq!(strip("\"\"".to_string()), "");
}

#[test]
fn strip_counts_characters_not_bytes() {
    assert_eq!(strip("«né»".to_string()), "né");
}

#[test]
fn fixed_string_has_the_length_asked_for() {
    assert_eq!(generate_string_fixed(0), "");
    assert_eq!(generate_string_fixed(5), "AAAAA");
    assert_eq!(generate_string_fixed(2073).len(), 2073);
}

#[test]
fn slot_table_starts_empty() {
    let list = create_tlist::<u32>(16);
    assert_eq!(list.len(), 16);
    assert!(list.iter().all(|slot| slot.is_none()));
    assert_eq!(create_tlist::<u8>(0).len(), 0);
}

#[test]
fn hex_puts_the_high_digit_first() {
    assert_eq!(to_hex(&[]), "");
    assert_eq!(to_hex(&[0x00, 0x0f, 0xa0, 0xff, 0x1b]), "000fa0ff1b");
}

#[test]
fn random_string_is_alphanumeric() {
    let s = generate_string_alpha(500);
    assert_eq!(s.chars().count(), 500);
    assert!(s.chars().all(|c| c.is_ascii_alphanumeric()));
    assert_eq!(generate_string_alpha(0), "");
}

#[test]
fn checksum_of_known_inputs() {
    assert_eq!(
        checksum(b"hello world"),
        "b94d27b9934d3e08a52e52d7da7dabfac484efe37a5380ee9088f7ace2efcde9"
    );
    assert_eq!(
        checksum(b""),
        "e3b0c44298fc1c149afbf4c8996fb92427ae41e4649b934ca495991b7852b855"
    );
}

#[test]
fn unit_names_are_exact() {
    assert_eq!(parse_unit("B"), Some(Unit::B));
    assert_eq!(parse_unit("KB"), Some(Unit::KB));
    assert_eq!(parse_unit("MB"), Some(Unit::MB));
    assert_eq!(parse_unit("G"), Some(Unit::G));
    assert_eq!(parse_unit(""), None);
    assert_eq!(parse_unit("PB"), None);
    assert_eq!(parse_unit("XB"), None);
    assert_eq!(parse_unit("GB"), None);
    assert_eq!(parse_unit("kb"), None);
    assert_eq!(parse_unit("K"), None);
    assert_eq!(parse_unit("MBs"), None);
}

#[test]
fn scale_steps_count_powers_of_1024() {
    assert_eq!(scale_steps(Unit::G, Unit::KB), Some(2));
    assert_eq!(scale_steps(Unit::G, Unit::MB), Some(1));
    assert_eq!(scale_steps(Unit::G, Unit::B), Some(3));
    assert_eq!(scale_steps(Unit::MB, Unit::KB), Some(1));
    assert_eq!(scale_steps(Unit::MB, Unit::G), Some(-1));
    assert_eq!(scale_steps(Unit::MB, Unit::B), Some(2));
    assert_eq!(scale_steps(Unit::KB, Unit::G), Some(-2));
    assert_eq!(scale_steps(Unit::KB, Unit::MB), Some(-1));
    assert_eq!(scale_steps(Unit::KB, Unit::B), Some(1));
    assert_eq!(scale_steps(Unit::B, Unit::KB), Some(-1));
    assert_eq!(scale_steps(Unit::B, Unit::MB), Some(-2));
    assert_eq!(scale_steps(Unit::B, Unit::G), Some(-3));
    assert_eq!(scale_steps(Unit::MB, Unit::MB), None);
    assert_eq!(scale_steps(Unit::B, Unit::B), None);
}
