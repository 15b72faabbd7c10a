use procview::codec::{be_u64, bytes_to_hex, decode_address, encode_address, AddressError};

#[test]
fn encode_zero_is_fixed_width() {
    assert_eq!(encode_address(0), "0000000000000000");
}

#[test]
fn encode_max_is_all_f() {
    assert_eq!(encode_address(u64::MAX), "FFFFFFFFFFFFFFFF");
}

#[test]
fn encode_uses_upper_case_digits() {
    assert_eq!(encode_address(0xDEAD_BEEF), "00000000DEADBEEF");
}

#[test]
fn decode_full_width() {
    assert_eq!(decode_address("00000000DEADBEEF"), Ok(0xDEAD_BEEFu64));
}

#[test]
fn round_trip_holds_for_edge_values() {
    for x in [0u64, 1, 0x1000, 0xDEAD_BEEF, u64::MAX - 1, u64::MAX] {
        assert_eq!(decode_address(&encode_address(x)), Ok(x));
    }
}

#[test]
fn decode_accepts_short_and_lower_case() {
    assert_eq!(decode_address("ff"), Ok(255));
    assert_eq!(decode_address("0a10"), Ok(0x0A10));
}

#[test]
fn decode_rejects_empty() {
    assert_eq!(decode_address(""), Err(AddressError::InvalidAddress));
}

#[test]
fn decode_rejects_odd_digit_count() {
    assert_eq!(decode_address("123"), Err(AddressError::InvalidAddress));
}

#[test]
fn decode_rejects_non_hex_characters() {
    assert_eq!(decode_address("0x10"), Err(AddressError::InvalidAddress));
    assert_eq!(decode_address("GG"), Err(AddressError::InvalidAddress));
}

#[test]
fn decode_rejects_more_than_eight_bytes() {
    assert_eq!(
        decode_address("00000000000000000A"),
        Err(AddressError::InvalidAddress)
    );
}

#[test]
fn bytes_render_as_unseparated_upper_hex() {
    assert_eq!(bytes_to_hex(&[0x48, 0x65, 0x0f]), "48650F");
    assert_eq!(bytes_to_hex(&[]), "");
}

#[test]
fn big_endian_fold_matches_place_values() {
    assert_eq!(be_u64(&[1, 2]), 258);
    assert_eq!(be_u64(&[]), 0);
    assert_eq!(be_u64(&[0xFF; 8]), u64::MAX);
}
