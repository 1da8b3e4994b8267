use bytes_trie::encoding::{CompactDelta, CompactValue};
use bytes_trie::{ExtensionType, ParserError};

fn value_round_trip(value: i32, is_final: bool, expected: &[u8]) {
    let encoded = CompactValue::encode(value, is_final);
    assert_eq!(encoded, expected);
    let mut bytes = vec![0xaa];
    bytes.extend_from_slice(&encoded);
    bytes.push(0x55);
    assert_eq!(CompactValue::get_width(&bytes, 1), encoded.len());
    assert_eq!(CompactValue::read_int(&bytes, 1), value);
    assert_eq!(CompactValue::is_final(bytes[1]), is_final);
}

#[test]
fn values_of_every_width() {
    value_round_trip(0, false, &[0x20]);
    value_round_trip(0, true, &[0x21]);
    value_round_trip(0x40, true, &[0xa1]);
    value_round_trip(0x41, false, &[0xa2, 0x41]);
    value_round_trip(0x1aff, true, &[0xd7, 0xff]);
    value_round_trip(0x1b00, false, &[0xd8, 0x1b, 0x00]);
    value_round_trip(0x11ffff, true, &[0xfb, 0xff, 0xff]);
    value_round_trip(0x120000, false, &[0xfc, 0x12, 0x00, 0x00]);
    value_round_trip(0xffffff, true, &[0xfd, 0xff, 0xff, 0xff]);
    value_round_trip(0x1000000, false, &[0xfe, 0x01, 0x00, 0x00, 0x00]);
    value_round_trip(i32::MAX, true, &[0xff, 0x7f, 0xff, 0xff, 0xff]);
    value_round_trip(-1, true, &[0xff, 0xff, 0xff, 0xff, 0xff]);
    value_round_trip(i32::MIN, false, &[0xfe, 0x80, 0x00, 0x00, 0x00]);
}

fn delta_round_trip(delta: i32, expected: &[u8]) {
    let encoded = CompactDelta::encode(delta);
    assert_eq!(encoded, expected);
    let mut bytes = vec![0xaa];
    bytes.extend_from_slice(&encoded);
    bytes.push(0x55);
    assert_eq!(CompactDelta::get_width(&bytes, 1), encoded.len());
    assert_eq!(CompactDelta::read_int(&bytes, 1), delta);
}

#[test]
fn deltas_of_every_width() {
    delta_round_trip(1, &[0x01]);
    delta_round_trip(0xbf, &[0xbf]);
    delta_round_trip(0xc0, &[0xc0, 0xc0]);
    delta_round_trip(0x2fff, &[0xef, 0xff]);
    delta_round_trip(0x3000, &[0xf0, 0x30, 0x00]);
    delta_round_trip(0xdffff, &[0xfd, 0xff, 0xff]);
    delta_round_trip(0xe0000, &[0xfe, 0x0e, 0x00, 0x00]);
    delta_round_trip(0xffffff, &[0xfe, 0xff, 0xff, 0xff]);
    delta_round_trip(0x1000000, &[0xff, 0x01, 0x00, 0x00, 0x00]);
    delta_round_trip(i32::MAX, &[0xff, 0x7f, 0xff, 0xff, 0xff]);
}

#[test]
fn every_value_near_the_thresholds_round_trips() {
    for base in [0, 0x40, 0x1aff, 0x11ffff, 0xffffff, i32::MAX - 4, i32::MIN + 4] {
        for step in -4..=4 {
            let value: i32 = base + step;
            for is_final in [false, true] {
                let encoded = CompactValue::encode(value, is_final);
                assert!(encoded.len() <= 5);
                assert_eq!(CompactValue::read_int(&encoded, 0), value);
                assert_eq!(CompactValue::get_width(&encoded, 0), encoded.len());
                assert_eq!(CompactValue::is_final(encoded[0]), is_final);
            }
        }
    }
}

#[test]
fn extension_types_from_bytes() {
    assert_eq!(ExtensionType::from_byte(b'u'), Ok(ExtensionType::Unicode));
    assert_eq!(ExtensionType::from_byte(b'U'), Ok(ExtensionType::Unicode));
    assert_eq!(ExtensionType::from_byte(b't'), Ok(ExtensionType::Transform));
    assert_eq!(ExtensionType::from_byte(b'X'), Ok(ExtensionType::Private));
    assert_eq!(ExtensionType::from_byte(b'A'), Ok(ExtensionType::Other('a')));
    assert_eq!(ExtensionType::from_byte(b'7'), Ok(ExtensionType::Other('7')));
    assert_eq!(
        ExtensionType::from_byte(b'-'),
        Err(ParserError::InvalidExtension)
    );
    assert_eq!(
        ExtensionType::from_byte(0xe9),
        Err(ParserError::InvalidExtension)
    );
}
