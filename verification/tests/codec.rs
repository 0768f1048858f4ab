use creep_core::codec::{decode_id, decode_room, encode_id, encode_room};
use creep_core::common::{Id, Room};

#[test]
fn room_label_origin() {
    assert_eq!(encode_room(0, 0), "E0N0");
}

#[test]
fn room_label_both_negative() {
    assert_eq!(encode_room(-1, -1), "W0S0");
}

#[test]
fn room_label_mixed_signs() {
    assert_eq!(encode_room(5, -3), "E5S2");
    assert_eq!(encode_room(3, -1), "E3S0");
    assert_eq!(encode_room(-1, 0), "W0N0");
    assert_eq!(encode_room(-7, 4), "W6N4");
}

#[test]
fn room_label_axis_boundaries() {
    assert_eq!(encode_room(i16::MAX, i16::MAX), "E32767N32767");
    assert_eq!(encode_room(i16::MIN, i16::MIN), "W32767S32767");
    assert_eq!(encode_room(i16::MIN, i16::MAX), "W32767N32767");
}

#[test]
fn room_to_string_matches_encode_room() {
    let room = Room::new(12, -34);
    assert_eq!(room.to_string(), "E12S33");
    assert_eq!(room.to_string(), encode_room(12, -34));
}

#[test]
fn room_labels_distinct_near_origin() {
    // The one's-complement-like offset leaves no signed-zero ambiguity:
    // (0, 0) and (-1, -1) sit in different rooms and get different labels.
    assert_ne!(encode_room(0, 0), encode_room(-1, -1));
    assert_ne!(encode_room(0, 0), encode_room(-1, 0));
    assert_ne!(encode_room(0, 0), encode_room(0, -1));
}

#[test]
fn decode_room_inverts_encode_room() {
    for &(x, y) in &[
        (0i16, 0i16),
        (-1, -1),
        (5, -3),
        (3, -1),
        (-1, 0),
        (i16::MAX, i16::MIN),
        (i16::MIN, i16::MAX),
        (100, -100),
    ] {
        assert_eq!(decode_room(&encode_room(x, y)), Some((x, y)));
    }
}

#[test]
fn decode_room_known_labels() {
    assert_eq!(decode_room("E0N0"), Some((0, 0)));
    assert_eq!(decode_room("W0S0"), Some((-1, -1)));
    assert_eq!(decode_room("E5S2"), Some((5, -3)));
    assert_eq!(decode_room("W32767S32767"), Some((i16::MIN, i16::MIN)));
}

#[test]
fn decode_room_rejects_non_labels() {
    assert_eq!(decode_room(""), None);
    assert_eq!(decode_room("X0N0"), None);
    assert_eq!(decode_room("E0"), None);
    assert_eq!(decode_room("E0N"), None);
    assert_eq!(decode_room("EN0"), None);
    assert_eq!(decode_room("E00N0"), None);
    assert_eq!(decode_room("E0N01"), None);
    assert_eq!(decode_room("E32768N0"), None);
    assert_eq!(decode_room("E0N0 "), None);
    assert_eq!(decode_room("e0n0"), None);
    assert_eq!(decode_room("E-1N0"), None);
}

#[test]
fn id_all_zero_bytes() {
    let id = Id::new([0u8; 12]);
    assert_eq!(id.to_string(), "000000000000000000000000");
}

#[test]
fn id_leading_byte_ab() {
    let mut bytes = [0u8; 12];
    bytes[0] = 0xAB;
    let id = Id::new(bytes);
    let s = id.to_string();
    assert_eq!(&s[0..2], "ab");
    assert_eq!(s.len(), 24);
}

#[test]
fn encode_id_matches_id_to_string() {
    let bytes = [0x00, 0x11, 0x22, 0x33, 0x44, 0x55, 0x66, 0x77, 0x88, 0x99, 0xAA, 0xBB];
    assert_eq!(encode_id(&bytes), "00112233445566778899aabb");
    assert_eq!(encode_id(&bytes), Id::new(bytes).to_string());
}

#[test]
fn id_known_value() {
    let id = Id::new([0x01, 0x23, 0x45, 0x67, 0x89, 0xAB, 0xCD, 0xEF, 0x00, 0xFF, 0x10, 0x0F]);
    assert_eq!(id.to_string(), "0123456789abcdef00ff100f");
}

#[test]
fn id_encoding_deterministic() {
    let bytes = [7u8, 200, 13, 0, 255, 1, 2, 3, 4, 5, 6, 7];
    let a = Id::new(bytes);
    let b = Id::new(bytes);
    assert_eq!(a.to_string(), b.to_string());
    assert!(a.equals(&b));
}

#[test]
fn decode_id_inverts_encode_id() {
    let bytes = [0x01, 0x23, 0x45, 0x67, 0x89, 0xAB, 0xCD, 0xEF, 0x00, 0xFF, 0x10, 0x0F];
    assert_eq!(decode_id(&encode_id(&bytes)), Some(bytes));
    assert_eq!(decode_id("000000000000000000000000"), Some([0u8; 12]));
    assert_eq!(decode_id("0123456789abcdef00ff100f"), Some(bytes));
}

#[test]
fn decode_id_rejects_non_identifiers() {
    assert_eq!(decode_id(""), None);
    assert_eq!(decode_id("0123456789abcdef00ff100"), None);
    assert_eq!(decode_id("0123456789abcdef00ff100f0"), None);
    assert_eq!(decode_id("0123456789ABCDEF00FF100F"), None);
    assert_eq!(decode_id("0123456789abcdef00ff10_f"), None);
}

#[test]
fn id_random_has_canonical_form() {
    let id = Id::default();
    let s = id.to_string();
    assert_eq!(s.len(), 24);
    assert!(s.chars().all(|c| c.is_ascii_hexdigit() && !c.is_ascii_uppercase()));
}
