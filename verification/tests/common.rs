use creep_core::common::{BodyPartType, BodyParts, Hits, Id, Position, ResourceType, Room};

#[test]
fn position_composes_room_and_offsets() {
    let p = Position::new(24, 42, Room::new(-3, 7));
    assert_eq!(p.x, 24);
    assert_eq!(p.y, 42);
    assert_eq!(p.room, Room::new(-3, 7));
    assert_eq!(p.room.to_string(), "W2N7");
}

#[test]
fn hits_default_is_zero() {
    let h = Hits::default();
    assert_eq!(h.hits, 0);
    assert_eq!(h.max_hits, 0);
}

#[test]
fn resource_type_default_is_empty() {
    assert_eq!(ResourceType::default(), ResourceType::Empty);
}

#[test]
fn id_equals_is_exact_byte_equality() {
    let mut a = [0u8; 12];
    let mut b = [0u8; 12];
    a[11] = 1;
    b[11] = 2;
    assert!(!Id::new(a).equals(&Id::new(b)));
    b[11] = 1;
    assert!(Id::new(a).equals(&Id::new(b)));
}

#[test]
fn body_parts_keep_order() {
    let mut parts = BodyParts::new();
    assert_eq!(parts.len(), 0);
    assert!(parts.try_push(BodyPartType::Move, ResourceType::Empty));
    assert!(parts.try_push(BodyPartType::Work, ResourceType::Energy));
    assert_eq!(parts.len(), 2);
    assert_eq!(parts.get(0), Some((BodyPartType::Move, ResourceType::Empty)));
    assert_eq!(parts.get(1), Some((BodyPartType::Work, ResourceType::Energy)));
    assert_eq!(parts.get(2), None);
}

#[test]
fn body_parts_are_bounded_at_fifty() {
    let mut parts = BodyParts::new();
    for _ in 0..50 {
        assert!(parts.try_push(BodyPartType::Tough, ResourceType::Empty));
    }
    assert_eq!(parts.len(), 50);
    assert!(!parts.try_push(BodyPartType::Move, ResourceType::Empty));
    assert_eq!(parts.len(), 50);
    assert_eq!(parts.get(49), Some((BodyPartType::Tough, ResourceType::Empty)));
}
