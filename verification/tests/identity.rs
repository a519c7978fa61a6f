use entity_sync::uid::{EntityId, IdentityError, Uid, UidAllocator};

#[test]
fn fresh_identifiers_count_up_from_zero() {
    let mut allocator = UidAllocator::new();
    assert_eq!(allocator.allocate(EntityId(10), None), Ok(Uid(0)));
    assert_eq!(allocator.allocate(EntityId(11), None), Ok(Uid(1)));
    assert_eq!(allocator.allocate(EntityId(12), None), Ok(Uid(2)));
    assert_eq!(allocator.len(), 3);
}

#[test]
fn a_fixed_identifier_is_used_as_it_is() {
    let mut allocator = UidAllocator::new();
    assert_eq!(allocator.allocate(EntityId(1), Some(Uid(7))), Ok(Uid(7)));
    assert_eq!(allocator.resolve(Uid(7)), Ok(EntityId(1)));
    assert_eq!(allocator.allocate(EntityId(2), None), Ok(Uid(8)));
    assert_eq!(allocator.allocate(EntityId(3), Some(Uid(3))), Ok(Uid(3)));
    assert_eq!(allocator.allocate(EntityId(4), None), Ok(Uid(9)));
}

#[test]
fn what_was_allocated_resolves_to_its_entity() {
    let mut allocator = UidAllocator::new();
    for entity in 0..20usize {
        let uid = allocator.allocate(EntityId(entity), None).unwrap();
        assert_eq!(allocator.resolve(uid), Ok(EntityId(entity)));
        assert_eq!(allocator.uid_of(EntityId(entity)), Some(uid));
    }
}

#[test]
fn two_live_entities_never_share_an_identifier() {
    let mut allocator = UidAllocator::new();
    let mut seen = Vec::new();
    for entity in 0..50usize {
        let fixed = if entity % 7 == 0 { Some(Uid(100 + entity as u32)) } else { None };
        let uid = allocator.allocate(EntityId(entity), fixed).unwrap();
        assert!(!seen.contains(&uid));
        seen.push(uid);
    }
}

#[test]
fn an_unknown_identifier_is_not_found() {
    let mut allocator = UidAllocator::new();
    assert_eq!(allocator.resolve(Uid(0)), Err(IdentityError::NotFound));
    assert_eq!(allocator.release(Uid(0)), Err(IdentityError::NotFound));
    assert_eq!(allocator.uid_of(EntityId(0)), None);
    allocator.allocate(EntityId(5), None).unwrap();
    assert_eq!(allocator.resolve(Uid(1)), Err(IdentityError::NotFound));
}

#[test]
fn a_released_identifier_is_not_found_and_not_drawn_afresh() {
    let mut allocator = UidAllocator::new();
    assert_eq!(allocator.allocate(EntityId(5), None), Ok(Uid(0)));
    assert_eq!(allocator.release(Uid(0)), Ok(EntityId(5)));
    assert_eq!(allocator.resolve(Uid(0)), Err(IdentityError::NotFound));
    assert_eq!(allocator.release(Uid(0)), Err(IdentityError::NotFound));
    assert_eq!(allocator.len(), 0);
    assert_eq!(allocator.allocate(EntityId(5), None), Ok(Uid(1)));
    assert_eq!(allocator.allocate(EntityId(6), Some(Uid(0))), Ok(Uid(0)));
}

#[test]
fn an_identifier_in_use_is_refused() {
    let mut allocator = UidAllocator::new();
    allocator.allocate(EntityId(1), Some(Uid(7))).unwrap();
    assert_eq!(allocator.allocate(EntityId(2), Some(Uid(7))), Err(IdentityError::UidInUse));
    assert_eq!(allocator.resolve(Uid(7)), Ok(EntityId(1)));
    assert_eq!(allocator.len(), 1);
}

#[test]
fn an_entity_in_use_is_refused() {
    let mut allocator = UidAllocator::new();
    allocator.allocate(EntityId(1), None).unwrap();
    assert_eq!(allocator.allocate(EntityId(1), None), Err(IdentityError::EntityInUse));
    assert_eq!(allocator.allocate(EntityId(1), Some(Uid(9))), Err(IdentityError::EntityInUse));
    assert_eq!(allocator.allocate(EntityId(2), None), Ok(Uid(1)));
}

#[test]
fn the_identifiers_run_out_after_the_last() {
    let mut allocator = UidAllocator::new();
    assert_eq!(allocator.allocate(EntityId(1), Some(Uid(u32::MAX - 1))), Ok(Uid(u32::MAX - 1)));
    assert_eq!(allocator.allocate(EntityId(2), None), Ok(Uid(u32::MAX)));
    assert_eq!(allocator.allocate(EntityId(3), None), Err(IdentityError::Exhausted));
    assert_eq!(allocator.allocate(EntityId(3), Some(Uid(4))), Ok(Uid(4)));
    assert_eq!(allocator.allocate(EntityId(4), None), Err(IdentityError::Exhausted));
}
