use creep_core::common::Id;
use creep_core::registry::{ObjectHandle, Registry, RegistryFault};

fn id(tag: u8) -> Id {
    let mut bytes = [0u8; 12];
    bytes[0] = tag;
    Id::new(bytes)
}

#[test]
fn resolve_after_bind_returns_handle() {
    let mut registry = Registry::new();
    assert_eq!(registry.bind(id(1), ObjectHandle(41)), Ok(()));
    assert_eq!(registry.resolve(&id(1)), Some(ObjectHandle(41)));
}

#[test]
fn resolve_unknown_is_absent() {
    let registry = Registry::new();
    assert_eq!(registry.resolve(&id(9)), None);
}

#[test]
fn resolve_after_unbind_is_absent() {
    let mut registry = Registry::new();
    assert_eq!(registry.bind(id(1), ObjectHandle(41)), Ok(()));
    assert_eq!(registry.unbind(&id(1)), Ok(ObjectHandle(41)));
    assert_eq!(registry.resolve(&id(1)), None);
}

#[test]
fn resolve_never_returns_stale_or_wrong_handle() {
    let mut registry = Registry::new();
    assert_eq!(registry.bind(id(1), ObjectHandle(10)), Ok(()));
    assert_eq!(registry.bind(id(2), ObjectHandle(20)), Ok(()));
    assert_eq!(registry.bind(id(3), ObjectHandle(30)), Ok(()));
    // Detaching one object neither hides nor redirects the others.
    assert_eq!(registry.unbind(&id(2)), Ok(ObjectHandle(20)));
    assert_eq!(registry.resolve(&id(1)), Some(ObjectHandle(10)));
    assert_eq!(registry.resolve(&id(2)), None);
    assert_eq!(registry.resolve(&id(3)), Some(ObjectHandle(30)));
}

#[test]
fn duplicate_attach_faults() {
    let mut registry = Registry::new();
    assert_eq!(registry.bind(id(1), ObjectHandle(41)), Ok(()));
    assert_eq!(
        registry.bind(id(1), ObjectHandle(99)),
        Err(RegistryFault::DuplicateIdentity)
    );
    // The fault must not overwrite the existing mapping.
    assert_eq!(registry.resolve(&id(1)), Some(ObjectHandle(41)));
}

#[test]
fn unmatched_detach_faults() {
    let mut registry = Registry::new();
    assert_eq!(registry.unbind(&id(1)), Err(RegistryFault::MissingIdentity));
    assert_eq!(registry.bind(id(1), ObjectHandle(41)), Ok(()));
    assert_eq!(registry.unbind(&id(1)), Ok(ObjectHandle(41)));
    assert_eq!(registry.unbind(&id(1)), Err(RegistryFault::MissingIdentity));
}

#[test]
fn well_formed_lifetimes_keep_the_index_exact() {
    // A well-formed attach/detach stream: every identifier attached at most
    // once before its detach. After each event the registry holds exactly
    // the live objects.
    let mut registry = Registry::new();
    assert_eq!(registry.bind(id(1), ObjectHandle(10)), Ok(()));
    assert_eq!(registry.bind(id(2), ObjectHandle(20)), Ok(()));
    assert_eq!(registry.unbind(&id(1)), Ok(ObjectHandle(10)));
    assert_eq!(registry.bind(id(3), ObjectHandle(30)), Ok(()));
    // Re-attach of a detached identifier is legal and gets the new handle.
    assert_eq!(registry.bind(id(1), ObjectHandle(11)), Ok(()));
    assert_eq!(registry.resolve(&id(1)), Some(ObjectHandle(11)));
    assert_eq!(registry.resolve(&id(2)), Some(ObjectHandle(20)));
    assert_eq!(registry.resolve(&id(3)), Some(ObjectHandle(30)));
    assert_eq!(registry.unbind(&id(2)), Ok(ObjectHandle(20)));
    assert_eq!(registry.unbind(&id(3)), Ok(ObjectHandle(30)));
    assert_eq!(registry.unbind(&id(1)), Ok(ObjectHandle(11)));
    assert_eq!(registry.resolve(&id(1)), None);
    assert_eq!(registry.resolve(&id(2)), None);
    assert_eq!(registry.resolve(&id(3)), None);
}

#[test]
fn entry_count_tracks_live_objects_exactly() {
    let mut registry = Registry::new();
    assert_eq!(registry.len(), 0);
    assert_eq!(registry.bind(id(1), ObjectHandle(10)), Ok(()));
    assert_eq!(registry.bind(id(2), ObjectHandle(20)), Ok(()));
    assert_eq!(registry.len(), 2);
    // A faulted duplicate attach adds no entry.
    assert_eq!(
        registry.bind(id(2), ObjectHandle(99)),
        Err(RegistryFault::DuplicateIdentity)
    );
    assert_eq!(registry.len(), 2);
    assert_eq!(registry.unbind(&id(1)), Ok(ObjectHandle(10)));
    assert_eq!(registry.len(), 1);
}

#[test]
fn concurrent_free_reads_are_consistent() {
    // Lookups mutate nothing (resolve takes a shared borrow), so any number
    // of reads with no bind/unbind in flight observe one consistent state.
    let mut registry = Registry::new();
    assert_eq!(registry.bind(id(1), ObjectHandle(10)), Ok(()));
    assert_eq!(registry.bind(id(2), ObjectHandle(20)), Ok(()));
    let first = registry.resolve(&id(1));
    let second = registry.resolve(&id(2));
    for _ in 0..100 {
        assert_eq!(registry.resolve(&id(1)), first);
        assert_eq!(registry.resolve(&id(2)), second);
        assert_eq!(registry.resolve(&id(3)), None);
    }
}
