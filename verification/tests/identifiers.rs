use npeg_rs::IdentifierCounter;
use npeg_rs::OpaqueIdentifier;
use std::collections::hash_map::DefaultHasher;
use std::hash::Hash;
use std::hash::Hasher;

struct UnHashableData {/* can't hash me! */}

struct KeyStruct {
    identifier: OpaqueIdentifier,
    _some_unhashable_data: UnHashableData,
}

impl Hash for KeyStruct {
    fn hash<H: Hasher>(&self, state: &mut H) {
        self.identifier.hash(state);
    }
}

fn hash_of(key: &KeyStruct) -> u64 {
    let mut hasher = DefaultHasher::new();
    key.hash(&mut hasher);
    hasher.finish()
}

#[test]
fn test_manual_hash_impl() {
    let mut counter = IdentifierCounter::new();
    let first = KeyStruct {
        identifier: OpaqueIdentifier::new(&mut counter),
        _some_unhashable_data: UnHashableData {},
    };
    let second = KeyStruct {
        identifier: OpaqueIdentifier::new(&mut counter),
        _some_unhashable_data: UnHashableData {},
    };
    assert_eq!(hash_of(&first), hash_of(&first));
    assert_ne!(hash_of(&first), hash_of(&second));
}

#[test]
fn identifiers_count_up_from_zero() {
    let mut counter = IdentifierCounter::new();
    let first = OpaqueIdentifier::new(&mut counter);
    let second = OpaqueIdentifier::new(&mut counter);
    let third = OpaqueIdentifier::new(&mut counter);
    assert_eq!(first.id(), 0);
    assert_eq!(second.id(), 1);
    assert_eq!(third.id(), 2);
    assert_ne!(first, second);
    assert_ne!(second, third);
    assert!(counter.has_next());
}

#[test]
fn counters_are_independent() {
    let mut left = IdentifierCounter::new();
    let mut right = IdentifierCounter::new();
    let a = OpaqueIdentifier::new(&mut left);
    let _ = OpaqueIdentifier::new(&mut left);
    let b = OpaqueIdentifier::new(&mut right);
    assert_eq!(a, b);
}
