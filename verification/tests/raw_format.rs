use std::mem;

use symcache::raw::{align_to_eight, File, Function, Header, Range, SourceLocation, String};

#[test]
fn test_sizeof() {
    assert_eq!(mem::size_of::<Header>(), 32);
    assert_eq!(mem::align_of::<Header>(), 4);

    assert_eq!(mem::size_of::<Function>(), 12);
    assert_eq!(mem::align_of::<Function>(), 4);

    assert_eq!(mem::size_of::<File>(), 12);
    assert_eq!(mem::align_of::<File>(), 4);

    assert_eq!(mem::size_of::<SourceLocation>(), 16);
    assert_eq!(mem::align_of::<SourceLocation>(), 4);

    assert_eq!(mem::size_of::<String>(), 8);
    assert_eq!(mem::align_of::<String>(), 4);

    assert_eq!(mem::size_of::<Range>(), 4);
    assert_eq!(mem::align_of::<Range>(), 4);
}

#[test]
fn align_to_eight_values() {
    assert_eq!(align_to_eight(0), 0);
    assert_eq!(align_to_eight(1), 7);
    assert_eq!(align_to_eight(7), 1);
    assert_eq!(align_to_eight(8), 0);
    assert_eq!(align_to_eight(12), 4);
    assert_eq!(align_to_eight(16), 0);
}
