use ledger::interner::Interner;

#[test]
fn test_with_capacity_pre_interns_empty_string() {
    let interner = Interner::with_capacity(10);
    assert_eq!(interner.name(0), "");
}

#[test]
fn test_intern_empty_string_twice_returns_same_index() {
    let mut interner = Interner::with_capacity(10);

    let idx1 = interner.intern("");
    let idx2 = interner.intern("");

    assert_eq!(idx1, 0);
    assert_eq!(idx2, 0, "interning \"\" twice should return the same index");
}

#[test]
fn test_intern_basic_functionality() {
    let mut interner = Interner::with_capacity(10);

    let idx1 = interner.intern("hello");
    let idx2 = interner.intern("world");
    let idx3 = interner.intern("rust");

    assert_eq!(idx1, interner.intern("hello"));
    assert_eq!(idx2, interner.intern("world"));
    assert_eq!(idx3, interner.intern("rust"));

    assert_eq!(interner.name(idx1), "hello");
    assert_eq!(interner.name(idx2), "world");
    assert_eq!(interner.name(idx3), "rust");
}

#[test]
fn intern_new_strings_get_consecutive_indices() {
    let mut interner = Interner::with_capacity(0);
    assert_eq!(interner.intern("a"), 1);
    assert_eq!(interner.intern("b"), 2);
    assert_eq!(interner.intern("a"), 1);
    assert_eq!(interner.intern("c"), 3);
    assert_eq!(interner.name(3), "c");
}
