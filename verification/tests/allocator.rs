use animstore::keys::IndexGenerator;

#[test]
fn first_keys_then_reuse() {
    let mut gen = IndexGenerator::new();
    assert_eq!(gen.next_index(), 0);
    assert_eq!(gen.next_index(), 1);
    gen.remove_index(0);
    assert_eq!(gen.next_index(), 0);
}

#[test]
fn release_on_fresh_allocator_has_no_effect() {
    let mut gen = IndexGenerator::new();
    gen.remove_index(5);
    assert_eq!(gen.next_index(), 0);
}

#[test]
fn freed_keys_come_back_most_recent_first() {
    let mut gen = IndexGenerator::new();
    assert_eq!(gen.next_index(), 0);
    assert_eq!(gen.next_index(), 1);
    assert_eq!(gen.next_index(), 2);
    gen.remove_index(1);
    gen.remove_index(2);
    // releasing the mark itself retires it instead of recording it
    assert_eq!(gen.next_index(), 1);
    assert_eq!(gen.next_index(), 2);
    assert_eq!(gen.next_index(), 3);
}

#[test]
fn releasing_the_first_key_resets_entirely() {
    let mut gen = IndexGenerator::new();
    assert_eq!(gen.next_index(), 0);
    gen.remove_index(0);
    assert_eq!(gen.next_index(), 0);
    assert_eq!(gen.next_index(), 1);
}

#[test]
fn releasing_beyond_the_mark_is_ignored() {
    let mut gen = IndexGenerator::new();
    assert_eq!(gen.next_index(), 0);
    gen.remove_index(7);
    assert_eq!(gen.next_index(), 1);
}

#[test]
fn double_release_records_a_key_once() {
    let mut gen = IndexGenerator::new();
    assert_eq!(gen.next_index(), 0);
    assert_eq!(gen.next_index(), 1);
    assert_eq!(gen.next_index(), 2);
    gen.remove_index(1);
    gen.remove_index(1);
    assert_eq!(gen.next_index(), 1);
    assert_eq!(gen.next_index(), 3);
}
