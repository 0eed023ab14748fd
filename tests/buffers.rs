use myrmidon::buffers::BufferRegistry;

#[test]
fn allocate_write_take_once() {
    let mut reg = BufferRegistry::new();
    let id = reg.allocate(4);
    assert_eq!(reg.len_of(id), Some(4));
    assert!(reg.write(id, 1, b"ab"));
    assert!(!reg.write(id, 3, b"ab"));
    assert_eq!(reg.take(id), Some(vec![0, b'a', b'b', 0]));
    assert_eq!(reg.take(id), None);
    assert_eq!(reg.len_of(id), None);
}

#[test]
fn free_releases_and_ids_are_fresh() {
    let mut reg = BufferRegistry::new();
    let a = reg.allocate(0);
    let b = reg.allocate(2);
    assert_ne!(a, b);
    assert!(reg.free(a));
    assert!(!reg.free(a));
    assert_eq!(reg.take(b), Some(vec![0, 0]));
}
