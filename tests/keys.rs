use meshanina::{atomic_key, chunk_key};

#[test]
fn atomic_key_is_blake3_of_key() {
    let k = [42u8; 32];
    assert_eq!(atomic_key(&k), *blake3::hash(&k).as_bytes());
    assert_ne!(atomic_key(&k), k);
}

#[test]
fn chunk_key_is_keyed_blake3_of_index() {
    let k = [42u8; 32];
    assert_eq!(
        chunk_key(&k, 3),
        *blake3::keyed_hash(&k, &3u64.to_le_bytes()).as_bytes()
    );
    assert_ne!(chunk_key(&k, 0), chunk_key(&k, 1));
}
