use sand_core::cell::Cell;
use sand_core::chunk::Chunk;
use sand_core::hash::{chunk_hash, combine, first_diverging_chunk, state_hash, xxh3_64_bytes};
use sand_core::world::World;

#[test]
fn stable_and_sensitive() {
    let mut a = World::new(2, 2, 7);
    let b = World::new(2, 2, 7);
    assert_eq!(state_hash(&a), state_hash(&b));
    a.chunks[3].cells[0] = Cell::pack(2, 0);
    assert_ne!(state_hash(&a), state_hash(&b));
    assert_eq!(first_diverging_chunk(&a, &b), Some((1, 1)));
}

#[test]
fn combine_is_stable_and_sensitive_to_either_input() {
    assert_eq!(combine(1, 2), combine(1, 2));
    assert_ne!(combine(1, 2), combine(1, 3));
    assert_ne!(combine(1, 2), combine(9, 2));
}

#[test]
fn combine_hashes_the_little_endian_concatenation() {
    let mut bytes = Vec::new();
    bytes.extend_from_slice(&5u64.to_le_bytes());
    bytes.extend_from_slice(&6u64.to_le_bytes());
    assert_eq!(combine(5, 6), xxh3_64_bytes(&bytes));
}

#[test]
fn chunk_hash_covers_cells_and_coordinates() {
    let c = Chunk::new();
    let mut bytes = Vec::new();
    for _ in 0..4096 {
        bytes.extend_from_slice(&0u32.to_le_bytes());
    }
    bytes.extend_from_slice(&1u32.to_le_bytes());
    bytes.extend_from_slice(&2u32.to_le_bytes());
    assert_eq!(chunk_hash(&c, 1, 2), xxh3_64_bytes(&bytes));
    assert_ne!(chunk_hash(&c, 1, 2), chunk_hash(&c, 2, 1));
}

#[test]
fn state_hash_sees_the_tick() {
    let a = World::new(1, 1, 3);
    let mut b = World::new(1, 1, 3);
    b.tick = 1;
    assert_ne!(state_hash(&a), state_hash(&b));
    assert_eq!(first_diverging_chunk(&a, &b), None);
}

#[test]
fn xxh3_of_empty_input_is_the_published_value() {
    assert_eq!(xxh3_64_bytes(&[]), 0x2D06_8005_38D3_94C2);
}
