use cophmatch::hash::bloom_set_hash;

fn reference_hash(items: &[u16]) -> u64 {
    // independent rendering of the modified Fowler-Noll-Vo combination
    let mut out: u64 = 0;
    for &i in items {
        let mut h: u64 = 0xcbf29ce484222325;
        h = (h ^ ((i & 0xff) as u64)).wrapping_mul(0x100000001b3);
        h = (h ^ ((i >> 8) as u64)).wrapping_mul(0x100000001b3);
        out ^= h;
    }
    out
}

#[test]
fn empty_set_hashes_to_zero() {
    assert_eq!(bloom_set_hash(&[]), 0);
}

#[test]
fn matches_the_reference_combination() {
    for items in [
        vec![0u16],
        vec![1u16, 2, 3],
        vec![258u16],
        vec![65535u16, 0, 77],
    ] {
        assert_eq!(bloom_set_hash(&items), reference_hash(&items));
    }
}

#[test]
fn hash_is_order_independent() {
    let base = vec![4u16, 1, 9, 300, 77];
    let h = bloom_set_hash(&base);
    let perms: Vec<Vec<u16>> = vec![
        vec![1, 4, 9, 300, 77],
        vec![77, 300, 9, 1, 4],
        vec![9, 77, 4, 1, 300],
        vec![300, 4, 77, 9, 1],
    ];
    for p in perms {
        assert_eq!(bloom_set_hash(&p), h);
    }
}

#[test]
fn different_singletons_hash_differently() {
    assert_ne!(bloom_set_hash(&[1]), bloom_set_hash(&[2]));
    assert_ne!(bloom_set_hash(&[0]), bloom_set_hash(&[256]));
}
