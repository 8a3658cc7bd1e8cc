use goldilocks_fri::merkle::hash_sha;
use goldilocks_fri::random::{get_pseudorandom_indices, is_compatible_modulus};

#[test]
fn test_get_pseudorandom_indices() {
    let seed = b"seed";
    let modulus = 100;
    let count = 10;
    let exclude_multiples_of = 42;
    let o = get_pseudorandom_indices(seed, modulus, count, exclude_multiples_of);
    assert_eq!(o.len(), count);
    for i in 0..count {
        assert!(o[i] < modulus);
        assert_ne!(o[i] % exclude_multiples_of, 0);
    }
}

#[test]
fn indices_follow_the_extended_seed() {
    let seed = b"seed".to_vec();
    let first = hash_sha(seed.clone());
    let mut data = seed.clone();
    data.extend_from_slice(&first);
    let o = get_pseudorandom_indices(&seed, 1000, 4, 0);
    for i in 0..4 {
        let mut w = [0u8; 8];
        w.copy_from_slice(&data[8 * i..8 * i + 8]);
        assert_eq!(o[i], u64::from_be_bytes(w) % 1000);
    }
}

#[test]
fn long_seed_extension_hashes_last_window() {
    let seed: Vec<u8> = (0..40u8).collect();
    let digest = hash_sha(seed[8..].to_vec());
    let mut data = seed.clone();
    data.extend_from_slice(&digest);
    let o = get_pseudorandom_indices(&seed, u64::MAX, 9, 0);
    let mut w = [0u8; 8];
    w.copy_from_slice(&data[64..72]);
    assert_eq!(o[8], u64::from_be_bytes(w) % u64::MAX);
}

#[test]
fn exclusion_skips_multiples() {
    let o = get_pseudorandom_indices(b"another seed", 64, 200, 4);
    assert_eq!(o.len(), 200);
    for x in o {
        assert!(x < 64);
        assert_ne!(x % 4, 0);
    }
    assert_eq!(get_pseudorandom_indices(b"x", 5, 0, 0).len(), 0);
}

#[test]
fn exclusion_formula_on_first_word() {
    let seed = b"seed".to_vec();
    let mut data = seed.clone();
    data.extend_from_slice(&hash_sha(seed.clone()));
    let mut w = [0u8; 8];
    w.copy_from_slice(&data[0..8]);
    let word = u64::from_be_bytes(w);
    let real = 100u64 * 41 / 42;
    let x = word % real;
    let o = get_pseudorandom_indices(&seed, 100, 1, 42);
    assert_eq!(o[0], x + 1 + x / 41);
}

#[test]
fn compatibility_of_modulus_and_exclusion() {
    assert!(is_compatible_modulus(8, 7));
    assert!(is_compatible_modulus(5, 0));
    assert!(!is_compatible_modulus(0, 0));
    assert!(!is_compatible_modulus(8, 1));
    assert!(!is_compatible_modulus(1, 2));
    assert!(is_compatible_modulus(2, 2));
}
