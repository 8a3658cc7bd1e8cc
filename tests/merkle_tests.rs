use goldilocks_fri::merkle::{hash_sha, merkelize, mk_branch, verify_branch};

#[test]
fn test_merkelize() {
    let data = vec![b"a".to_vec(), b"b".to_vec(), b"c".to_vec(), b"d".to_vec()];
    let tree = merkelize(&data);
    let expected_root = hash_sha(
        [
            hash_sha([b"a".to_vec(), b"b".to_vec()].concat().to_vec()),
            hash_sha([b"c".to_vec(), b"d".to_vec()].concat().to_vec()),
        ]
        .concat()
        .to_vec(),
    );
    assert_eq!(tree[1], expected_root);
}

#[test]
fn test_mk_branch() {
    let data = vec![b"a".to_vec(), b"b".to_vec(), b"c".to_vec(), b"d".to_vec()];
    let tree = merkelize(&data);
    let branch = mk_branch(&tree, 2);
    let expected_branch = vec![tree[6].clone(), tree[7].clone(), tree[2].clone()];
    assert_eq!(branch, expected_branch);
}

#[test]
fn test_verify_branch() {
    let data = vec![b"a".to_vec(), b"b".to_vec(), b"c".to_vec(), b"d".to_vec()];
    let tree = merkelize(&data);
    let branch = mk_branch(&tree, 2);
    let expected_branch = vec![tree[6].clone(), tree[7].clone(), tree[2].clone()];
    assert_eq!(branch, expected_branch);
    assert_eq!(verify_branch(&tree[1], 2, &branch), true);
}

#[test]
fn sha256_of_abc() {
    let d = hash_sha(b"abc".to_vec());
    assert_eq!(d.len(), 32);
    assert_eq!(&d[..4], &[0xba, 0x78, 0x16, 0xbf]);
    assert_eq!(d[31], 0xad);
}

#[test]
fn tree_layout() {
    let data = vec![b"a".to_vec(), b"b".to_vec(), b"c".to_vec(), b"d".to_vec()];
    let tree = merkelize(&data);
    assert_eq!(tree.len(), 8);
    assert!(tree[0].is_empty());
    assert_eq!(tree[4], b"a".to_vec());
    assert_eq!(tree[7], b"d".to_vec());
    assert_eq!(tree[2], hash_sha(b"ab".to_vec()));
    assert_eq!(tree[3], hash_sha(b"cd".to_vec()));
}

#[test]
fn every_branch_verifies_and_tampering_fails() {
    let data: Vec<Vec<u8>> = (0..8u8).map(|i| vec![i, i + 1, i + 2]).collect();
    let tree = merkelize(&data);
    for i in 0..8 {
        let branch = mk_branch(&tree, i);
        assert_eq!(branch.len(), 4);
        assert!(verify_branch(&tree[1], i, &branch));
        let mut bad_root = tree[1].clone();
        bad_root[0] ^= 1;
        assert!(!verify_branch(&bad_root, i, &branch));
        let mut bad_branch = branch.clone();
        bad_branch[2][5] ^= 0x80;
        assert!(!verify_branch(&tree[1], i, &bad_branch));
        let mut bad_leaf = branch.clone();
        bad_leaf[0][0] ^= 0x01;
        assert!(!verify_branch(&tree[1], i, &bad_leaf));
        assert!(!verify_branch(&tree[1], (i + 1) % 8, &branch));
    }
}

#[test]
fn empty_branch_is_refused() {
    let data = vec![b"a".to_vec(), b"b".to_vec()];
    let tree = merkelize(&data);
    assert!(!verify_branch(&tree[1], 0, &vec![]));
}

#[test]
fn single_leaf_tree() {
    let data = vec![b"only".to_vec()];
    let tree = merkelize(&data);
    assert_eq!(tree.len(), 2);
    assert_eq!(tree[1], b"only".to_vec());
    let branch = mk_branch(&tree, 0);
    assert_eq!(branch, vec![b"only".to_vec()]);
    assert!(verify_branch(&tree[1], 0, &branch));
}

#[test]
fn index_beyond_branch_depth_is_refused() {
    let data = vec![b"a".to_vec(), b"b".to_vec(), b"c".to_vec(), b"d".to_vec()];
    let tree = merkelize(&data);
    let branch = mk_branch(&tree, 2);
    assert!(verify_branch(&tree[1], 2, &branch));
    assert!(!verify_branch(&tree[1], 6, &branch));
    assert!(!verify_branch(&tree[1], 4, &branch));
}
