use starky::digest_bn128::ElementDigest;
use starky::errors::Error;
use starky::linearhash_bn128::LinearHashBN128;
use starky::merklehash_bn128::MerkleTree;

fn filler(n_pols: usize, n: usize) -> Vec<u64> {
    let mut values = vec![0u64; n_pols * n];
    for col in 0..n_pols {
        for row in 0..n {
            values[col * n + row] = (row + col * n) as u64;
        }
    }
    values
}

#[test]
fn small_tree_end_to_end() {
    let n_pols = 2;
    let n = 4;
    let tree = MerkleTree::merkelize(filler(n_pols, n), n_pols, n).unwrap();
    let again = MerkleTree::merkelize(filler(n_pols, n), n_pols, n).unwrap();
    assert_eq!(tree.root(), again.root());
    assert_eq!(tree.n(), 4);
    assert_eq!(tree.n_pols(), 2);
    let root = tree.root();
    for idx in 0..n {
        let (group_elements, mp) = tree.get_group_proof(idx).unwrap();
        assert_eq!(group_elements, vec![idx as u64, (idx + n) as u64]);
        assert_eq!(mp.len(), 2);
        assert!(tree.verify_group_proof(&root, &mp, idx, &group_elements));
    }
}

#[test]
fn wrong_shape_and_index_are_refused() {
    let r = MerkleTree::merkelize(vec![1, 2, 3, 4, 5, 6, 7], 2, 4);
    assert!(matches!(r, Err(Error::ShapeMismatch)));
    let r = MerkleTree::merkelize(vec![1, 2, 3, 4, 5, 6, 7, 8, 9], 2, 4);
    assert!(matches!(r, Err(Error::ShapeMismatch)));
    let r = MerkleTree::merkelize(vec![], usize::MAX, 2);
    assert!(matches!(r, Err(Error::ShapeMismatch)));
    let tree = MerkleTree::merkelize(filler(2, 4), 2, 4).unwrap();
    assert_eq!(tree.get_group_proof(4).unwrap_err(), Error::IndexOutOfRange);
    assert_eq!(tree.get_group_proof(usize::MAX).unwrap_err(), Error::IndexOutOfRange);
    assert!(tree.get_group_proof(3).is_ok());
}

#[test]
fn every_row_of_an_odd_tree_opens_to_the_root() {
    let n_pols = 3;
    let n = 5;
    let tree = MerkleTree::merkelize(filler(n_pols, n), n_pols, n).unwrap();
    let root = tree.root();
    for idx in 0..n {
        let (row, path) = tree.get_group_proof(idx).unwrap();
        assert_eq!(path.len(), 3);
        assert!(tree.verify_group_proof(&root, &path, idx, &row));
        assert!(MerkleTree::verify(tree.hasher(), &root, &path, idx, &row));
    }
}

#[test]
fn nodes_are_merged_in_pairs_and_the_odd_one_with_itself() {
    let hasher = LinearHashBN128::new();
    let values = filler(2, 3);
    let leaf = |i: usize| hasher.hash_row(&[values[i], values[3 + i]]).unwrap();
    let left = hasher.merge(&[leaf(0), leaf(1)]).unwrap();
    let right = hasher.merge(&[leaf(2), leaf(2)]).unwrap();
    let root = hasher.merge(&[left, right]).unwrap();
    let tree = MerkleTree::merkelize(values.clone(), 2, 3).unwrap();
    assert_eq!(tree.root(), root);
    let (row, path) = tree.get_group_proof(2).unwrap();
    assert_eq!(row, vec![2, 5]);
    assert_eq!(path, vec![leaf(2), left]);
    let (_, path) = tree.get_group_proof(0).unwrap();
    assert_eq!(path, vec![leaf(1), right]);
    let (_, path) = tree.get_group_proof(1).unwrap();
    assert_eq!(path, vec![leaf(0), right]);
}

#[test]
fn tree_of_one_row_and_of_none() {
    let hasher = LinearHashBN128::new();
    let leaf = hasher.hash_row(&[10, 20, 30, 40]).unwrap();
    let tree = MerkleTree::merkelize_with(&hasher, vec![10, 20, 30, 40], 4, 1).unwrap();
    assert_eq!(tree.root(), leaf);
    let (row, path) = tree.get_group_proof(0).unwrap();
    assert_eq!(row, vec![10, 20, 30, 40]);
    assert!(path.is_empty());
    assert!(tree.verify_group_proof(&tree.root(), &path, 0, &row));

    let empty = MerkleTree::merkelize(vec![], 3, 0).unwrap();
    assert_eq!(empty.root(), ElementDigest::default());
    assert_eq!(empty.get_group_proof(0).unwrap_err(), Error::IndexOutOfRange);

    let no_columns = MerkleTree::merkelize(vec![], 0, 2).unwrap();
    let (row, path) = no_columns.get_group_proof(1).unwrap();
    assert!(row.is_empty());
    assert_eq!(path, vec![ElementDigest::default()]);
    assert!(no_columns.verify_group_proof(&no_columns.root(), &path, 1, &row));
}

#[test]
fn tampering_is_detected() {
    let n_pols = 2;
    let n = 4;
    let tree = MerkleTree::merkelize(filler(n_pols, n), n_pols, n).unwrap();
    let root = tree.root();
    let (row, path) = tree.get_group_proof(2).unwrap();
    assert!(tree.verify_group_proof(&root, &path, 2, &row));

    for c in 0..row.len() {
        let mut other = row.clone();
        other[c] += 1;
        assert!(!tree.verify_group_proof(&root, &path, 2, &other));
    }
    for k in 0..path.len() {
        for e in 0..4 {
            let mut other = path.clone();
            let mut elements: [u64; 4] = other[k].into();
            elements[e] ^= 1;
            other[k] = ElementDigest::new(elements);
            assert!(!tree.verify_group_proof(&root, &other, 2, &row));
        }
    }
    for idx in [0usize, 1, 3] {
        assert!(!tree.verify_group_proof(&root, &path, idx, &row));
    }
    let mut other_root: [u64; 4] = root.into();
    other_root[0] ^= 1;
    assert!(!tree.verify_group_proof(&ElementDigest::new(other_root), &path, 2, &row));
    assert!(!tree.verify_group_proof(&root, &path[..1].to_vec(), 2, &row));
    // a sibling that denotes no field element cannot be merged
    let mut broken = path.clone();
    broken[0] = ElementDigest::new([0, 0, 0, u64::MAX]);
    assert!(!tree.verify_group_proof(&root, &broken, 2, &row));
}

#[test]
fn equal_neighbours_open_under_both_indices() {
    // two equal rows have equal leaves: each is the other's sibling, and the
    // pair is the same whichever of them stands on the left
    let tree = MerkleTree::merkelize(vec![7, 7, 9, 9], 2, 2).unwrap();
    let root = tree.root();
    let (row, path) = tree.get_group_proof(0).unwrap();
    assert!(tree.verify_group_proof(&root, &path, 0, &row));
    assert!(tree.verify_group_proof(&root, &path, 1, &row));
}

#[test]
fn proof_outlives_the_tree_and_verifies_with_another_hasher() {
    let (root, row, path) = {
        let tree = MerkleTree::merkelize(filler(3, 6), 3, 6).unwrap();
        let (row, path) = tree.get_group_proof(5).unwrap();
        (tree.root(), row, path)
    };
    let hasher = LinearHashBN128::new();
    assert!(MerkleTree::verify(&hasher, &root, &path, 5, &row));
    assert!(!MerkleTree::verify(&hasher, &root, &path, 4, &row));
}

#[test]
fn trees_share_a_hasher_and_agree_on_the_root() {
    let hasher = LinearHashBN128::new();
    let first = MerkleTree::merkelize_with(&hasher, filler(2, 4), 2, 4).unwrap();
    let second = MerkleTree::merkelize_with(&hasher, filler(2, 4), 2, 4).unwrap();
    let own = MerkleTree::merkelize(filler(2, 4), 2, 4).unwrap();
    assert_eq!(first.root(), second.root());
    assert_eq!(first.root(), own.root());
    let (row, path) = first.get_group_proof(3).unwrap();
    assert!(second.verify_group_proof(&second.root(), &path, 3, &row));
    assert!(own.verify_group_proof(&own.root(), &path, 3, &row));
    let r = MerkleTree::merkelize_with(&hasher, filler(2, 4), 4, 4);
    assert!(matches!(r, Err(Error::ShapeMismatch)));
}
