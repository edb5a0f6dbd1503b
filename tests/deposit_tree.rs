use eth1::deposit_tree::{
    deposit_data_tree_hash_root, verify_merkle_proof, DepositData, DepositLog, DepositTree,
    DepositTreeError, DEPOSIT_CONTRACT_TREE_DEPTH,
};
use eth1::hashing::{hash_pair, le_chunk_of, zero_chunk};

fn deposit_data(seed: u8) -> DepositData {
    let mut pubkey = [0u8; 48];
    for (i, b) in pubkey.iter_mut().enumerate() {
        *b = seed.wrapping_mul(7).wrapping_add(i as u8);
    }
    let mut signature = [0u8; 96];
    for (i, b) in signature.iter_mut().enumerate() {
        *b = seed.wrapping_mul(13).wrapping_add(3 * i as u8);
    }
    DepositData {
        pubkey,
        withdrawal_credentials: [seed; 32],
        amount: 32_000_000_000,
        signature,
    }
}

fn log(index: u64, seed: u8) -> DepositLog {
    DepositLog { index, deposit_data: deposit_data(seed) }
}

fn hex(bytes: &[u8]) -> String {
    bytes.iter().map(|b| format!("{:02x}", b)).collect()
}

#[test]
fn empty_tree_gives_canonical_root_and_no_deposits() {
    let tree = DepositTree::new();
    let (root, deposits) = tree
        .get_deposits(0..0, 0, DEPOSIT_CONTRACT_TREE_DEPTH)
        .expect("empty range of an empty tree");
    assert!(deposits.is_empty());
    assert_eq!(
        hex(&root),
        "d70a234731285c6804c2a4f56711ddb8c82c99740f207854891028af34e27e5e"
    );
    assert_eq!(tree.root(), root);
}

#[test]
fn eight_sequential_deposits_prove_into_historical_root() {
    let mut tree = DepositTree::new();
    let mut roots = vec![tree.root()];
    for i in 0..8u64 {
        let before = tree.leaf_count();
        tree.insert_log(log(i, i as u8 + 1)).expect("next index");
        assert_eq!(tree.leaf_count(), before + 1);
        let root = tree.root();
        assert_ne!(root, *roots.last().unwrap());
        roots.push(root);
    }
    let (root, deposits) = tree
        .get_deposits(0..5, 5, DEPOSIT_CONTRACT_TREE_DEPTH)
        .expect("history is there");
    assert_eq!(root, roots[5]);
    for (k, r) in roots.iter().enumerate() {
        assert_eq!(tree.historical_root(k as u64), Ok(*r));
    }
    assert_eq!(deposits.len(), 5);
    for (j, deposit) in deposits.iter().enumerate() {
        assert_eq!(deposit.data, deposit_data(j as u8 + 1));
        assert_eq!(deposit.proof.len(), DEPOSIT_CONTRACT_TREE_DEPTH + 1);
        let leaf = deposit_data_tree_hash_root(&deposit.data);
        assert!(verify_merkle_proof(
            &leaf,
            &deposit.proof,
            DEPOSIT_CONTRACT_TREE_DEPTH + 1,
            j as u64,
            &root
        ));
        assert!(!verify_merkle_proof(
            &leaf,
            &deposit.proof,
            DEPOSIT_CONTRACT_TREE_DEPTH + 1,
            j as u64,
            &roots[6]
        ));
    }
}

#[test]
fn every_prefix_proves_into_its_own_root() {
    let mut tree = DepositTree::new();
    for i in 0..6u64 {
        tree.insert_log(log(i, 40 + i as u8)).unwrap();
    }
    for n in 0..=6u64 {
        let (root, deposits) = tree.get_deposits(0..n, n, 32).unwrap();
        assert_eq!(tree.historical_root(n), Ok(root));
        assert_eq!(deposits.len() as u64, n);
        for (j, d) in deposits.iter().enumerate() {
            let leaf = deposit_data_tree_hash_root(&d.data);
            assert!(verify_merkle_proof(&leaf, &d.proof, 33, j as u64, &root));
        }
    }
}

#[test]
fn sub_range_proofs_use_absolute_indices() {
    let mut tree = DepositTree::new();
    for i in 0..7u64 {
        tree.insert_log(log(i, i as u8)).unwrap();
    }
    let (root, deposits) = tree.get_deposits(3..6, 7, 32).unwrap();
    assert_eq!(deposits.len(), 3);
    for (t, d) in deposits.iter().enumerate() {
        let j = 3 + t as u64;
        assert_eq!(d.data, deposit_data(j as u8));
        let leaf = deposit_data_tree_hash_root(&d.data);
        assert!(verify_merkle_proof(&leaf, &d.proof, 33, j, &root));
    }
}

#[test]
fn out_of_order_insert_changes_nothing() {
    let mut tree = DepositTree::new();
    tree.insert_log(log(0, 1)).unwrap();
    tree.insert_log(log(1, 2)).unwrap();
    let root = tree.root();
    for bad in [0u64, 1, 3, 100] {
        assert_eq!(
            tree.insert_log(log(bad, 9)),
            Err(DepositTreeError::OutOfOrderInsert { expected: 2, got: bad })
        );
        assert_eq!(tree.leaf_count(), 2);
        assert_eq!(tree.root(), root);
    }
}

#[test]
fn deposit_count_beyond_leaves_is_insufficient_history() {
    let mut tree = DepositTree::new();
    assert_eq!(
        tree.get_deposits(0..0, 1, 32),
        Err(DepositTreeError::InsufficientHistory { requested: 1, known: 0 })
    );
    for i in 0..3u64 {
        tree.insert_log(log(i, 5)).unwrap();
    }
    assert_eq!(
        tree.get_deposits(0..2, 4, 32),
        Err(DepositTreeError::InsufficientHistory { requested: 4, known: 3 })
    );
    assert_eq!(
        tree.historical_root(4),
        Err(DepositTreeError::InsufficientHistory { requested: 4, known: 3 })
    );
}

#[test]
fn range_beyond_count_and_other_depths_are_refused() {
    let mut tree = DepositTree::new();
    for i in 0..3u64 {
        tree.insert_log(log(i, 5)).unwrap();
    }
    assert_eq!(
        tree.get_deposits(0..3, 2, 32),
        Err(DepositTreeError::InvalidRange { start: 0, end: 3, deposit_count: 2 })
    );
    assert_eq!(
        tree.get_deposits(2..1, 3, 32),
        Err(DepositTreeError::InvalidRange { start: 2, end: 1, deposit_count: 3 })
    );
    assert_eq!(
        tree.get_deposits(0..1, 3, 16),
        Err(DepositTreeError::UnsupportedDepth { depth: 16 })
    );
}

#[test]
fn leaf_is_the_ssz_root_of_the_deposit() {
    let d = deposit_data(77);
    let pubkey_root = tree_hash::merkle_root(&d.pubkey, 0);
    let signature_root = tree_hash::merkle_root(&d.signature, 0);
    let mut fields = Vec::new();
    fields.extend_from_slice(pubkey_root.as_slice());
    fields.extend_from_slice(&d.withdrawal_credentials);
    let mut amount = [0u8; 32];
    amount[..8].copy_from_slice(&d.amount.to_le_bytes());
    fields.extend_from_slice(&amount);
    fields.extend_from_slice(signature_root.as_slice());
    let expected = tree_hash::merkle_root(&fields, 0);
    assert_eq!(&deposit_data_tree_hash_root(&d)[..], expected.as_slice());
}

#[test]
fn root_matches_padded_merkle_root_mixed_with_count() {
    let mut tree = DepositTree::new();
    let mut leaves = Vec::new();
    for i in 0..3u64 {
        let l = log(i, 20 + i as u8);
        leaves.extend_from_slice(&deposit_data_tree_hash_root(&l.deposit_data));
        tree.insert_log(l).unwrap();
    }
    let subtree = tree_hash::merkle_root(&leaves, 1usize << 32);
    let expected = tree_hash::mix_in_length(&subtree, 3);
    assert_eq!(&tree.root()[..], expected.as_slice());
}

#[test]
fn hash_pair_of_zero_chunks() {
    let z = zero_chunk();
    assert_eq!(
        hex(&hash_pair(&z, &z)),
        "f5a5fd42d16a20302798ef6ed309979b43003d2320d9f0e8ea9831a92759fb4b"
    );
}

#[test]
fn count_chunk_is_little_endian() {
    let c = le_chunk_of(0x0102_0304_0506_0708);
    assert_eq!(&c[..8], &[8, 7, 6, 5, 4, 3, 2, 1]);
    assert!(c[8..].iter().all(|b| *b == 0));
}

#[test]
fn proof_of_wrong_length_is_refused() {
    let mut tree = DepositTree::new();
    tree.insert_log(log(0, 1)).unwrap();
    let (root, deposits) = tree.get_deposits(0..1, 1, 32).unwrap();
    let leaf = deposit_data_tree_hash_root(&deposits[0].data);
    assert!(!verify_merkle_proof(&leaf, &deposits[0].proof, 32, 0, &root));
    assert!(!verify_merkle_proof(&leaf, &deposits[0].proof, 33, 1, &root));
}

#[test]
fn it_works() {
    assert_eq!(2 + 2, 4);
}
