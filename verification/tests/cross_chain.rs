use soroban_sdk::testutils::Address as _;
use soroban_sdk::xdr::ToXdr;
use soroban_sdk::{Address, Bytes, Env};
use soroscope::cross_chain::{CrossChainVerifier, Payload};

/// Handle of the admin account.
const ADMIN: u64 = 1;

fn address_xdr(env: &Env, address: Address) -> Vec<u8> {
    let bytes: Bytes = address.to_xdr(env);
    bytes.iter().collect()
}

fn make_payload(env: &Env, nonce: u64) -> Payload {
    let chain_id = 1;
    let dest = Address::generate(env);
    let data = b"test message".to_vec();
    Payload {
        chain_id,
        destination_contract: address_xdr(env, dest),
        nonce,
        data,
    }
}

fn compute_leaf(env: &Env, payload: &Payload) -> [u8; 32] {
    CrossChainVerifier::compute_payload_hash(env, payload)
}

fn host_sha256(env: &Env, data: &[u8]) -> [u8; 32] {
    env.crypto().sha256(&Bytes::from_slice(env, data)).to_array()
}

/// The contract's entry points as the host runs them: each refusal panics
/// with the contract's message before the library is called.
fn initialize(verifier: &mut CrossChainVerifier, admin: u64) {
    if verifier.admin().is_some() {
        panic!("already initialized");
    }
    verifier.initialize(admin);
}

fn update_root(verifier: &mut CrossChainVerifier, block_height: u32, root: [u8; 32]) {
    if verifier.admin().is_none() {
        panic!("not initialized");
    }
    verifier.update_root(block_height, root);
}

fn verify_message(
    verifier: &mut CrossChainVerifier,
    env: &Env,
    block_height: u32,
    payload: &Payload,
    proof: &Vec<[u8; 32]>,
    flags: &Vec<bool>,
) -> bool {
    if verifier.get_root(block_height).is_none() {
        panic!("State root not found");
    }
    if proof.len() != flags.len() {
        panic!("Invalid proof format");
    }
    if verifier.is_nonce_used(payload.nonce) {
        panic!("Nonce already used");
    }
    verifier.verify_message(env, block_height, payload, proof, flags)
}

#[test]
fn test_initialization() {
    let mut verifier = CrossChainVerifier::new();
    initialize(&mut verifier, ADMIN);
    assert_eq!(verifier.admin(), Some(ADMIN));
}

#[test]
#[should_panic(expected = "already initialized")]
fn test_double_initialization() {
    let mut verifier = CrossChainVerifier::new();
    initialize(&mut verifier, ADMIN);
    initialize(&mut verifier, ADMIN);
}

#[test]
fn test_root_update() {
    let mut verifier = CrossChainVerifier::new();
    initialize(&mut verifier, ADMIN);

    let root = [1u8; 32];
    let block_height = 100;

    update_root(&mut verifier, block_height, root);

    let retrieved = verifier.get_root(block_height).unwrap();
    assert_eq!(retrieved, root);
}

#[test]
fn update_root_before_initialization_is_refused() {
    let mut verifier = CrossChainVerifier::new();
    assert_eq!(verifier.admin(), None);
    assert_eq!(verifier.get_root(100), None);
}

#[test]
fn test_verify_message_success() {
    let env = Env::default();
    let mut verifier = CrossChainVerifier::new();
    initialize(&mut verifier, ADMIN);

    let payload = make_payload(&env, 1);
    let leaf = compute_leaf(&env, &payload);

    let sibling1 = [3u8; 32];
    let sibling2 = [4u8; 32];

    // Manually construct the root
    let mut combined_1 = [0u8; 64];
    combined_1[0..32].copy_from_slice(&sibling1);
    combined_1[32..64].copy_from_slice(&leaf);
    let hash_1 = host_sha256(&env, &combined_1);

    let mut combined_2 = [0u8; 64];
    combined_2[0..32].copy_from_slice(&hash_1);
    combined_2[32..64].copy_from_slice(&sibling2);
    let final_root = host_sha256(&env, &combined_2);

    let block_height = 100;
    update_root(&mut verifier, block_height, final_root);

    let proof = vec![sibling1, sibling2];
    let proof_flags = vec![true, false];

    let result = verify_message(&mut verifier, &env, block_height, &payload, &proof, &proof_flags);
    assert!(result);
}

#[test]
#[should_panic(expected = "State root not found")]
fn test_verify_message_no_root() {
    let env = Env::default();
    let mut verifier = CrossChainVerifier::new();
    initialize(&mut verifier, ADMIN);

    let payload = make_payload(&env, 1);
    verify_message(&mut verifier, &env, 100, &payload, &vec![], &vec![]);
}

#[test]
#[should_panic(expected = "Nonce already used")]
fn test_verify_message_replay_rejected() {
    let env = Env::default();
    let mut verifier = CrossChainVerifier::new();
    initialize(&mut verifier, ADMIN);

    let payload = make_payload(&env, 1);
    let leaf = compute_leaf(&env, &payload);

    // Single-node tree: leaf == root
    let block_height = 100;
    update_root(&mut verifier, block_height, leaf);

    // First use succeeds
    assert!(verify_message(&mut verifier, &env, block_height, &payload, &vec![], &vec![]));

    // Second use with same nonce panics
    verify_message(&mut verifier, &env, block_height, &payload, &vec![], &vec![]);
}

#[test]
fn test_verify_message_different_nonce_allowed() {
    let env = Env::default();
    let mut verifier = CrossChainVerifier::new();
    initialize(&mut verifier, ADMIN);

    let payload1 = make_payload(&env, 1);
    let leaf1 = compute_leaf(&env, &payload1);

    let payload2 = make_payload(&env, 2);
    let leaf2 = compute_leaf(&env, &payload2);

    // Build a root that commits to both leaves (2-level tree)
    let mut combined = [0u8; 64];
    combined[0..32].copy_from_slice(&leaf1);
    combined[32..64].copy_from_slice(&leaf2);
    let root = host_sha256(&env, &combined);

    let block_height = 100;
    update_root(&mut verifier, block_height, root);

    // Prove leaf1 at position 0 (left child, sibling=leaf2)
    assert!(verify_message(&mut verifier, &env, block_height, &payload1, &vec![leaf2], &vec![false]));

    // Prove leaf2 (right child, sibling=leaf1 on left)
    assert!(verify_message(&mut verifier, &env, block_height, &payload2, &vec![leaf1], &vec![true]));
}

#[test]
fn malformed_proof_is_refused_without_consuming_the_nonce() {
    let env = Env::default();
    let mut verifier = CrossChainVerifier::new();
    initialize(&mut verifier, ADMIN);
    let payload = make_payload(&env, 7);
    let leaf = compute_leaf(&env, &payload);
    update_root(&mut verifier, 5, leaf);
    // The host refuses a proof whose flags differ in length before the
    // library consumes anything.
    assert!(!verifier.is_nonce_used(payload.nonce));
    assert!(verify_message(&mut verifier, &env, 5, &payload, &vec![], &vec![]));
    assert!(verifier.is_nonce_used(payload.nonce));
}

#[test]
fn wrong_proof_consumes_the_nonce_and_fails() {
    let env = Env::default();
    let mut verifier = CrossChainVerifier::new();
    initialize(&mut verifier, ADMIN);
    let payload = make_payload(&env, 9);
    update_root(&mut verifier, 5, [0u8; 32]);
    assert!(!verify_message(&mut verifier, &env, 5, &payload, &vec![[1u8; 32]], &vec![false]));
    assert!(verifier.is_nonce_used(payload.nonce));
}

#[test]
fn payload_hash_covers_the_big_endian_fields() {
    let env = Env::default();
    let payload = Payload {
        chain_id: 0x0102_0304,
        destination_contract: vec![0xaa, 0xbb],
        nonce: 0x0506_0708_090a_0b0c,
        data: b"hi".to_vec(),
    };
    let expected = host_sha256(
        &env,
        &[1, 2, 3, 4, 0xaa, 0xbb, 5, 6, 7, 8, 9, 10, 11, 12, b'h', b'i'],
    );
    assert_eq!(CrossChainVerifier::compute_payload_hash(&env, &payload), expected);
    assert_ne!(expected, [0u8; 32]);
}

#[test]
fn test_compute_payload_hash_differs_by_chain_id() {
    let env = Env::default();
    let dest = address_xdr(&env, Address::generate(&env));
    let data = b"hello".to_vec();

    let p1 = Payload { chain_id: 1, destination_contract: dest.clone(), nonce: 0, data: data.clone() };
    let p2 = Payload { chain_id: 2, destination_contract: dest.clone(), nonce: 0, data: data.clone() };

    let h1 = CrossChainVerifier::compute_payload_hash(&env, &p1);
    let h2 = CrossChainVerifier::compute_payload_hash(&env, &p2);
    assert_ne!(h1, h2);
}

#[test]
fn test_compute_payload_hash_differs_by_nonce() {
    let env = Env::default();
    let dest = address_xdr(&env, Address::generate(&env));
    let data = b"hello".to_vec();

    let p1 = Payload { chain_id: 1, destination_contract: dest.clone(), nonce: 0, data: data.clone() };
    let p2 = Payload { chain_id: 1, destination_contract: dest.clone(), nonce: 1, data: data.clone() };

    let h1 = CrossChainVerifier::compute_payload_hash(&env, &p1);
    let h2 = CrossChainVerifier::compute_payload_hash(&env, &p2);
    assert_ne!(h1, h2);
}

#[test]
fn test_compute_payload_hash_differs_by_destination() {
    let env = Env::default();
    let dest1 = address_xdr(&env, Address::generate(&env));
    let dest2 = address_xdr(&env, Address::generate(&env));
    let data = b"hello".to_vec();

    let p1 = Payload { chain_id: 1, destination_contract: dest1, nonce: 0, data: data.clone() };
    let p2 = Payload { chain_id: 1, destination_contract: dest2, nonce: 0, data };

    let h1 = CrossChainVerifier::compute_payload_hash(&env, &p1);
    let h2 = CrossChainVerifier::compute_payload_hash(&env, &p2);
    assert_ne!(h1, h2);
}

#[test]
fn verifier_resumes_from_stored_parts() {
    let env = Env::default();
    let payload = make_payload(&env, 9);
    let leaf = compute_leaf(&env, &payload);
    let mut verifier = CrossChainVerifier::from_parts(Some(ADMIN), &vec![(100, leaf), (7, [3u8; 32])], &vec![9]);
    assert_eq!(verifier.admin(), Some(ADMIN));
    assert_eq!(verifier.get_root(7), Some([3u8; 32]));
    assert_eq!(verifier.get_root(8), None);
    assert!(verifier.is_nonce_used(9));
    assert!(!verifier.is_nonce_used(10));
    let fresh = make_payload(&env, 10);
    let mut verifier = CrossChainVerifier::from_parts(None, &vec![(100, compute_leaf(&env, &fresh))], &vec![]);
    assert!(verify_message(&mut verifier, &env, 100, &fresh, &vec![], &vec![]));
    initialize(&mut verifier, ADMIN);
}

