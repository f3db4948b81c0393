//! Verification of cross-chain messages against per-block Merkle state roots,
//! with domain-separated leaves and one-time nonces.
use soroban_sdk::Env;
use std::collections::{HashMap, HashSet};
use vstd::prelude::*;

verus! {

broadcast use vstd::std_specs::hash::group_hash_axioms;

/// The Soroban host environment, carried through to its hash function.
#[verifier::external_type_specification]
#[verifier::external_body]
pub struct ExEnv(Env);

/// SHA-256 digest of a byte sequence.
pub uninterp spec fn spec_sha256(data: Seq<u8>) -> Seq<u8>;

/// Calls `soroban_sdk::crypto::Crypto::sha256` on `data` (through
/// `Bytes::from_slice` and `Hash::to_array`). Trusted: the digest is the
/// host's SHA-256 of the bytes, a function of them alone.
#[verifier::external_body]
fn host_sha256(env: &Env, data: &[u8]) -> (digest: [u8; 32])
    ensures
        digest@ == spec_sha256(data@),
{
    env.crypto().sha256(&soroban_sdk::Bytes::from_slice(env, data)).to_array()
}

/// A cross-chain message.
#[derive(Clone, Debug, PartialEq, Eq)]
pub struct Payload {
    pub chain_id: u32,
    /// XDR encoding of the destination contract's address.
    pub destination_contract: Vec<u8>,
    pub nonce: u64,
    pub data: Vec<u8>,
}

/// Big-endian bytes of a `u32`.
pub open spec fn be_u32(x: u32) -> Seq<u8> {
    seq![(x >> 24u32) as u8, (x >> 16u32) as u8, (x >> 8u32) as u8, x as u8]
}

/// Big-endian bytes of a `u64`.
pub open spec fn be_u64(x: u64) -> Seq<u8> {
    seq![
        (x >> 56u64) as u8,
        (x >> 48u64) as u8,
        (x >> 40u64) as u8,
        (x >> 32u64) as u8,
        (x >> 24u64) as u8,
        (x >> 16u64) as u8,
        (x >> 8u64) as u8,
        x as u8,
    ]
}

/// The bytes a payload's leaf hash covers:
/// `chain_id || destination_contract || nonce || data`.
pub open spec fn payload_bytes(p: Payload) -> Seq<u8> {
    be_u32(p.chain_id) + p.destination_contract@ + be_u64(p.nonce) + p.data@
}

/// The Merkle leaf of a payload.
pub open spec fn payload_leaf(p: Payload) -> Seq<u8> {
    spec_sha256(payload_bytes(p))
}

/// The root reached from `leaf` by hashing in the siblings of `proof` in
/// order, each on the left when its flag is set and on the right otherwise.
pub open spec fn fold_proof(leaf: Seq<u8>, proof: Seq<[u8; 32]>, flags: Seq<bool>) -> Seq<u8>
    decreases proof.len(),
{
    if proof.len() == 0 || flags.len() == 0 {
        leaf
    } else {
        let below = fold_proof(leaf, proof.drop_last(), flags.drop_last());
        if flags.last() {
            spec_sha256(proof.last()@ + below)
        } else {
            spec_sha256(below + proof.last()@)
        }
    }
}

/// The stored root for `block_height`, if any.
pub open spec fn root_at(roots: Map<u32, [u8; 32]>, block_height: u32) -> Option<[u8; 32]> {
    if roots.contains_key(block_height) {
        Some(roots[block_height])
    } else {
        None
    }
}

/// A verification can be made: a root is stored for `block_height`, the
/// proof and its flags have the same length, and the nonce is unused.
/// Elsewhere the verifier refuses the message outright.
pub open spec fn verify_admissible(
    roots: Map<u32, [u8; 32]>,
    used_nonces: Set<u64>,
    block_height: u32,
    nonce: u64,
    proof: Seq<[u8; 32]>,
    flags: Seq<bool>,
) -> bool {
    &&& roots.contains_key(block_height)
    &&& proof.len() == flags.len()
    &&& !used_nonces.contains(nonce)
}

/// Whether the proof leads from the payload's leaf to the root stored for
/// `block_height`.
pub open spec fn spec_verify_message(
    roots: Map<u32, [u8; 32]>,
    block_height: u32,
    payload: Payload,
    proof: Seq<[u8; 32]>,
    flags: Seq<bool>,
) -> bool {
    fold_proof(payload_leaf(payload), proof, flags) == roots[block_height]@
}

/// A nonce is good for one message: once a verification consumes it, no
/// message with that nonce can be verified again, whatever its height and
/// proof.
pub proof fn lemma_replay_rejected(
    roots: Map<u32, [u8; 32]>,
    used_nonces: Set<u64>,
    nonce: u64,
    block_height: u32,
    proof: Seq<[u8; 32]>,
    flags: Seq<bool>,
)
    ensures
        !verify_admissible(roots, used_nonces.insert(nonce), block_height, nonce, proof, flags),
{
}

/// Consuming a nonce leaves messages with other nonces as they were: whether
/// they can be verified, and the outcome.
pub proof fn lemma_other_nonces_unaffected(
    roots: Map<u32, [u8; 32]>,
    used_nonces: Set<u64>,
    consumed: u64,
    block_height: u32,
    nonce: u64,
    proof: Seq<[u8; 32]>,
    flags: Seq<bool>,
)
    requires
        nonce != consumed,
    ensures
        verify_admissible(roots, used_nonces.insert(consumed), block_height, nonce, proof, flags)
            == verify_admissible(roots, used_nonces, block_height, nonce, proof, flags),
{
}

/// A stored root reads back: after storing `root` for `block_height`, that
/// height gives `root` and every other height what it gave before.
pub proof fn lemma_root_read_back(roots: Map<u32, [u8; 32]>, block_height: u32, root: [u8; 32], other: u32)
    ensures
        root_at(roots.insert(block_height, root), block_height) == Some(root),
        other != block_height ==> root_at(roots.insert(block_height, root), other) == root_at(roots, other),
{
}

/// Leaves are domain-separated: payloads that differ in chain id, or that
/// share the chain id and differ in destination (of the same encoded length)
/// or in nonce, have different hashed bytes.
pub proof fn lemma_payload_bytes_separate(p1: Payload, p2: Payload)
    ensures
        p1.chain_id != p2.chain_id ==> payload_bytes(p1) != payload_bytes(p2),
        p1.chain_id == p2.chain_id && p1.destination_contract@.len() == p2.destination_contract@.len()
            && p1.destination_contract@ != p2.destination_contract@ ==> payload_bytes(p1) != payload_bytes(p2),
        p1.chain_id == p2.chain_id && p1.destination_contract@ == p2.destination_contract@ && p1.nonce != p2.nonce
            ==> payload_bytes(p1) != payload_bytes(p2),
{
    let b1 = payload_bytes(p1);
    let b2 = payload_bytes(p2);
    let d1 = p1.destination_contract@;
    let d2 = p2.destination_contract@;
    if p1.chain_id != p2.chain_id && b1 == b2 {
        assert(b1.take(4) =~= be_u32(p1.chain_id));
        assert(b2.take(4) =~= be_u32(p2.chain_id));
        let (c1, c2) = (p1.chain_id, p2.chain_id);
        assert(c1 == c2) by (bit_vector)
            requires
                (c1 >> 24u32) as u8 == (c2 >> 24u32) as u8,
                (c1 >> 16u32) as u8 == (c2 >> 16u32) as u8,
                (c1 >> 8u32) as u8 == (c2 >> 8u32) as u8,
                c1 as u8 == c2 as u8;
    }
    if p1.chain_id == p2.chain_id && d1.len() == d2.len() && d1 != d2 && b1 == b2 {
        assert(b1.subrange(4, 4 + d1.len() as int) =~= d1);
        assert(b2.subrange(4, 4 + d2.len() as int) =~= d2);
    }
    if p1.chain_id == p2.chain_id && d1 == d2 && p1.nonce != p2.nonce && b1 == b2 {
        let k: int = 4 + d1.len() as int;
        assert(b1.subrange(k, k + 8) =~= be_u64(p1.nonce));
        assert(b2.subrange(k, k + 8) =~= be_u64(p2.nonce));
        let (n1, n2) = (p1.nonce, p2.nonce);
        assert(n1 == n2) by (bit_vector)
            requires
                (n1 >> 56u64) as u8 == (n2 >> 56u64) as u8,
                (n1 >> 48u64) as u8 == (n2 >> 48u64) as u8,
                (n1 >> 40u64) as u8 == (n2 >> 40u64) as u8,
                (n1 >> 32u64) as u8 == (n2 >> 32u64) as u8,
                (n1 >> 24u64) as u8 == (n2 >> 24u64) as u8,
                (n1 >> 16u64) as u8 == (n2 >> 16u64) as u8,
                (n1 >> 8u64) as u8 == (n2 >> 8u64) as u8,
                n1 as u8 == n2 as u8;
    }
}

/// The roots listed in `pairs`, a later entry for a height replacing an
/// earlier one.
pub open spec fn root_pairs_to_map(pairs: Seq<(u32, [u8; 32])>) -> Map<u32, [u8; 32]>
    decreases pairs.len(),
{
    if pairs.len() == 0 {
        Map::empty()
    } else {
        root_pairs_to_map(pairs.drop_last()).insert(pairs.last().0, pairs.last().1)
    }
}

/// Appends `bytes` to `buf`.
fn append_bytes(buf: &mut Vec<u8>, bytes: &[u8])
    ensures
        final(buf)@ == old(buf)@ + bytes@,
{
    let mut i: usize = 0;
    while i < bytes.len()
        invariant
            i <= bytes@.len(),
            buf@ == old(buf)@ + bytes@.take(i as int),
        decreases bytes.len() - i,
    {
        buf.push(bytes[i]);
        i += 1;
        assert(bytes@.take(i as int) =~= bytes@.take(i - 1).push(bytes@[i - 1]));
    }
    assert(bytes@.take(bytes@.len() as int) =~= bytes@);
}

/// Whether two digests are equal, byte for byte.
fn digests_equal(a: &[u8; 32], b: &[u8; 32]) -> (eq: bool)
    ensures
        eq == (a@ == b@),
{
    let mut i: usize = 0;
    while i < 32
        invariant
            i <= 32,
            a@.len() == 32,
            b@.len() == 32,
            forall|k: int| 0 <= k < i ==> a@[k] == b@[k],
        decreases 32 - i,
    {
        if a[i] != b[i] {
            return false;
        }
        i += 1;
    }
    assert(a@ =~= b@);
    true
}

/// The verifier's stored state.
pub struct CrossChainVerifier {
    admin: Option<u64>,
    roots: HashMap<u32, [u8; 32]>,
    used_nonces: HashSet<u64>,
}

impl CrossChainVerifier {
    pub closed spec fn admin_view(&self) -> Option<u64> {
        self.admin
    }

    pub closed spec fn roots_view(&self) -> Map<u32, [u8; 32]> {
        self.roots@
    }

    pub closed spec fn used_nonces_view(&self) -> Set<u64> {
        self.used_nonces@
    }

    /// A verifier with no admin, roots or used nonces.
    pub fn new() -> (v: Self)
        ensures
            v.admin_view() is None,
            v.roots_view().is_empty(),
            v.used_nonces_view().is_empty(),
    {
        CrossChainVerifier { admin: None, roots: HashMap::new(), used_nonces: HashSet::new() }
    }

    /// A verifier holding the given admin, roots and used nonces, as stored
    /// between calls.
    pub fn from_parts(admin: Option<u64>, roots: &Vec<(u32, [u8; 32])>, used_nonces: &Vec<u64>) -> (v: Self)
        ensures
            v.admin_view() == admin,
            v.roots_view() == root_pairs_to_map(roots@),
            v.used_nonces_view() == used_nonces@.to_set(),
    {
        let mut root_map: HashMap<u32, [u8; 32]> = HashMap::new();
        let mut i: usize = 0;
        while i < roots.len()
            invariant
                i <= roots@.len(),
                root_map@ == root_pairs_to_map(roots@.take(i as int)),
            decreases roots.len() - i,
        {
            let (height, root) = roots[i];
            root_map.insert(height, root);
            proof {
                assert(roots@.take(i + 1).drop_last() =~= roots@.take(i as int));
            }
            i += 1;
        }
        let mut nonce_set: HashSet<u64> = HashSet::new();
        let mut j: usize = 0;
        while j < used_nonces.len()
            invariant
                j <= used_nonces@.len(),
                nonce_set@ == used_nonces@.take(j as int).to_set(),
            decreases used_nonces.len() - j,
        {
            nonce_set.insert(used_nonces[j]);
            proof {
                assert(used_nonces@.take(j + 1) =~= used_nonces@.take(j as int).push(used_nonces@[j as int]));
                used_nonces@.take(j as int).lemma_push_to_set_commute(used_nonces@[j as int]);
            }
            j += 1;
        }
        proof {
            assert(roots@.take(roots@.len() as int) =~= roots@);
            assert(used_nonces@.take(used_nonces@.len() as int) =~= used_nonces@);
        }
        CrossChainVerifier { admin, roots: root_map, used_nonces: nonce_set }
    }

    /// Sets the admin; it can be set once.
    pub fn initialize(&mut self, admin: u64)
        requires
            old(self).admin_view() is None,
        ensures
            final(self).admin_view() == Some(admin),
            final(self).roots_view() == old(self).roots_view(),
            final(self).used_nonces_view() == old(self).used_nonces_view(),
    {
        self.admin = Some(admin);
    }

    /// The admin, who must authorize root updates.
    pub fn admin(&self) -> (a: Option<u64>)
        ensures
            a == self.admin_view(),
    {
        self.admin
    }

    /// Stores `new_root` as the state root of `block_height`, replacing any
    /// earlier one; there must be an admin, whom the caller has authorize the
    /// update.
    pub fn update_root(&mut self, block_height: u32, new_root: [u8; 32])
        requires
            old(self).admin_view() is Some,
        ensures
            final(self).admin_view() == old(self).admin_view(),
            final(self).used_nonces_view() == old(self).used_nonces_view(),
            final(self).roots_view() == old(self).roots_view().insert(block_height, new_root),
    {
        self.roots.insert(block_height, new_root);
    }

    /// Whether `nonce` was consumed by an earlier verification.
    pub fn is_nonce_used(&self, nonce: u64) -> (b: bool)
        ensures
            b == self.used_nonces_view().contains(nonce),
    {
        self.used_nonces.contains(&nonce)
    }

    /// The state root stored for `block_height`.
    pub fn get_root(&self, block_height: u32) -> (r: Option<[u8; 32]>)
        ensures
            r == root_at(self.roots_view(), block_height),
    {
        match self.roots.get(&block_height) {
            Some(root) => Some(*root),
            None => None,
        }
    }

    /// Verifies `payload` against the root stored for `block_height` with a
    /// Merkle proof whose `proof_flags[i]` tells whether `proof[i]` is the
    /// left sibling: consumes the nonce and returns whether the proof leads
    /// from the payload's leaf to the root. The root must be stored, the
    /// proof and flags must match in length and the nonce must be unused
    /// (see `get_root` and `is_nonce_used`).
    pub fn verify_message(
        &mut self,
        env: &Env,
        block_height: u32,
        payload: &Payload,
        proof: &Vec<[u8; 32]>,
        proof_flags: &Vec<bool>,
    ) -> (r: bool)
        requires
            verify_admissible(old(self).roots_view(), old(self).used_nonces_view(), block_height, payload.nonce, proof@, proof_flags@),
        ensures
            final(self).admin_view() == old(self).admin_view(),
            final(self).roots_view() == old(self).roots_view(),
            final(self).used_nonces_view() == old(self).used_nonces_view().insert(payload.nonce),
            r == spec_verify_message(old(self).roots_view(), block_height, *payload, proof@, proof_flags@),
    {
        let expected_root = match self.roots.get(&block_height) {
            Some(root) => *root,
            None => [0u8; 32],
        };
        self.used_nonces.insert(payload.nonce);
        let leaf = Self::compute_payload_hash(env, payload);
        let mut current_hash = leaf;
        let mut i: usize = 0;
        while i < proof.len()
            invariant
                i <= proof@.len(),
                proof@.len() == proof_flags@.len(),
                current_hash@ == fold_proof(payload_leaf(*payload), proof@.take(i as int), proof_flags@.take(i as int)),
            decreases proof.len() - i,
        {
            let sibling = proof[i];
            let is_left_sibling = proof_flags[i];
            let mut combined: Vec<u8> = Vec::new();
            if is_left_sibling {
                append_bytes(&mut combined, &sibling);
                append_bytes(&mut combined, &current_hash);
            } else {
                append_bytes(&mut combined, &current_hash);
                append_bytes(&mut combined, &sibling);
            }
            current_hash = host_sha256(env, combined.as_slice());
            proof {
                assert(proof@.take(i + 1).drop_last() =~= proof@.take(i as int));
                assert(proof_flags@.take(i + 1).drop_last() =~= proof_flags@.take(i as int));
                assert(combined@ =~= (if is_left_sibling { sibling@ + fold_proof(payload_leaf(*payload), proof@.take(i as int), proof_flags@.take(i as int)) } else { fold_proof(payload_leaf(*payload), proof@.take(i as int), proof_flags@.take(i as int)) + sibling@ }));
            }
            i += 1;
        }
        proof {
            assert(proof@.take(proof@.len() as int) =~= proof@);
            assert(proof_flags@.take(proof_flags@.len() as int) =~= proof_flags@);
        }
        digests_equal(&current_hash, &expected_root)
    }

    /// The domain-separated leaf of a payload:
    /// `sha256(chain_id || destination_contract || nonce || data)`, with the
    /// integers in big-endian order.
    pub fn compute_payload_hash(env: &Env, payload: &Payload) -> (digest: [u8; 32])
        ensures
            digest@ == payload_leaf(*payload),
    {
        let mut buf: Vec<u8> = Vec::new();
        let c = payload.chain_id;
        let chain_id_bytes = [(c >> 24) as u8, (c >> 16) as u8, (c >> 8) as u8, c as u8];
        append_bytes(&mut buf, &chain_id_bytes);
        append_bytes(&mut buf, payload.destination_contract.as_slice());
        let n = payload.nonce;
        let nonce_bytes = [
            (n >> 56) as u8,
            (n >> 48) as u8,
            (n >> 40) as u8,
            (n >> 32) as u8,
            (n >> 24) as u8,
            (n >> 16) as u8,
            (n >> 8) as u8,
            n as u8,
        ];
        append_bytes(&mut buf, &nonce_bytes);
        append_bytes(&mut buf, payload.data.as_slice());
        assert(chain_id_bytes@ =~= be_u32(c));
        assert(nonce_bytes@ =~= be_u64(n));
        assert(buf@ =~= payload_bytes(*payload));
        host_sha256(env, buf.as_slice())
    }
}

}
