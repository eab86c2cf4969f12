use std::collections::BTreeMap;

use bridge::ancestry::{verify_ancestry, AncestryChain};
use bridge::bridge::{check_validator_set_proof, encode_authorities, BridgeInfo, Module, Origin};
use bridge::error::{Error, JustificationError};
use bridge::justification::{
    decode_justification, localized_payload, GrandpaJustification, Precommit, SignedPrecommit,
};
use bridge::digest::find_scheduled_change;
use bridge::primitives::{encode_header, DigestItem, Header};
use bridge::storage_proof::{ProofError, StorageProofChecker};
use parity_scale_codec::{Compact, Encode};
use sp_core::storage::StateVersion;
use sp_core::{Blake2Hasher, Pair};
use sp_state_machine::{prove_read, InMemoryBackend};

const AUTHORITIES_KEY: &[u8] = b":grandpa_authorities";

fn validators() -> Vec<([u8; 32], u64)> {
    vec![([1u8; 32], 1), ([2u8; 32], 1), ([3u8; 32], 1)]
}

fn create_dummy_validator_proof(validator_set: Vec<([u8; 32], u64)>) -> ([u8; 32], Vec<Vec<u8>>) {
    let mut storage = BTreeMap::new();
    storage.insert(AUTHORITIES_KEY.to_vec(), validator_set.encode());
    let backend: InMemoryBackend<Blake2Hasher> = (storage, StateVersion::V1).into();
    let root = backend.root().0;
    let proof = prove_read(backend, &[AUTHORITIES_KEY]).unwrap();
    (root, proof.into_iter_nodes().collect())
}

fn get_related_block_headers() -> (Header, Header, Header) {
    let grandparent = Header::new([0u8; 32], 1, [0u8; 32], [0u8; 32]);
    let parent = Header::new(grandparent.hash(), grandparent.number + 1, [0u8; 32], [0u8; 32]);
    let child = Header::new(parent.hash(), parent.number + 1, [0u8; 32], [0u8; 32]);
    (grandparent, parent, child)
}

fn fake_header() -> Header {
    Header::new([1u8; 32], 42, [0u8; 32], [0u8; 32])
}

fn copy_header(h: &Header) -> Header {
    Header {
        parent_hash: h.parent_hash,
        number: h.number,
        state_root: h.state_root,
        extrinsics_root: h.extrinsics_root,
        digest: h.digest.clone(),
    }
}

#[test]
fn it_works_for_default_value() {
    let bridges = Module::new();
    assert_eq!(bridges.num_bridges(), 0);
}

#[test]
fn it_can_validate_validator_sets() {
    let validators = validators();
    let (root, proof) = create_dummy_validator_proof(validators.clone());
    assert_eq!(check_validator_set_proof(&root, proof, &validators), Ok(()));
}

#[test]
fn it_rejects_invalid_validator_sets() {
    let validators = validators();
    let (root, proof) = create_dummy_validator_proof(validators.clone());
    let invalid_validators = vec![([3u8; 32], 1), ([2u8; 32], 1), ([1u8; 32], 1)];
    assert_eq!(
        check_validator_set_proof(&root, proof, &invalid_validators),
        Err(Error::ValidatorSetMismatch)
    );
}

#[test]
fn validator_set_proof_with_wrong_root_is_invalid() {
    let validators = validators();
    let (_root, proof) = create_dummy_validator_proof(validators.clone());
    assert_eq!(
        check_validator_set_proof(&[9u8; 32], proof, &validators),
        Err(Error::InvalidStorageProof)
    );
}

#[test]
fn validator_set_proof_without_the_key_is_invalid() {
    let mut storage = BTreeMap::new();
    storage.insert(b":other".to_vec(), vec![1u8, 2, 3]);
    let backend: InMemoryBackend<Blake2Hasher> = (storage, StateVersion::V1).into();
    let root = backend.root().0;
    let proof = prove_read(backend, &[AUTHORITIES_KEY]).unwrap();
    let nodes: Vec<Vec<u8>> = proof.into_iter_nodes().collect();
    assert_eq!(
        check_validator_set_proof(&root, nodes, &validators()),
        Err(Error::InvalidValidatorSetProof)
    );
}

#[test]
fn storage_proof_reads_the_proven_value() {
    let validators = validators();
    let (root, proof) = create_dummy_validator_proof(validators.clone());
    let checker = StorageProofChecker::new(root, proof).unwrap();
    assert_eq!(checker.read_value(AUTHORITIES_KEY), Ok(Some(validators.encode())));
}

#[test]
fn storage_proof_with_a_changed_byte_never_gives_the_value() {
    let validators = validators();
    let (root, proof) = create_dummy_validator_proof(validators.clone());
    for n in 0..proof.len() {
        for b in 0..proof[n].len() {
            let mut altered = proof.clone();
            altered[n][b] ^= 1;
            match StorageProofChecker::new(root, altered) {
                Err(e) => assert_eq!(e, ProofError::StorageRootMismatch),
                Ok(checker) => {
                    assert_ne!(checker.read_value(AUTHORITIES_KEY), Ok(Some(validators.encode())));
                }
            }
        }
    }
}

#[test]
fn it_creates_a_new_bridge() {
    let validators = validators();
    let (root, proof) = create_dummy_validator_proof(validators.clone());
    let test_header = Header::new([0u8; 32], 42, root, [0u8; 32]);
    let test_hash = test_header.hash();

    let mut bridges = Module::new();
    assert_eq!(bridges.num_bridges(), 0);
    assert_eq!(
        bridges.initialize_bridge(Origin::Signed(1), test_header, validators.clone(), proof),
        Ok(())
    );
    assert_eq!(
        bridges.tracked_bridges(1),
        Some(&BridgeInfo {
            last_finalized_block_number: 42,
            last_finalized_block_hash: test_hash,
            last_finalized_state_root: root,
            current_validator_set: validators.clone(),
            current_set_id: 0,
        })
    );
    assert_eq!(bridges.num_bridges(), 1);
    assert_eq!(bridges.tracked_bridges(2), None);
}

#[test]
fn unsigned_origin_cannot_create_a_bridge() {
    let validators = validators();
    let (root, proof) = create_dummy_validator_proof(validators.clone());
    let header = Header::new([0u8; 32], 42, root, [0u8; 32]);
    let mut bridges = Module::new();
    assert_eq!(
        bridges.initialize_bridge(Origin::Unsigned, header, validators, proof),
        Err(Error::BadOrigin)
    );
    assert_eq!(bridges.num_bridges(), 0);
}

#[test]
fn empty_validator_set_cannot_create_a_bridge() {
    let (root, proof) = create_dummy_validator_proof(Vec::new());
    let header = Header::new([0u8; 32], 42, root, [0u8; 32]);
    let mut bridges = Module::new();
    assert_eq!(
        bridges.initialize_bridge(Origin::Signed(1), header, Vec::new(), proof),
        Err(Error::InvalidValidatorSet)
    );
    assert_eq!(bridges.num_bridges(), 0);
}

#[test]
fn check_that_child_is_ancestor_of_grandparent() {
    let (grandparent, parent, child) = get_related_block_headers();
    let proof = vec![copy_header(&child), parent, copy_header(&grandparent)];
    assert_eq!(verify_ancestry(proof, grandparent, child), Ok(()));
}

#[test]
fn check_that_child_ancestor_is_not_correct() {
    let (grandparent, parent, child) = get_related_block_headers();
    let proof = vec![copy_header(&child), parent, copy_header(&grandparent)];
    assert_eq!(verify_ancestry(proof, fake_header(), child), Err(Error::AncestorNotFound));
}

#[test]
fn checker_fails_if_given_invalid_proof() {
    let (grandparent, parent, child) = get_related_block_headers();
    let invalid_proof = vec![copy_header(&child), fake_header(), parent, copy_header(&grandparent)];
    assert_eq!(verify_ancestry(invalid_proof, grandparent, child), Err(Error::AncestorNotFound));
}

#[test]
fn empty_ancestry_proof_is_rejected() {
    let (grandparent, _parent, child) = get_related_block_headers();
    assert_eq!(verify_ancestry(Vec::new(), grandparent, child), Err(Error::AncestorNotFound));
}

#[test]
fn header_hash_depends_on_the_fields() {
    let a = Header::new([0u8; 32], 1, [0u8; 32], [0u8; 32]);
    let b = Header::new([0u8; 32], 2, [0u8; 32], [0u8; 32]);
    assert_ne!(a.hash(), b.hash());
    assert_eq!(a.hash(), copy_header(&a).hash());
}

#[test]
fn ancestry_chain_walks_parent_links() {
    let (grandparent, parent, child) = get_related_block_headers();
    let chain = AncestryChain::new(&[copy_header(&child), copy_header(&parent)]);
    assert_eq!(chain.ancestry(&grandparent.hash(), &child.hash()), Some(vec![parent.hash()]));
    assert_eq!(chain.ancestry(&child.hash(), &child.hash()), Some(Vec::new()));
    assert_eq!(chain.ancestry(&fake_header().hash(), &child.hash()), None);
    assert_eq!(chain.best_chain_containing(&child.hash()), None);
}

#[test]
fn localized_payload_layout() {
    let p = Precommit { target_hash: [7u8; 32], target_number: 258 };
    let payload = localized_payload(1, 2, &p);
    let mut expected = vec![1u8];
    expected.extend_from_slice(&[7u8; 32]);
    expected.extend_from_slice(&[2, 1, 0, 0, 0, 0, 0, 0]);
    expected.extend_from_slice(&[1, 0, 0, 0, 0, 0, 0, 0]);
    expected.extend_from_slice(&[2, 0, 0, 0, 0, 0, 0, 0]);
    assert_eq!(payload, expected);
}

fn signer(seed: u8) -> sp_core::ed25519::Pair {
    sp_core::ed25519::Pair::from_seed(&[seed; 32])
}

fn signed_precommit(seed: u8, round: u64, set_id: u64, target: &Header) -> SignedPrecommit {
    let precommit = Precommit { target_hash: target.hash(), target_number: target.number };
    let pair = signer(seed);
    let signature = pair.sign(&localized_payload(round, set_id, &precommit)).0;
    SignedPrecommit { precommit, id: pair.public().0, signature }
}

fn encode_justification(round: u64, target: &Header, precommits: &[SignedPrecommit], headers: &[Header]) -> Vec<u8> {
    let pcs: Vec<(([u8; 32], u64), [u8; 32], [u8; 64])> = precommits
        .iter()
        .map(|s| ((s.precommit.target_hash, s.precommit.target_number), s.id, s.signature))
        .collect();
    let mut out = (round, (target.hash(), target.number, pcs)).encode();
    out.extend(Compact(headers.len() as u64).encode());
    for h in headers {
        out.extend(encode_header(h));
    }
    out
}

fn voters(seeds: &[u8]) -> Vec<([u8; 32], u64)> {
    seeds.iter().map(|s| (signer(*s).public().0, 1)).collect()
}

/// Commit target `base`; two votes on it and one on its child, with the child
/// as the only ancestry header.
fn sample_justification() -> (Header, Header, Vec<SignedPrecommit>) {
    let base = Header::new([5u8; 32], 10, [0u8; 32], [0u8; 32]);
    let child = Header::new(base.hash(), 11, [0u8; 32], [0u8; 32]);
    let precommits = vec![
        signed_precommit(1, 3, 0, &base),
        signed_precommit(2, 3, 0, &child),
        signed_precommit(3, 3, 0, &base),
    ];
    (base, child, precommits)
}

fn verify_bytes(bytes: &[u8], target: &Header) -> Result<(), Error> {
    GrandpaJustification::decode_and_verify_finalizes(bytes, (target.hash(), target.number), 0, &voters(&[1, 2, 3]))
        .map(|_| ())
}

#[test]
fn signature_verifies_and_fails_when_tampered() {
    let (base, _child, precommits) = sample_justification();
    let one = voters(&[1]);
    let check = |bytes: &[u8]| {
        GrandpaJustification::decode_and_verify_finalizes(bytes, (base.hash(), base.number), 0, &one).map(|_| ())
    };
    let bytes = encode_justification(3, &base, &precommits[..1], &[]);
    assert_eq!(check(&bytes), Ok(()));

    let mut tampered = precommits[0];
    tampered.signature[0] ^= 1;
    let bytes = encode_justification(3, &base, &[tampered], &[]);
    assert_eq!(check(&bytes), Err(Error::BadJustification(JustificationError::InvalidSignature)));

    let bytes = encode_justification(4, &base, &precommits[..1], &[]);
    assert_eq!(check(&bytes), Err(Error::BadJustification(JustificationError::InvalidSignature)));
}

#[test]
fn justification_with_ancestry_verifies() {
    let (base, child, precommits) = sample_justification();
    let bytes = encode_justification(3, &base, &precommits, &[copy_header(&child)]);
    let j = GrandpaJustification::decode_and_verify_finalizes(&bytes, (base.hash(), 10), 0, &voters(&[1, 2, 3])).unwrap();
    assert_eq!(j.round, 3);
    assert_eq!(j.commit.precommits.len(), 3);
    assert_eq!(j.votes_ancestries[0].hash(), child.hash());
}

#[test]
fn justification_decode_round_trip() {
    let (base, child, precommits) = sample_justification();
    let bytes = encode_justification(3, &base, &precommits, &[copy_header(&child)]);
    let j = decode_justification(&bytes).unwrap();
    let again = encode_justification(j.round, &base, &j.commit.precommits, &j.votes_ancestries);
    assert_eq!(again, bytes);
    assert_eq!(j.commit.target_hash, base.hash());
    assert_eq!(j.commit.target_number, 10);
    assert_eq!(j.commit.precommits[1].precommit.target_hash, child.hash());
    assert_eq!(j.commit.precommits[1].signature, precommits[1].signature);
}

#[test]
fn garbage_does_not_decode() {
    let (base, _child, _precommits) = sample_justification();
    assert_eq!(verify_bytes(&[1u8, 2, 3], &base), Err(Error::JustificationDecode));
}

#[test]
fn wrong_target_is_rejected() {
    let (base, child, precommits) = sample_justification();
    let bytes = encode_justification(3, &base, &precommits, &[copy_header(&child)]);
    assert_eq!(
        verify_bytes(&bytes, &child),
        Err(Error::BadJustification(JustificationError::InvalidCommitTarget))
    );
}

#[test]
fn commit_without_ghost_is_rejected() {
    let (base, child, precommits) = sample_justification();
    let bytes = encode_justification(3, &base, &precommits, &[copy_header(&child)]);
    assert_eq!(
        GrandpaJustification::decode_and_verify_finalizes(&bytes, (base.hash(), 10), 0, &voters(&[7, 8, 9])).map(|_| ()),
        Err(Error::BadJustification(JustificationError::InvalidCommit))
    );
    assert_eq!(
        GrandpaJustification::decode_and_verify_finalizes(&bytes, (base.hash(), 10), 0, &voters(&[1, 2, 3, 4, 5])).map(|_| ()),
        Err(Error::BadJustification(JustificationError::InvalidCommit))
    );
}

#[test]
fn precommit_order_does_not_change_the_outcome() {
    let (base, child, precommits) = sample_justification();
    let reordered = vec![precommits[2], precommits[1], precommits[0]];
    let a = encode_justification(3, &base, &precommits, &[copy_header(&child)]);
    let b = encode_justification(3, &base, &reordered, &[copy_header(&child)]);
    assert_eq!(verify_bytes(&a, &base), Ok(()));
    assert_eq!(verify_bytes(&b, &base), Ok(()));
}

#[test]
fn unreferenced_header_is_rejected() {
    let (base, child, precommits) = sample_justification();
    let bytes = encode_justification(3, &base, &precommits, &[copy_header(&child), fake_header()]);
    assert_eq!(
        verify_bytes(&bytes, &base),
        Err(Error::BadJustification(JustificationError::UnusedHeaders))
    );
}

#[test]
fn missing_traversed_header_is_rejected() {
    let (base, _child, precommits) = sample_justification();
    // Without the header the gadget cannot place the vote on the child above the
    // commit target, so the commit itself is refused before the ancestry check.
    let bytes = encode_justification(3, &base, &precommits, &[]);
    assert_eq!(
        verify_bytes(&bytes, &base),
        Err(Error::BadJustification(JustificationError::InvalidCommit))
    );
}

#[test]
fn submitted_header_advances_the_bridge() {
    let validators = voters(&[1, 2, 3]);
    let (root, proof) = create_dummy_validator_proof(validators.clone());
    let genesis = Header::new([0u8; 32], 42, root, [0u8; 32]);
    let mut bridges = Module::new();
    assert_eq!(bridges.initialize_bridge(Origin::Signed(1), copy_header(&genesis), validators, proof), Ok(()));

    let next = Header::new(genesis.hash(), 43, [8u8; 32], [0u8; 32]);
    let outsiders = vec![signed_precommit(7, 1, 0, &next), signed_precommit(8, 1, 0, &next), signed_precommit(9, 1, 0, &next)];
    let bytes = encode_justification(1, &next, &outsiders, &[]);
    assert_eq!(
        bridges.submit_finalized_headers(Origin::Signed(1), 1, copy_header(&next), &bytes),
        Err(Error::BadJustification(JustificationError::InvalidCommit))
    );
    let precommits = vec![signed_precommit(1, 1, 0, &next), signed_precommit(2, 1, 0, &next), signed_precommit(3, 1, 0, &next)];
    let bytes = encode_justification(1, &next, &precommits, &[]);
    assert_eq!(bridges.submit_finalized_headers(Origin::Signed(1), 2, copy_header(&next), &bytes), Err(Error::UnknownBridge));
    assert_eq!(bridges.submit_finalized_headers(Origin::Root, 1, copy_header(&next), &bytes), Err(Error::BadOrigin));
    assert_eq!(bridges.submit_finalized_headers(Origin::Signed(1), 1, copy_header(&next), &bytes), Ok(()));
    let info = bridges.tracked_bridges(1).unwrap();
    assert_eq!(info.last_finalized_block_number, 43);
    assert_eq!(info.last_finalized_block_hash, next.hash());
    assert_eq!(info.last_finalized_state_root, [8u8; 32]);
    assert_eq!(
        bridges.submit_finalized_headers(Origin::Signed(1), 1, copy_header(&next), &bytes),
        Err(Error::StaleHeader)
    );
    assert_eq!(bridges.num_bridges(), 1);
}

fn scheduled_change_log(next: &[([u8; 32], u64)]) -> DigestItem {
    let mut data = vec![1u8];
    data.extend(next.to_vec().encode());
    data.extend(5u64.encode());
    DigestItem::Consensus(*b"FRNK", data)
}

#[test]
fn digest_scheduled_change_is_found() {
    let next = vec![([9u8; 32], 2)];
    let logs = vec![DigestItem::Other(vec![0u8, 1, 2]), scheduled_change_log(&next)];
    assert_eq!(find_scheduled_change(&logs), Some(next.clone()));
    let mut other_engine = next.to_vec().encode();
    other_engine.insert(0, 1u8);
    assert_eq!(find_scheduled_change(&vec![DigestItem::Consensus(*b"BABE", other_engine)]), None);
    assert_eq!(find_scheduled_change(&Vec::new()), None);
}

#[test]
fn finalized_scheduled_change_rotates_the_authority_set() {
    let validators = voters(&[1]);
    let (root, proof) = create_dummy_validator_proof(validators.clone());
    let genesis = Header::new([0u8; 32], 42, root, [0u8; 32]);
    let mut bridges = Module::new();
    assert_eq!(bridges.initialize_bridge(Origin::Signed(1), copy_header(&genesis), validators, proof), Ok(()));

    let next_set = voters(&[5]);
    let mut next = Header::new(genesis.hash(), 43, [0u8; 32], [0u8; 32]);
    next.digest = vec![scheduled_change_log(&next_set)];
    let precommits = vec![signed_precommit(1, 1, 0, &next)];
    let bytes = encode_justification(1, &next, &precommits, &[]);
    assert_eq!(bridges.submit_finalized_headers(Origin::Signed(1), 1, copy_header(&next), &bytes), Ok(()));
    let info = bridges.tracked_bridges(1).unwrap();
    assert_eq!(info.current_validator_set, next_set);
    assert_eq!(info.current_set_id, 1);

    let after = Header::new(next.hash(), 44, [0u8; 32], [0u8; 32]);
    let old_signed = vec![signed_precommit(1, 1, 0, &after)];
    let bytes = encode_justification(1, &after, &old_signed, &[]);
    assert_eq!(
        bridges.submit_finalized_headers(Origin::Signed(1), 1, copy_header(&after), &bytes),
        Err(Error::BadJustification(JustificationError::InvalidCommit))
    );
    let stale_set_id = vec![signed_precommit(5, 1, 0, &after)];
    let bytes = encode_justification(1, &after, &stale_set_id, &[]);
    assert_eq!(
        bridges.submit_finalized_headers(Origin::Signed(1), 1, copy_header(&after), &bytes),
        Err(Error::BadJustification(JustificationError::InvalidSignature))
    );
    let new_signed = vec![signed_precommit(5, 1, 1, &after)];
    let bytes = encode_justification(1, &after, &new_signed, &[]);
    assert_eq!(bridges.submit_finalized_headers(Origin::Signed(1), 1, copy_header(&after), &bytes), Ok(()));
}

#[test]
fn scheduled_change_to_an_empty_set_is_refused() {
    let validators = voters(&[1]);
    let (root, proof) = create_dummy_validator_proof(validators.clone());
    let genesis = Header::new([0u8; 32], 42, root, [0u8; 32]);
    let mut bridges = Module::new();
    assert_eq!(bridges.initialize_bridge(Origin::Signed(1), copy_header(&genesis), validators, proof), Ok(()));
    let mut next = Header::new(genesis.hash(), 43, [0u8; 32], [0u8; 32]);
    next.digest = vec![scheduled_change_log(&[])];
    let precommits = vec![signed_precommit(1, 1, 0, &next)];
    let bytes = encode_justification(1, &next, &precommits, &[]);
    assert_eq!(
        bridges.submit_finalized_headers(Origin::Signed(1), 1, copy_header(&next), &bytes),
        Err(Error::InvalidValidatorSet)
    );
    assert_eq!(bridges.tracked_bridges(1).unwrap().last_finalized_block_number, 42);
}

#[test]
fn validator_set_proof_that_cannot_decide_the_key_is_invalid() {
    let mut storage = BTreeMap::new();
    storage.insert(AUTHORITIES_KEY.to_vec(), validators().encode());
    storage.insert(b":grandpa_other".to_vec(), vec![7u8; 40]);
    let backend: InMemoryBackend<Blake2Hasher> = (storage, StateVersion::V1).into();
    let root = backend.root().0;
    let proof = prove_read(backend, &[&b":grandpa_other"[..]]).unwrap();
    let nodes: Vec<Vec<u8>> = proof.into_iter_nodes().collect();
    assert_eq!(
        check_validator_set_proof(&root, nodes, &validators()),
        Err(Error::InvalidValidatorSetProof)
    );
}

#[test]
fn header_encoding_follows_the_digest_layout() {
    let mut h = Header::new([1u8; 32], 5, [2u8; 32], [3u8; 32]);
    h.digest = vec![DigestItem::Other(vec![7u8]), DigestItem::Consensus(*b"FRNK", vec![]), DigestItem::RuntimeEnvironmentUpdated];
    let mut expected = vec![1u8; 32];
    expected.push(20);
    expected.extend_from_slice(&[2u8; 32]);
    expected.extend_from_slice(&[3u8; 32]);
    expected.push(12);
    expected.extend_from_slice(&[0, 4, 7]);
    expected.extend_from_slice(&[4, 70, 82, 78, 75, 0]);
    expected.push(8);
    assert_eq!(encode_header(&h), expected);
    assert_eq!(h.hash(), <Blake2Hasher as sp_core::Hasher>::hash(&expected).0);
}

#[test]
fn headers_with_digests_survive_decoding() {
    let (base, _child, precommits) = sample_justification();
    let mut child = Header::new(base.hash(), 11, [0u8; 32], [0u8; 32]);
    child.digest = vec![DigestItem::Seal(*b"aura", vec![1u8, 2, 3]), DigestItem::PreRuntime(*b"aura", vec![9u8])];
    let precommits = vec![precommits[0], signed_precommit(2, 3, 0, &child), precommits[2]];
    let bytes = encode_justification(3, &base, &precommits, &[copy_header(&child)]);
    let j = decode_justification(&bytes).unwrap();
    assert_eq!(j.votes_ancestries[0].digest, child.digest);
    assert_eq!(j.votes_ancestries[0].hash(), child.hash());
    assert_eq!(verify_bytes(&bytes, &base), Ok(()));
}

#[test]
fn authority_list_encoding_is_exact() {
    let set = vec![([1u8; 32], 1u64), ([2u8; 32], 258u64)];
    let mut expected = vec![8u8];
    expected.extend_from_slice(&[1u8; 32]);
    expected.extend_from_slice(&[1, 0, 0, 0, 0, 0, 0, 0]);
    expected.extend_from_slice(&[2u8; 32]);
    expected.extend_from_slice(&[2, 1, 0, 0, 0, 0, 0, 0]);
    assert_eq!(encode_authorities(&set), expected);
    assert_eq!(encode_authorities(&set), set.encode());
    assert_eq!(encode_authorities(&Vec::new()), vec![0u8]);
}

#[test]
fn empty_trie_root_needs_no_proof_node() {
    let storage: BTreeMap<Vec<u8>, Vec<u8>> = BTreeMap::new();
    let backend: InMemoryBackend<Blake2Hasher> = (storage, StateVersion::V1).into();
    let root = backend.root().0;
    let checker = StorageProofChecker::new(root, Vec::new()).unwrap();
    assert_eq!(checker.read_value(AUTHORITIES_KEY), Ok(None));
    assert_eq!(
        check_validator_set_proof(&root, Vec::new(), &validators()),
        Err(Error::InvalidValidatorSetProof)
    );
}

#[test]
fn justification_decodes_with_trailing_bytes() {
    let (base, child, precommits) = sample_justification();
    let mut bytes = encode_justification(3, &base, &precommits, &[copy_header(&child)]);
    bytes.extend_from_slice(&[0xff, 0xee]);
    let j = decode_justification(&bytes).unwrap();
    assert_eq!(j.commit.precommits.len(), 3);
    assert_eq!(verify_bytes(&bytes, &base), Ok(()));
    bytes.truncate(10);
    assert_eq!(decode_justification(&bytes).map(|_| ()), Err(Error::JustificationDecode));
}
