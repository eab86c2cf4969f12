use vstd::prelude::*;
use crate::primitives::{BlockHash, blake2_256, blake2_256_of, hash_eq};

verus! {

/// The nodes of a proof as byte sequences.
pub open spec fn nodes_view(nodes: Seq<Vec<u8>>) -> Seq<Seq<u8>> {
    nodes.map_values(|n: Vec<u8>| n@)
}

/// Reading `key` from the Merkle-Patricia trie with root `root` whose nodes are
/// `nodes`: `None` where the nodes do not decide, else the value or its absence.
pub uninterp spec fn trie_read(root: Seq<u8>, nodes: Seq<Seq<u8>>, key: Seq<u8>) -> Option<Option<Seq<u8>>>;

/// Relies on sp_trie::read_trie_value over the memory database that
/// sp_trie::StorageProof builds from the nodes, with Blake2b-256 hashing:
/// an error where the nodes cannot decide the lookup.
#[verifier::external_body]
fn read_trie(root: &BlockHash, nodes: &Vec<Vec<u8>>, key: &[u8]) -> (r: Result<Option<Vec<u8>>, ()>)
    ensures
        match trie_read(root@, nodes_view(nodes@), key@) {
            None => r is Err,
            Some(None) => r == Ok::<Option<Vec<u8>>, ()>(None),
            Some(Some(v)) => r is Ok && r->Ok_0 is Some && r->Ok_0->Some_0@ == v,
        },
{
    let db = sp_trie::StorageProof::new(nodes.iter().cloned()).into_memory_db::<sp_core::Blake2Hasher>();
    sp_trie::read_trie_value::<sp_trie::LayoutV1<sp_core::Blake2Hasher>, _>(&db, &sp_core::H256(*root), key, None, None)
        .map_err(|_| ())
}

/// Whether the proof can start a lookup at `root`: `root` is the hash of the
/// empty trie's node `[0]`, which the node database always holds, or one of the
/// nodes hashes to it.
pub open spec fn proof_has_root(root: Seq<u8>, nodes: Seq<Seq<u8>>) -> bool {
    root == blake2_256_of(seq![0u8])
        || exists|i: int| 0 <= i < nodes.len() && blake2_256_of(#[trigger] nodes[i]) == root
}

/// Why a storage proof could not answer.
#[derive(PartialEq, Eq, Structural, Debug, Clone, Copy)]
pub enum ProofError {
    /// No node of the proof hashes to the state root.
    StorageRootMismatch,
    /// The proof does not hold the nodes that the lookup needs.
    StorageValueUnavailable,
}

/// Reads values out of a storage proof against a known state root.
pub struct StorageProofChecker {
    root: BlockHash,
    proof: Vec<Vec<u8>>,
}

impl StorageProofChecker {
    pub closed spec fn root(&self) -> Seq<u8> {
        self.root@
    }

    pub closed spec fn nodes(&self) -> Seq<Seq<u8>> {
        nodes_view(self.proof@)
    }

    /// A checker over `proof`, which must hold the root node of `root` unless
    /// `root` is the empty trie's.
    pub fn new(root: BlockHash, proof: Vec<Vec<u8>>) -> (r: Result<StorageProofChecker, ProofError>)
        ensures
            r is Ok <==> proof_has_root(root@, nodes_view(proof@)),
            r is Ok ==> r->Ok_0.root() == root@ && r->Ok_0.nodes() == nodes_view(proof@),
            r is Err ==> r == Err::<StorageProofChecker, ProofError>(ProofError::StorageRootMismatch),
    {
        let null_node: [u8; 1] = [0u8];
        let null_root = blake2_256(null_node.as_slice());
        assert(null_node@ =~= seq![0u8]);
        if hash_eq(&null_root, &root) {
            return Ok(StorageProofChecker { root, proof });
        }
        let mut i: usize = 0;
        while i < proof.len()
            invariant
                0 <= i <= proof@.len(),
                root@ != blake2_256_of(seq![0u8]),
                forall|j: int| 0 <= j < i ==> blake2_256_of(#[trigger] nodes_view(proof@)[j]) != root@,
            decreases proof@.len() - i,
        {
            let h = blake2_256(proof[i].as_slice());
            if hash_eq(&h, &root) {
                assert(blake2_256_of(nodes_view(proof@)[i as int]) == root@);
                return Ok(StorageProofChecker { root, proof });
            }
            i = i + 1;
        }
        Err(ProofError::StorageRootMismatch)
    }

    /// The value stored under `key`, `None` where the proof shows it absent.
    pub fn read_value(&self, key: &[u8]) -> (r: Result<Option<Vec<u8>>, ProofError>)
        ensures
            match trie_read(self.root(), self.nodes(), key@) {
                None => r == Err::<Option<Vec<u8>>, ProofError>(ProofError::StorageValueUnavailable),
                Some(None) => r == Ok::<Option<Vec<u8>>, ProofError>(None),
                Some(Some(v)) => r is Ok && r->Ok_0 is Some && r->Ok_0->Some_0@ == v,
            },
    {
        match read_trie(&self.root, &self.proof, key) {
            Ok(v) => Ok(v),
            Err(()) => Err(ProofError::StorageValueUnavailable),
        }
    }
}

} // verus!
