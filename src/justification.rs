use vstd::prelude::*;
use crate::ancestry::{
    AncestryChain, ancestry_entries, headers_index, lemma_base_not_inside_route, lemma_entries_map_keys,
    lemma_entries_map_remove, lemma_route_extends, lemma_route_needs_key, route_to, without_base,
};
use crate::error::{Error, JustificationError};
use crate::primitives::{BlockHash, Header, header_hash, hash_eq};
use crate::wire::{decode_justification_prefix, decodes_to, same_header, same_justification};
use finality_grandpa::voter_set::VoterSet;
use finality_grandpa::{Commit as GadgetCommit, Precommit as GadgetPrecommit, SignedPrecommit as GadgetSigned};

verus! {

/// The public key of an authority of the finality gadget (Ed25519).
pub type AuthorityId = [u8; 32];

/// An authority's signature over a vote (Ed25519).
pub type AuthoritySignature = [u8; 64];

/// Whether `signature` is a valid Ed25519 signature of `message` under `public`.
pub uninterp spec fn ed25519_verifies(public: Seq<u8>, message: Seq<u8>, signature: Seq<u8>) -> bool;

/// Relies on sp_core::ed25519::Pair::verify: Ed25519 verification of a signature.
#[verifier::external_body]
fn ed25519_verify(public: &AuthorityId, message: &[u8], signature: &AuthoritySignature) -> (r: bool)
    ensures
        r == ed25519_verifies(public@, message@, signature@),
{
    <sp_core::ed25519::Pair as sp_core::Pair>::verify(
        &sp_core::ed25519::Signature::from_raw(*signature),
        message,
        &sp_core::ed25519::Public::from_raw(*public),
    )
}

/// A vote for a block as final.
#[derive(Debug, Clone, Copy)]
pub struct Precommit {
    pub target_hash: BlockHash,
    pub target_number: u64,
}

/// A precommit with the authority that cast it and its signature.
#[derive(Debug, Clone, Copy)]
pub struct SignedPrecommit {
    pub precommit: Precommit,
    pub id: AuthorityId,
    pub signature: AuthoritySignature,
}

/// The precommits that finalize a target block.
pub struct Commit {
    pub target_hash: BlockHash,
    pub target_number: u64,
    pub precommits: Vec<SignedPrecommit>,
}

/// A justification of finality: a commit of some round and the headers that link
/// every precommit target down to the commit target.
pub struct GrandpaJustification {
    pub round: u64,
    pub commit: Commit,
    pub votes_ancestries: Vec<Header>,
}

/// Whether the finality gadget's commit validation finds a supermajority of the
/// weighted `validators` behind the commit, with the chain given by `ancestry`,
/// the (hash, parent hash) entries of the ancestry headers.
pub uninterp spec fn gadget_commit_valid(
    target_hash: Seq<u8>,
    target_number: u64,
    precommits: Seq<SignedPrecommit>,
    ancestry: Seq<(Seq<u8>, Seq<u8>)>,
    validators: Seq<(AuthorityId, u64)>,
) -> bool;

/// The gadget's verdict on the commit of `j` under `validators`.
pub open spec fn commit_valid(j: GrandpaJustification, validators: Seq<(AuthorityId, u64)>) -> bool {
    gadget_commit_valid(j.commit.target_hash@, j.commit.target_number, j.commit.precommits@, ancestry_entries(j.votes_ancestries@), validators)
}

/// Relies on finality_grandpa::validate_commit (with VoterSet::new over the
/// validators, `false` where it builds no set): whether the commit is valid. The
/// gadget sees the ancestry only through the chain oracle, which answers from
/// the headers' hashes and parent hashes; a commit without precommits is invalid.
#[verifier::external_body]
fn validate_commit(j: &GrandpaJustification, validators: &Vec<(AuthorityId, u64)>) -> (r: bool)
    ensures
        r == gadget_commit_valid(
            j.commit.target_hash@,
            j.commit.target_number,
            j.commit.precommits@,
            ancestry_entries(j.votes_ancestries@),
            validators@,
        ),
        j.commit.precommits@.len() == 0 ==> !r,
{
    let Some(voters) = VoterSet::new(validators.iter().cloned()) else { return false };
    let precommits = j.commit.precommits.iter().map(|s| GadgetSigned {
        precommit: GadgetPrecommit { target_hash: s.precommit.target_hash, target_number: s.precommit.target_number },
        signature: s.signature,
        id: s.id,
    }).collect();
    let commit = GadgetCommit { target_hash: j.commit.target_hash, target_number: j.commit.target_number, precommits };
    let chain = AncestryChain::new(&j.votes_ancestries);
    finality_grandpa::validate_commit(&commit, &voters, &chain).map_or(false, |r| r.is_valid())
}

/// Justifications that agree in what their encoding fixes get the same verdict
/// of the gadget and the same outcome of every check.
pub proof fn lemma_same_justification_same_outcome(
    j1: GrandpaJustification,
    j2: GrandpaJustification,
    target_hash: Seq<u8>,
    target_number: u64,
    set_id: u64,
    voters: Seq<(AuthorityId, u64)>,
)
    requires
        same_justification(j1, j2),
    ensures
        commit_valid(j1, voters) == commit_valid(j2, voters),
        finalization(j1, target_hash, target_number, set_id, commit_valid(j1, voters))
            == finalization(j2, target_hash, target_number, set_id, commit_valid(j2, voters)),
{
    let v1 = j1.votes_ancestries@;
    let v2 = j2.votes_ancestries@;
    assert forall|k: int| 0 <= k < v1.len() implies header_hash(v1[k]) == header_hash(v2[k]) && v1[k].parent_hash@ == v2[k].parent_hash@ by {
        assert(same_header(v1[k], v2[k]));
    }
    assert(ancestry_entries(v1) =~= ancestry_entries(v2));
    assert(ancestry_hashes(j1) =~= ancestry_hashes(j2)) by {
        assert forall|h: Seq<u8>| ancestry_hashes(j1).contains(h) implies ancestry_hashes(j2).contains(h) by {
            let k = choose|k: int| 0 <= k < v1.len() && header_hash(v1[k]) == h;
            assert(header_hash(v2[k]) == h);
        }
        assert forall|h: Seq<u8>| ancestry_hashes(j2).contains(h) implies ancestry_hashes(j1).contains(h) by {
            let k = choose|k: int| 0 <= k < v2.len() && header_hash(v2[k]) == h;
            assert(header_hash(v1[k]) == h);
        }
    }
    assert forall|p: Precommit| route_of(j1, p) == route_of(j2, p) by {}
    lemma_same_scan(j1, j2, set_id, j1.commit.precommits@.len());
}

proof fn lemma_same_scan(j1: GrandpaJustification, j2: GrandpaJustification, set_id: u64, n: nat)
    requires
        j1.round == j2.round,
        j1.commit.target_hash == j2.commit.target_hash,
        j1.commit.precommits@ == j2.commit.precommits@,
        forall|p: Precommit| route_of(j1, p) == route_of(j2, p),
    ensures
        scan(j1, set_id, n) == scan(j2, set_id, n),
    decreases n,
{
    if n > 0 {
        lemma_same_scan(j1, j2, set_id, (n - 1) as nat);
        let sp = j1.commit.precommits@[n - 1];
        assert(precommit_fault(j1, set_id, sp) == precommit_fault(j2, set_id, sp));
        assert(visited_by(j1, sp.precommit) == visited_by(j2, sp.precommit));
    }
}

/// Decodes a justification.
pub fn decode_justification(encoded: &[u8]) -> (r: Result<GrandpaJustification, Error>)
    ensures
        r is Ok ==> decodes_to(encoded@, r->Ok_0),
        r is Err ==> r == Err::<GrandpaJustification, Error>(Error::JustificationDecode),
        forall|j: GrandpaJustification| #[trigger] decodes_to(encoded@, j) ==> r is Ok && same_justification(r->Ok_0, j),
{
    match decode_justification_prefix(encoded) {
        Some(j) => Ok(j),
        None => Err(Error::JustificationDecode),
    }
}

/// The outcome of checking that `j` finalizes `target` for authority set `set_id`.
pub open spec fn finalization(
    j: GrandpaJustification,
    target_hash: Seq<u8>,
    target_number: u64,
    set_id: u64,
    commit_has_ghost: bool,
) -> Result<(), Error> {
    if j.commit.target_hash@ != target_hash || j.commit.target_number != target_number {
        Err(Error::BadJustification(JustificationError::InvalidCommitTarget))
    } else {
        verification(j, set_id, commit_has_ghost)
    }
}

/// The little-endian bytes of the low `n` bytes of `x`.
pub open spec fn le_bytes(x: nat, n: nat) -> Seq<u8>
    decreases n,
{
    if n == 0 {
        Seq::empty()
    } else {
        seq![(x % 256) as u8] + le_bytes(x / 256, (n - 1) as nat)
    }
}

/// The bytes an authority signs for a precommit: the encoding of the precommit as
/// a vote message (variant index 1, target hash, target number), then the round
/// and the authority set id, integers as 8 little-endian bytes.
pub open spec fn precommit_payload(round: u64, set_id: u64, p: Precommit) -> Seq<u8> {
    seq![1u8] + p.target_hash@ + le_bytes(p.target_number as nat, 8) + le_bytes(round as nat, 8)
        + le_bytes(set_id as nat, 8)
}

pub(crate) fn push_le_u64(out: &mut Vec<u8>, x: u64)
    ensures
        final(out)@ == old(out)@ + le_bytes(x as nat, 8),
{
    let mut cur: u64 = x;
    let mut k: usize = 0;
    let ghost start = old(out)@;
    while k < 8
        invariant
            0 <= k <= 8,
            start + le_bytes(x as nat, 8) == out@ + le_bytes(cur as nat, (8 - k) as nat),
        decreases 8 - k,
    {
        let ghost before = out@;
        out.push((cur % 256) as u8);
        assert(le_bytes(cur as nat, (8 - k) as nat) == seq![(cur % 256) as u8] + le_bytes((cur / 256) as nat, (8 - k - 1) as nat));
        assert(before + (seq![(cur % 256) as u8] + le_bytes((cur / 256) as nat, (8 - k - 1) as nat))
            =~= out@ + le_bytes((cur / 256) as nat, (8 - k - 1) as nat));
        cur = cur / 256;
        k = k + 1;
    }
    assert(le_bytes(cur as nat, 0) =~= Seq::<u8>::empty());
    assert(out@ + Seq::<u8>::empty() =~= out@);
}

/// The payload signed for a precommit in the given round and authority set.
pub fn localized_payload(round: u64, set_id: u64, precommit: &Precommit) -> (r: Vec<u8>)
    ensures
        r@ == precommit_payload(round, set_id, *precommit),
{
    let mut out: Vec<u8> = Vec::new();
    out.push(1u8);
    let mut i: usize = 0;
    while i < 32
        invariant
            0 <= i <= 32,
            out@ == seq![1u8] + precommit.target_hash@.subrange(0, i as int),
        decreases 32 - i,
    {
        out.push(precommit.target_hash[i]);
        assert(precommit.target_hash@.subrange(0, i + 1) =~= precommit.target_hash@.subrange(0, i as int).push(precommit.target_hash@[i as int]));
        i = i + 1;
    }
    assert(precommit.target_hash@.subrange(0, 32) =~= precommit.target_hash@);
    push_le_u64(&mut out, precommit.target_number);
    push_le_u64(&mut out, round);
    push_le_u64(&mut out, set_id);
    out
}

/// Whether the signature of `sp` covers its precommit in the given round and set.
pub open spec fn signature_valid(round: u64, set_id: u64, sp: SignedPrecommit) -> bool {
    ed25519_verifies(sp.id@, precommit_payload(round, set_id, sp.precommit), sp.signature@)
}

/// Checks the signature of a signed precommit.
pub fn check_message_sig(sp: &SignedPrecommit, round: u64, set_id: u64) -> (r: Result<(), ()>)
    ensures
        r is Ok <==> signature_valid(round, set_id, *sp),
{
    let payload = localized_payload(round, set_id, &sp.precommit);
    if ed25519_verify(&sp.id, payload.as_slice(), &sp.signature) {
        Ok(())
    } else {
        Err(())
    }
}

/// The route from a precommit target down to the commit target in the ancestry.
pub open spec fn route_of(j: GrandpaJustification, p: Precommit) -> Option<Seq<Seq<u8>>> {
    route_to(headers_index(j.votes_ancestries@), j.commit.target_hash@, p.target_hash@, j.votes_ancestries@.len())
}

/// What is wrong with one signed precommit, if anything.
pub open spec fn precommit_fault(j: GrandpaJustification, set_id: u64, sp: SignedPrecommit) -> Option<JustificationError> {
    if !signature_valid(j.round, set_id, sp) {
        Some(JustificationError::InvalidSignature)
    } else if sp.precommit.target_hash@ != j.commit.target_hash@ && route_of(j, sp.precommit) is None {
        Some(JustificationError::InvalidAncestryProof)
    } else {
        None
    }
}

/// The hashes that a precommit's route visits: its target and the hashes between
/// it and the commit target.
pub open spec fn visited_by(j: GrandpaJustification, p: Precommit) -> Set<Seq<u8>> {
    if p.target_hash@ == j.commit.target_hash@ {
        Set::empty()
    } else {
        match route_of(j, p) {
            Some(r) => without_base(r).to_set().insert(p.target_hash@),
            None => Set::empty(),
        }
    }
}

/// The precommits `0..n` checked in order: the first fault, or the hashes visited.
pub open spec fn scan(j: GrandpaJustification, set_id: u64, n: nat) -> Result<Set<Seq<u8>>, JustificationError>
    decreases n,
{
    if n == 0 {
        Ok(Set::empty())
    } else {
        match scan(j, set_id, (n - 1) as nat) {
            Err(e) => Err(e),
            Ok(v) => match precommit_fault(j, set_id, j.commit.precommits@[n - 1]) {
                Some(e) => Err(e),
                None => Ok(v.union(visited_by(j, j.commit.precommits@[n - 1].precommit))),
            },
        }
    }
}

/// The hashes of the ancestry headers.
pub open spec fn ancestry_hashes(j: GrandpaJustification) -> Set<Seq<u8>> {
    Set::new(|h: Seq<u8>| exists|k: int| 0 <= k < j.votes_ancestries@.len() && header_hash(j.votes_ancestries@[k]) == h)
}

/// The outcome of verifying `j` for authority set `set_id`, where `commit_has_ghost`
/// is the finality gadget's verdict on the commit.
pub open spec fn verification(j: GrandpaJustification, set_id: u64, commit_has_ghost: bool) -> Result<(), Error> {
    if !commit_has_ghost {
        Err(Error::BadJustification(JustificationError::InvalidCommit))
    } else {
        match scan(j, set_id, j.commit.precommits@.len()) {
            Err(e) => Err(Error::BadJustification(e)),
            Ok(v) => if v == ancestry_hashes(j) {
                Ok(())
            } else {
                Err(Error::BadJustification(JustificationError::UnusedHeaders))
            },
        }
    }
}

/// The set of the hashes in `s`.
pub open spec fn hash_set(s: Seq<BlockHash>) -> Set<Seq<u8>> {
    Set::new(|h: Seq<u8>| exists|k: int| 0 <= k < s.len() && s[k]@ == h)
}

fn contains_hash(v: &Vec<BlockHash>, h: &BlockHash) -> (r: bool)
    ensures
        r == hash_set(v@).contains(h@),
{
    let mut i: usize = 0;
    while i < v.len()
        invariant
            0 <= i <= v@.len(),
            forall|k: int| 0 <= k < i ==> v@[k]@ != h@,
        decreases v@.len() - i,
    {
        if hash_eq(&v[i], h) {
            return true;
        }
        i = i + 1;
    }
    false
}

/// Whether every hash of `a` is in `b`.
fn all_within(a: &Vec<BlockHash>, b: &Vec<BlockHash>) -> (r: bool)
    ensures
        r == hash_set(a@).subset_of(hash_set(b@)),
{
    let mut i: usize = 0;
    while i < a.len()
        invariant
            0 <= i <= a@.len(),
            forall|k: int| 0 <= k < i ==> hash_set(b@).contains(#[trigger] a@[k]@),
        decreases a@.len() - i,
    {
        if !contains_hash(b, &a[i]) {
            assert(hash_set(a@).contains(a@[i as int]@));
            return false;
        }
        i = i + 1;
    }
    true
}

/// Once a precommit is found at fault, checking more precommits keeps that fault.
proof fn lemma_scan_err_persists(j: GrandpaJustification, set_id: u64, n: nat, m: nat)
    requires
        n <= m,
        scan(j, set_id, n) is Err,
    ensures
        scan(j, set_id, m) == scan(j, set_id, n),
    decreases m - n,
{
    if n < m {
        lemma_scan_err_persists(j, set_id, n, (m - 1) as nat);
    }
}

/// The hashes that the precommits `0..n` visit.
pub open spec fn visited_union(j: GrandpaJustification, n: nat) -> Set<Seq<u8>> {
    Set::new(|h: Seq<u8>| exists|i: int| 0 <= i < n && visited_by(j, #[trigger] j.commit.precommits@[i].precommit).contains(h))
}

/// Checking the precommits `0..n` succeeds exactly when none is at fault, and then
/// yields the union of what they visit.
proof fn lemma_scan_ok(j: GrandpaJustification, set_id: u64, n: nat)
    requires
        n <= j.commit.precommits@.len(),
    ensures
        scan(j, set_id, n) is Ok <==> forall|i: int| 0 <= i < n ==> precommit_fault(j, set_id, #[trigger] j.commit.precommits@[i]) is None,
        scan(j, set_id, n) is Ok ==> scan(j, set_id, n)->Ok_0 == visited_union(j, n),
    decreases n,
{
    if n == 0 {
        assert(visited_union(j, 0) =~= Set::empty());
    } else {
        lemma_scan_ok(j, set_id, (n - 1) as nat);
        let p = j.commit.precommits@;
        if scan(j, set_id, (n - 1) as nat) is Ok && precommit_fault(j, set_id, p[n - 1]) is None {
            assert forall|h: Seq<u8>| visited_union(j, n).contains(h)
                implies visited_union(j, (n - 1) as nat).union(visited_by(j, p[n - 1].precommit)).contains(h) by {
                let i = choose|i: int| 0 <= i < n && visited_by(j, #[trigger] p[i].precommit).contains(h);
                if i < n - 1 {
                    assert(visited_union(j, (n - 1) as nat).contains(h));
                }
            }
            assert forall|h: Seq<u8>| visited_union(j, (n - 1) as nat).union(visited_by(j, p[n - 1].precommit)).contains(h)
                implies visited_union(j, n).contains(h) by {
                if visited_by(j, p[n - 1].precommit).contains(h) {
                    assert(visited_by(j, p[(n - 1) as int].precommit).contains(h));
                } else {
                    let i = choose|i: int| 0 <= i < n - 1 && visited_by(j, #[trigger] p[i].precommit).contains(h);
                    assert(visited_by(j, p[i].precommit).contains(h));
                }
            }
            assert(visited_union(j, n) =~= visited_union(j, (n - 1) as nat).union(visited_by(j, p[n - 1].precommit)));
        }
    }
}

/// Verification depends on the precommits only through which precommits there are:
/// any reordering, or any list with the same multiset of precommits, verifies
/// exactly when the original does.
pub proof fn lemma_precommit_order_irrelevant(
    j1: GrandpaJustification,
    j2: GrandpaJustification,
    set_id: u64,
    commit_has_ghost: bool,
)
    requires
        j1.round == j2.round,
        j1.commit.target_hash == j2.commit.target_hash,
        j1.commit.target_number == j2.commit.target_number,
        j1.votes_ancestries == j2.votes_ancestries,
        j1.commit.precommits@.to_multiset() == j2.commit.precommits@.to_multiset(),
    ensures
        verification(j1, set_id, commit_has_ghost) is Ok <==> verification(j2, set_id, commit_has_ghost) is Ok,
{
    broadcast use vstd::seq_lib::group_to_multiset_ensures;
    let p1 = j1.commit.precommits@;
    let p2 = j2.commit.precommits@;
    lemma_scan_ok(j1, set_id, p1.len());
    lemma_scan_ok(j2, set_id, p2.len());
    assert forall|x: SignedPrecommit| p1.contains(x) <==> p2.contains(x) by {
        assert(p1.contains(x) <==> p1.to_multiset().count(x) > 0);
        assert(p2.contains(x) <==> p2.to_multiset().count(x) > 0);
    }
    assert forall|x: SignedPrecommit| precommit_fault(j1, set_id, x) == precommit_fault(j2, set_id, x) by {
        assert(route_of(j1, x.precommit) == route_of(j2, x.precommit));
    }
    assert forall|x: Precommit| visited_by(j1, x) == visited_by(j2, x) by {
        assert(route_of(j1, x) == route_of(j2, x));
    }
    assert((forall|i: int| 0 <= i < p1.len() ==> precommit_fault(j1, set_id, #[trigger] p1[i]) is None)
        <==> (forall|i: int| 0 <= i < p2.len() ==> precommit_fault(j2, set_id, #[trigger] p2[i]) is None)) by {
        if forall|i: int| 0 <= i < p1.len() ==> precommit_fault(j1, set_id, #[trigger] p1[i]) is None {
            assert forall|i: int| 0 <= i < p2.len() implies precommit_fault(j2, set_id, #[trigger] p2[i]) is None by {
                assert(p2.contains(p2[i]));
                let k = choose|k: int| 0 <= k < p1.len() && p1[k] == p2[i];
                assert(precommit_fault(j1, set_id, p1[k]) is None);
            }
        }
        if forall|i: int| 0 <= i < p2.len() ==> precommit_fault(j2, set_id, #[trigger] p2[i]) is None {
            assert forall|i: int| 0 <= i < p1.len() implies precommit_fault(j1, set_id, #[trigger] p1[i]) is None by {
                assert(p1.contains(p1[i]));
                let k = choose|k: int| 0 <= k < p2.len() && p2[k] == p1[i];
                assert(precommit_fault(j2, set_id, p2[k]) is None);
            }
        }
    }
    assert(visited_union(j1, p1.len()) =~= visited_union(j2, p2.len())) by {
        assert forall|h: Seq<u8>| visited_union(j1, p1.len()).contains(h) implies visited_union(j2, p2.len()).contains(h) by {
            let i = choose|i: int| 0 <= i < p1.len() && visited_by(j1, #[trigger] p1[i].precommit).contains(h);
            assert(p2.contains(p1[i]));
            let k = choose|k: int| 0 <= k < p2.len() && p2[k] == p1[i];
            assert(visited_by(j2, p2[k].precommit).contains(h));
        }
        assert forall|h: Seq<u8>| visited_union(j2, p2.len()).contains(h) implies visited_union(j1, p1.len()).contains(h) by {
            let i = choose|i: int| 0 <= i < p2.len() && visited_by(j2, #[trigger] p2[i].precommit).contains(h);
            assert(p1.contains(p2[i]));
            let k = choose|k: int| 0 <= k < p1.len() && p1[k] == p2[i];
            assert(visited_by(j1, p1[k].precommit).contains(h));
        }
    }
    assert(ancestry_hashes(j1) == ancestry_hashes(j2));
}

/// A justification whose precommits are all sound, but whose ancestry holds a header
/// that no precommit's route reaches, is refused for unused headers.
pub proof fn lemma_unused_header_refused(j: GrandpaJustification, set_id: u64, k: int)
    requires
        0 <= k < j.votes_ancestries@.len(),
        forall|i: int| 0 <= i < j.commit.precommits@.len()
            ==> precommit_fault(j, set_id, #[trigger] j.commit.precommits@[i]) is None,
        forall|i: int| 0 <= i < j.commit.precommits@.len()
            ==> !visited_by(j, (#[trigger] j.commit.precommits@[i]).precommit).contains(header_hash(j.votes_ancestries@[k])),
    ensures
        verification(j, set_id, true) == Err::<(), Error>(Error::BadJustification(JustificationError::UnusedHeaders)),
{
    let n = j.commit.precommits@.len();
    lemma_scan_ok(j, set_id, n);
    let h = header_hash(j.votes_ancestries@[k]);
    assert(ancestry_hashes(j).contains(h));
    assert(!visited_union(j, n).contains(h));
}

/// Adding to a verified justification's ancestry a header whose hash none of its
/// headers has gets it refused for unused headers: every route stays as it was,
/// so the new header is on none of them.
pub proof fn lemma_added_header_refused(
    j: GrandpaJustification,
    j2: GrandpaJustification,
    set_id: u64,
    h: Header,
)
    requires
        verification(j, set_id, true) is Ok,
        !ancestry_hashes(j).contains(header_hash(h)),
        j2.round == j.round,
        j2.commit == j.commit,
        j2.votes_ancestries@ == j.votes_ancestries@.push(h),
    ensures
        verification(j2, set_id, true) == Err::<(), Error>(Error::BadJustification(JustificationError::UnusedHeaders)),
{
    let n = j.commit.precommits@.len();
    let pcs = j.commit.precommits@;
    let votes = j.votes_ancestries@;
    let hk = header_hash(h);
    let f = |x: Header| (header_hash(x), x.parent_hash@);
    lemma_scan_ok(j, set_id, n);
    let m = headers_index(votes);
    let m2 = headers_index(j2.votes_ancestries@);
    assert(j2.votes_ancestries@.map_values(f).drop_last() =~= votes.map_values(f));
    assert(m2 == m.insert(hk, h.parent_hash@));
    assert(!m.contains_key(hk)) by {
        lemma_entries_map_keys(votes.map_values(f), hk);
        if m.contains_key(hk) {
            let i = choose|i: int| 0 <= i < votes.map_values(f).len() && (#[trigger] votes.map_values(f)[i]).0 == hk;
            assert(header_hash(votes[i]) == hk);
        }
    }
    assert forall|x: Seq<u8>| #[trigger] m.contains_key(x) implies m2.contains_key(x) && m2[x] == m[x] by {}
    assert forall|i: int| 0 <= i < n implies precommit_fault(j2, set_id, #[trigger] pcs[i]) is None
        && visited_by(j2, pcs[i].precommit) == visited_by(j, pcs[i].precommit) by {
        assert(precommit_fault(j, set_id, pcs[i]) is None);
        if pcs[i].precommit.target_hash@ != j.commit.target_hash@ {
            lemma_route_extends(m, m2, j.commit.target_hash@, pcs[i].precommit.target_hash@, votes.len(), votes.len() + 1);
        }
    }
    lemma_scan_ok(j2, set_id, n);
    assert(visited_union(j2, n) =~= visited_union(j, n));
    assert(ancestry_hashes(j2).contains(hk)) by {
        assert(j2.votes_ancestries@[votes.len() as int] == h);
    }
}

/// The error that checking the precommits ends with is the fault of one of them.
proof fn lemma_scan_err_is_fault(j: GrandpaJustification, set_id: u64, n: nat)
    requires
        n <= j.commit.precommits@.len(),
        scan(j, set_id, n) is Err,
    ensures
        exists|i: int| 0 <= i < n && precommit_fault(j, set_id, #[trigger] j.commit.precommits@[i]) == Some(scan(j, set_id, n)->Err_0),
    decreases n,
{
    if scan(j, set_id, (n - 1) as nat) is Err {
        lemma_scan_err_is_fault(j, set_id, (n - 1) as nat);
    } else {
        assert(precommit_fault(j, set_id, j.commit.precommits@[n - 1]) == Some(scan(j, set_id, n)->Err_0));
    }
}

/// Taking out of a verified justification's ancestry a header that a precommit's
/// route goes through (its hash occurring once) makes the ancestry proof fail.
pub proof fn lemma_missing_traversed_header_refused(
    j: GrandpaJustification,
    j2: GrandpaJustification,
    set_id: u64,
    k: int,
)
    requires
        verification(j, set_id, true) is Ok,
        0 <= k < j.votes_ancestries@.len(),
        forall|i: int| 0 <= i < j.votes_ancestries@.len() && i != k
            ==> header_hash(#[trigger] j.votes_ancestries@[i]) != header_hash(j.votes_ancestries@[k]),
        j2.round == j.round,
        j2.commit == j.commit,
        j2.votes_ancestries@ == j.votes_ancestries@.remove(k),
    ensures
        verification(j2, set_id, true) == Err::<(), Error>(Error::BadJustification(JustificationError::InvalidAncestryProof)),
{
    let n = j.commit.precommits@.len();
    let pcs = j.commit.precommits@;
    let votes = j.votes_ancestries@;
    let base = j.commit.target_hash@;
    let hk = header_hash(votes[k]);
    lemma_scan_ok(j, set_id, n);
    lemma_scan_ok(j2, set_id, n);
    assert(ancestry_hashes(j).contains(hk));
    assert(visited_union(j, n).contains(hk));
    let i = choose|i: int| 0 <= i < n && visited_by(j, #[trigger] pcs[i].precommit).contains(hk);
    let p = pcs[i].precommit;
    let r = route_of(j, p)->Some_0;
    assert(p.target_hash@ != base);
    assert(route_of(j, p) is Some);
    assert(hk == p.target_hash@ || without_base(r).contains(hk));
    lemma_base_not_inside_route(headers_index(votes), base, p.target_hash@, votes.len());
    let f = |h: Header| (header_hash(h), h.parent_hash@);
    let s = votes.map_values(f);
    assert(votes.remove(k).map_values(f) =~= s.remove(k));
    assert forall|m: int| 0 <= m < s.len() && m != k implies (#[trigger] s[m]).0 != s[k].0 by {
        assert(s[m].0 == header_hash(votes[m]));
    }
    lemma_entries_map_remove(s, k);
    assert(headers_index(j2.votes_ancestries@) == headers_index(votes).remove(hk));
    lemma_route_needs_key(headers_index(votes), base, p.target_hash@, votes.len(), hk, j2.votes_ancestries@.len());
    assert(route_of(j2, p) is None);
    assert(precommit_fault(j2, set_id, j2.commit.precommits@[i]) == Some(JustificationError::InvalidAncestryProof));
    assert(scan(j2, set_id, n) is Err);
    lemma_scan_err_is_fault(j2, set_id, n);
    let e = scan(j2, set_id, n)->Err_0;
    let m = choose|m: int| 0 <= m < n && precommit_fault(j2, set_id, #[trigger] j2.commit.precommits@[m]) == Some(e);
    assert(precommit_fault(j, set_id, pcs[m]) is None);
    assert(signature_valid(j2.round, set_id, j2.commit.precommits@[m]));
}

proof fn lemma_hash_set_push(s: Seq<BlockHash>, x: BlockHash)
    ensures
        hash_set(s.push(x)) == hash_set(s).insert(x@),
{
    assert forall|h: Seq<u8>| hash_set(s).insert(x@).contains(h) implies hash_set(s.push(x)).contains(h) by {
        if h == x@ {
            assert(s.push(x)[s.len() as int]@ == h);
        } else {
            let k = choose|k: int| 0 <= k < s.len() && s[k]@ == h;
            assert(s.push(x)[k]@ == h);
        }
    }
    assert forall|h: Seq<u8>| hash_set(s.push(x)).contains(h) implies hash_set(s).insert(x@).contains(h) by {
        let k = choose|k: int| 0 <= k < s.len() + 1 && s.push(x)[k]@ == h;
        if k < s.len() {
            assert(s[k]@ == h);
        }
    }
    assert(hash_set(s.push(x)) =~= hash_set(s).insert(x@));
}

proof fn lemma_to_set_push(s: Seq<Seq<u8>>, a: Seq<u8>)
    ensures
        s.push(a).to_set() == s.to_set().insert(a),
{
    assert forall|h: Seq<u8>| s.to_set().insert(a).contains(h) implies s.push(a).to_set().contains(h) by {
        if h == a {
            assert(s.push(a)[s.len() as int] == h);
        } else {
            let k = choose|k: int| 0 <= k < s.len() && s[k] == h;
            assert(s.push(a)[k] == h);
        }
    }
    assert forall|h: Seq<u8>| s.push(a).to_set().contains(h) implies s.to_set().insert(a).contains(h) by {
        let k = choose|k: int| 0 <= k < s.len() + 1 && s.push(a)[k] == h;
        if k < s.len() {
            assert(s[k] == h);
        }
    }
    assert(s.push(a).to_set() =~= s.to_set().insert(a));
}

impl GrandpaJustification {
    /// Checks that this justification's commit targets `finalized_target` and that
    /// it verifies under the weighted `voters` of authority set `set_id`.
    pub fn verify_finalizes(
        &self,
        finalized_target: (BlockHash, u64),
        set_id: u64,
        voters: &Vec<(AuthorityId, u64)>,
    ) -> (r: Result<(), Error>)
        ensures
            r == finalization(*self, finalized_target.0@, finalized_target.1, set_id, commit_valid(*self, voters@)),
    {
        if !hash_eq(&self.commit.target_hash, &finalized_target.0) || self.commit.target_number != finalized_target.1 {
            return Err(Error::BadJustification(JustificationError::InvalidCommitTarget));
        }
        self.verify(set_id, voters)
    }

    /// Decodes a justification and checks that it finalizes `finalized_target`.
    pub fn decode_and_verify_finalizes(
        encoded: &[u8],
        finalized_target: (BlockHash, u64),
        set_id: u64,
        voters: &Vec<(AuthorityId, u64)>,
    ) -> (r: Result<GrandpaJustification, Error>)
        ensures
            r is Ok ==> decodes_to(encoded@, r->Ok_0)
                && finalization(r->Ok_0, finalized_target.0@, finalized_target.1, set_id, commit_valid(r->Ok_0, voters@)) is Ok,
            r is Err ==> r->Err_0 == Error::JustificationDecode || exists|j: GrandpaJustification|
                #[trigger] decodes_to(encoded@, j)
                && finalization(j, finalized_target.0@, finalized_target.1, set_id, commit_valid(j, voters@)) == Err::<(), Error>(r->Err_0),
            forall|j: GrandpaJustification| #[trigger] decodes_to(encoded@, j) ==> {
                let outcome = finalization(j, finalized_target.0@, finalized_target.1, set_id, commit_valid(j, voters@));
                &&& (r is Ok <==> outcome is Ok)
                &&& (r is Ok ==> same_justification(r->Ok_0, j))
                &&& (r is Err ==> outcome == Err::<(), Error>(r->Err_0))
            },
    {
        let j = decode_justification(encoded)?;
        proof {
            assert forall|j2: GrandpaJustification| #[trigger] decodes_to(encoded@, j2) implies same_justification(j, j2) by {}
            assert forall|j2: GrandpaJustification| #[trigger] decodes_to(encoded@, j2) implies
                finalization(j2, finalized_target.0@, finalized_target.1, set_id, commit_valid(j2, voters@))
                    == finalization(j, finalized_target.0@, finalized_target.1, set_id, commit_valid(j, voters@)) by {
                lemma_same_justification_same_outcome(j, j2, finalized_target.0@, finalized_target.1, set_id, voters@);
            }
        }
        match j.verify_finalizes(finalized_target, set_id, voters) {
            Ok(()) => Ok(j),
            Err(e) => Err(e),
        }
    }

    /// Checks a justification against the weighted `voters` of authority set
    /// `set_id`: the gadget's quorum rule, signatures and ancestry coverage.
    pub fn verify(&self, set_id: u64, voters: &Vec<(AuthorityId, u64)>) -> (r: Result<(), Error>)
        ensures
            r == verification(*self, set_id, commit_valid(*self, voters@)),
    {
        let commit_has_ghost = validate_commit(self, voters);
        if !commit_has_ghost {
            return Err(Error::BadJustification(JustificationError::InvalidCommit));
        }
        let chain = AncestryChain::new(self.votes_ancestries.as_slice());
        let mut visited: Vec<BlockHash> = Vec::new();
        let mut i: usize = 0;
        while i < self.commit.precommits.len()
            invariant
                0 <= i <= self.commit.precommits@.len(),
                commit_has_ghost,
                commit_has_ghost == commit_valid(*self, voters@),
                chain@ == headers_index(self.votes_ancestries@),
                chain.max_steps() == self.votes_ancestries@.len(),
                scan(*self, set_id, i as nat) is Ok,
                scan(*self, set_id, i as nat)->Ok_0 == hash_set(visited@),
            decreases self.commit.precommits@.len() - i,
        {
            let signed = &self.commit.precommits[i];
            if check_message_sig(signed, self.round, set_id).is_err() {
                proof {
                    assert(self.commit.precommits@[i as int] == *signed);
                    assert(scan(*self, set_id, (i + 1) as nat) == Err::<Set<Seq<u8>>, JustificationError>(JustificationError::InvalidSignature));
                    lemma_scan_err_persists(*self, set_id, (i + 1) as nat, self.commit.precommits@.len());
                    assert(scan(*self, set_id, self.commit.precommits@.len()) == Err::<Set<Seq<u8>>, JustificationError>(JustificationError::InvalidSignature));
                }
                return Err(Error::BadJustification(JustificationError::InvalidSignature));
            }
            if !hash_eq(&self.commit.target_hash, &signed.precommit.target_hash) {
                match chain.ancestry(&self.commit.target_hash, &signed.precommit.target_hash) {
                    Some(route) => {
                        let ghost before = visited@;
                        visited.push(signed.precommit.target_hash);
                        let mut k: usize = 0;
                        proof {
                            lemma_hash_set_push(before, signed.precommit.target_hash);
                            assert(route@.map_values(|h: BlockHash| h@).subrange(0, 0).to_set() =~= Set::empty());
                            assert(hash_set(visited@) =~= hash_set(before).union(
                                route@.map_values(|h: BlockHash| h@).subrange(0, 0).to_set().insert(signed.precommit.target_hash@)));
                        }
                        while k < route.len()
                            invariant
                                0 <= k <= route@.len(),
                                hash_set(visited@) == hash_set(before).union(
                                    route@.map_values(|h: BlockHash| h@).subrange(0, k as int).to_set().insert(signed.precommit.target_hash@)),
                            decreases route@.len() - k,
                        {
                            let ghost prev = visited@;
                            visited.push(route[k]);
                            proof {
                                let rs = route@.map_values(|h: BlockHash| h@);
                                lemma_hash_set_push(prev, route@[k as int]);
                                assert(rs.subrange(0, k + 1) =~= rs.subrange(0, k as int).push(rs[k as int]));
                                lemma_to_set_push(rs.subrange(0, k as int), rs[k as int]);
                                assert(hash_set(visited@) =~= hash_set(before).union(
                                    rs.subrange(0, k + 1).to_set().insert(signed.precommit.target_hash@)));
                            }
                            k = k + 1;
                        }
                        proof {
                            let rs = route@.map_values(|h: BlockHash| h@);
                            assert(rs.subrange(0, route@.len() as int) =~= rs);
                            assert(hash_set(visited@) =~= scan(*self, set_id, i as nat)->Ok_0.union(
                                visited_by(*self, signed.precommit)));
                        }
                    },
                    None => {
                        proof {
                            assert(self.commit.precommits@[i as int] == *signed);
                            assert(route_of(*self, signed.precommit) is None);
                            assert(scan(*self, set_id, (i + 1) as nat) == Err::<Set<Seq<u8>>, JustificationError>(JustificationError::InvalidAncestryProof));
                            lemma_scan_err_persists(*self, set_id, (i + 1) as nat, self.commit.precommits@.len());
                        }
                        return Err(Error::BadJustification(JustificationError::InvalidAncestryProof));
                    },
                }
            }
            proof {
                if self.commit.target_hash@ == signed.precommit.target_hash@ {
                    assert(hash_set(visited@) =~= scan(*self, set_id, i as nat)->Ok_0.union(
                        visited_by(*self, signed.precommit)));
                }
            }
            i = i + 1;
        }
        let mut anc: Vec<BlockHash> = Vec::new();
        let mut k: usize = 0;
        while k < self.votes_ancestries.len()
            invariant
                0 <= k <= self.votes_ancestries@.len(),
                anc@.len() == k,
                forall|m: int| 0 <= m < k ==> (#[trigger] anc@[m])@ == header_hash(self.votes_ancestries@[m]),
            decreases self.votes_ancestries@.len() - k,
        {
            anc.push(self.votes_ancestries[k].hash());
            k = k + 1;
        }
        assert(hash_set(anc@) =~= ancestry_hashes(*self)) by {
            assert forall|h: Seq<u8>| ancestry_hashes(*self).contains(h) implies hash_set(anc@).contains(h) by {
                let m = choose|m: int| 0 <= m < self.votes_ancestries@.len() && header_hash(self.votes_ancestries@[m]) == h;
                assert(anc@[m]@ == h);
            }
        }
        assert(i == self.commit.precommits@.len());
        if all_within(&visited, &anc) && all_within(&anc, &visited) {
            assert(hash_set(visited@) =~= hash_set(anc@));
            Ok(())
        } else {
            Err(Error::BadJustification(JustificationError::UnusedHeaders))
        }
    }
}

} // verus!
