use vstd::prelude::*;
use crate::digest::{find_scheduled_change, scheduled_change};
use crate::error::Error;
use crate::justification::{AuthorityId, le_bytes, push_le_u64, GrandpaJustification, commit_valid, finalization};
use crate::wire::decodes_to;
use crate::primitives::{BlockHash, Header, append_bytes, bytes_eq, compact_encoding, encode_compact, header_hash};
use crate::storage_proof::{StorageProofChecker, nodes_view, proof_has_root, trie_read};

verus! {

/// The weight of an authority's vote.
pub type ValidatorWeight = u64;

/// The id of a tracked bridge; ids are given out from 1 upwards.
pub type BridgeId = u64;

/// The encoding of one authority: its id, then its weight as 8 little-endian bytes.
pub open spec fn authority_encoding(a: (AuthorityId, ValidatorWeight)) -> Seq<u8> {
    a.0@ + le_bytes(a.1 as nat, 8)
}

/// The encodings of `set`, one after another.
pub open spec fn authorities_encoding(set: Seq<(AuthorityId, ValidatorWeight)>) -> Seq<u8>
    decreases set.len(),
{
    if set.len() == 0 {
        Seq::empty()
    } else {
        authorities_encoding(set.drop_last()) + authority_encoding(set.last())
    }
}

/// The canonical encoding of an authority list: a compact count, then each entry.
pub open spec fn authority_list_encoding(set: Seq<(AuthorityId, ValidatorWeight)>) -> Seq<u8> {
    compact_encoding(set.len() as u64) + authorities_encoding(set)
}

/// Encodes an authority list as the remote chain stores it.
pub fn encode_authorities(set: &Vec<(AuthorityId, ValidatorWeight)>) -> (r: Vec<u8>)
    ensures
        r@ == authority_list_encoding(set@),
{
    let mut out = encode_compact(set.len() as u64);
    let ghost head = out@;
    let mut i: usize = 0;
    while i < set.len()
        invariant
            0 <= i <= set@.len(),
            out@ == head + authorities_encoding(set@.subrange(0, i as int)),
        decreases set@.len() - i,
    {
        let ghost before = out@;
        append_bytes(&mut out, set[i].0.as_slice());
        push_le_u64(&mut out, set[i].1);
        assert(set@.subrange(0, i + 1).drop_last() =~= set@.subrange(0, i as int));
        assert(out@ =~= head + authorities_encoding(set@.subrange(0, i + 1)));
        i = i + 1;
    }
    assert(set@.subrange(0, set@.len() as int) =~= set@);
    out
}

/// The storage key under which the remote chain keeps its authority list.
pub open spec fn authorities_key() -> Seq<u8> {
    seq![58u8, 103, 114, 97, 110, 100, 112, 97, 95, 97, 117, 116, 104, 111, 114, 105, 116, 105, 101, 115]
}

fn grandpa_authorities_key() -> (r: Vec<u8>)
    ensures
        r@ == authorities_key(),
{
    let r: Vec<u8> = vec![58u8, 103, 114, 97, 110, 100, 112, 97, 95, 97, 117, 116, 104, 111, 114, 105, 116, 105, 101, 115];
    assert(r@ =~= authorities_key());
    r
}

/// The outcome of checking that `proof` shows the authority list `set` in the
/// state with root `state_root`.
pub open spec fn validator_set_proof_outcome(
    state_root: Seq<u8>,
    proof: Seq<Seq<u8>>,
    set: Seq<(AuthorityId, ValidatorWeight)>,
) -> Result<(), Error> {
    if !proof_has_root(state_root, proof) {
        Err(Error::InvalidStorageProof)
    } else {
        match trie_read(state_root, proof, authorities_key()) {
            None => Err(Error::InvalidValidatorSetProof),
            Some(None) => Err(Error::InvalidValidatorSetProof),
            Some(Some(v)) => if v == authority_list_encoding(set) {
                Ok(())
            } else {
                Err(Error::ValidatorSetMismatch)
            },
        }
    }
}

/// An authority set that can vote: not empty, and no authority without weight.
pub open spec fn valid_validator_set(set: Seq<(AuthorityId, ValidatorWeight)>) -> bool {
    set.len() > 0 && forall|i: int| 0 <= i < set.len() ==> (#[trigger] set[i]).1 >= 1
}

/// Checks the authority list against a storage proof of the remote chain's state.
pub fn check_validator_set_proof(
    state_root: &BlockHash,
    proof: Vec<Vec<u8>>,
    validator_set: &Vec<(AuthorityId, ValidatorWeight)>,
) -> (r: Result<(), Error>)
    ensures
        r == validator_set_proof_outcome(state_root@, nodes_view(proof@), validator_set@),
{
    let ghost nodes = nodes_view(proof@);
    let checker = match StorageProofChecker::new(*state_root, proof) {
        Ok(c) => c,
        Err(_) => {
            return Err(Error::InvalidStorageProof);
        },
    };
    let encoded_validator_set = encode_authorities(validator_set);
    let key = grandpa_authorities_key();
    match checker.read_value(key.as_slice()) {
        Err(_) => Err(Error::InvalidValidatorSetProof),
        Ok(None) => Err(Error::InvalidValidatorSetProof),
        Ok(Some(actual)) => {
            if bytes_eq(encoded_validator_set.as_slice(), actual.as_slice()) {
                Ok(())
            } else {
                Err(Error::ValidatorSetMismatch)
            }
        },
    }
}

fn validator_set_is_valid(set: &Vec<(AuthorityId, ValidatorWeight)>) -> (r: bool)
    ensures
        r == valid_validator_set(set@),
{
    if set.len() == 0 {
        return false;
    }
    let mut i: usize = 0;
    while i < set.len()
        invariant
            0 <= i <= set@.len(),
            forall|j: int| 0 <= j < i ==> (#[trigger] set@[j]).1 >= 1,
        decreases set@.len() - i,
    {
        if set[i].1 == 0 {
            return false;
        }
        i = i + 1;
    }
    true
}

/// What the bridge knows of one remote chain.
#[derive(PartialEq, Eq, Debug)]
pub struct BridgeInfo {
    pub last_finalized_block_number: u64,
    pub last_finalized_block_hash: BlockHash,
    pub last_finalized_state_root: BlockHash,
    pub current_validator_set: Vec<(AuthorityId, ValidatorWeight)>,
    pub current_set_id: u64,
}

impl BridgeInfo {
    /// A record of a bridge at the given block, under authority set 0.
    pub fn new(
        block_number: &u64,
        block_hash: &BlockHash,
        state_root: &BlockHash,
        validator_set: Vec<(AuthorityId, ValidatorWeight)>,
    ) -> (r: BridgeInfo)
        ensures
            r.last_finalized_block_number == *block_number,
            r.last_finalized_block_hash == *block_hash,
            r.last_finalized_state_root == *state_root,
            r.current_validator_set == validator_set,
            r.current_set_id == 0,
    {
        BridgeInfo {
            last_finalized_block_number: *block_number,
            last_finalized_block_hash: *block_hash,
            last_finalized_state_root: *state_root,
            current_validator_set: validator_set,
            current_set_id: 0,
        }
    }
}

/// The origin of a call.
#[derive(PartialEq, Eq, Structural, Debug, Clone, Copy)]
pub enum Origin {
    /// Signed by the given account.
    Signed(u64),
    /// The host chain's root authority.
    Root,
    /// Not signed.
    Unsigned,
}

/// The account that signed a call.
pub fn ensure_signed(origin: Origin) -> (r: Result<u64, Error>)
    ensures
        match origin {
            Origin::Signed(who) => r == Ok::<u64, Error>(who),
            _ => r == Err::<u64, Error>(Error::BadOrigin),
        },
{
    match origin {
        Origin::Signed(who) => Ok(who),
        _ => Err(Error::BadOrigin),
    }
}

/// The error that submitting `header` for bridge `id` of `m` meets before the
/// justification is looked at, if any.
pub open spec fn submit_precheck(m: Module, origin: Origin, id: BridgeId, header: Header) -> Option<Error> {
    if !(origin is Signed) {
        Some(Error::BadOrigin)
    } else if !(1 <= id <= m.bridges().len()) {
        Some(Error::UnknownBridge)
    } else if header.number <= m.bridges()[id - 1].last_finalized_block_number {
        Some(Error::StaleHeader)
    } else {
        None
    }
}

/// Whether `bytes` decode to a justification `j` that finalizes `header` under
/// the stored authority set and set id of bridge `id`.
pub open spec fn finalizes_with(m: Module, id: BridgeId, header: Header, bytes: Seq<u8>, j: GrandpaJustification) -> bool {
    &&& decodes_to(bytes, j)
    &&& finalization(
        j,
        header_hash(header),
        header.number,
        m.bridges()[id - 1].current_set_id,
        commit_valid(j, m.bridges()[id - 1].current_validator_set@),
    ) is Ok
}

/// The error that an authority set change scheduled by `header` meets, if any.
pub open spec fn change_error(m: Module, id: BridgeId, header: Header) -> Option<Error> {
    match scheduled_change(header.digest@) {
        None => None,
        Some(set) => if !valid_validator_set(set) {
            Some(Error::InvalidValidatorSet)
        } else if m.bridges()[id - 1].current_set_id == u64::MAX {
            Some(Error::SetIdOverflow)
        } else {
            None
        },
    }
}

proof fn lemma_id_range_len(n: u64)
    ensures
        Set::new(|id: BridgeId| 1 <= id <= n).finite(),
        Set::new(|id: BridgeId| 1 <= id <= n).len() == n,
    decreases n,
{
    if n == 0 {
        assert(Set::new(|id: BridgeId| 1 <= id <= n) =~= Set::<BridgeId>::empty());
    } else {
        lemma_id_range_len((n - 1) as u64);
        assert(Set::new(|id: BridgeId| 1 <= id <= n)
            =~= Set::new(|id: BridgeId| 1 <= id <= (n - 1) as u64).insert(n));
    }
}

/// The stored number of bridges is the number of bridges in the registry.
pub proof fn lemma_num_bridges_counts_registry(m: Module)
    requires
        m.wf(),
    ensures
        m.tracked_map().dom().finite(),
        m.count() == m.tracked_map().dom().len(),
{
    lemma_id_range_len(m.count());
    assert(m.tracked_map().dom() =~= Set::new(|id: BridgeId| 1 <= id <= m.count()));
}

/// Every id from 1 up to the stored number of bridges names a tracked bridge.
pub proof fn lemma_ids_up_to_count_tracked(m: Module, id: BridgeId)
    requires
        m.wf(),
        1 <= id <= m.count(),
    ensures
        m.tracked_map().contains_key(id),
{
}

/// Every tracked bridge holds a non-empty authority set of positive weights.
pub proof fn lemma_tracked_sets_can_vote(m: Module, id: BridgeId)
    requires
        m.wf(),
        m.tracked_map().contains_key(id),
    ensures
        m.tracked_map()[id].current_validator_set@.len() > 0,
        valid_validator_set(m.tracked_map()[id].current_validator_set@),
{
    assert(valid_validator_set(m.bridges()[id - 1].current_validator_set@));
}

/// The registry of tracked bridges.
pub struct Module {
    num_bridges: BridgeId,
    records: Vec<BridgeInfo>,
}

impl Module {
    /// The tracked bridges: the bridge with id `i` is entry `i - 1`.
    pub closed spec fn bridges(&self) -> Seq<BridgeInfo> {
        self.records@
    }

    /// The stored number of bridges.
    pub closed spec fn count(&self) -> BridgeId {
        self.num_bridges
    }

    /// The registry as a map from bridge id to record.
    pub open spec fn tracked_map(&self) -> Map<BridgeId, BridgeInfo> {
        Map::new(
            |id: BridgeId| 1 <= id <= self.bridges().len(),
            |id: BridgeId| self.bridges()[id - 1],
        )
    }

    /// The registry's invariant: the count matches the records, and every record
    /// holds an authority set that can vote.
    pub open spec fn wf(&self) -> bool {
        &&& self.count() == self.bridges().len()
        &&& forall|i: int| 0 <= i < self.bridges().len()
            ==> valid_validator_set((#[trigger] self.bridges()[i]).current_validator_set@)
    }

    /// A registry that tracks no bridge.
    pub fn new() -> (r: Module)
        ensures
            r.wf(),
            r.bridges().len() == 0,
    {
        Module { num_bridges: 0, records: Vec::new() }
    }

    /// The number of tracked bridges.
    pub fn num_bridges(&self) -> (r: BridgeId)
        ensures
            r == self.count(),
    {
        self.num_bridges
    }

    /// The record of bridge `id`, if it is tracked.
    pub fn tracked_bridges(&self, id: BridgeId) -> (r: Option<&BridgeInfo>)
        requires
            self.wf(),
        ensures
            1 <= id <= self.bridges().len() ==> r == Some(&self.bridges()[id - 1]),
            !(1 <= id <= self.bridges().len()) ==> r is None,
    {
        if id >= 1 && id <= self.records.len() as u64 {
            Some(&self.records[(id - 1) as usize])
        } else {
            None
        }
    }

    /// Starts tracking a remote chain from `block_header`, whose state holds
    /// `validator_set` as shown by `validator_set_proof`.
    pub fn initialize_bridge(
        &mut self,
        origin: Origin,
        block_header: Header,
        validator_set: Vec<(AuthorityId, ValidatorWeight)>,
        validator_set_proof: Vec<Vec<u8>>,
    ) -> (r: Result<(), Error>)
        requires
            old(self).wf(),
            old(self).count() < u64::MAX,
        ensures
            final(self).wf(),
            r == (if !(origin is Signed) {
                Err(Error::BadOrigin)
            } else if validator_set_proof_outcome(block_header.state_root@, nodes_view(validator_set_proof@), validator_set@) is Err {
                validator_set_proof_outcome(block_header.state_root@, nodes_view(validator_set_proof@), validator_set@)
            } else if !valid_validator_set(validator_set@) {
                Err(Error::InvalidValidatorSet)
            } else {
                Ok(())
            }),
            r is Err ==> *final(self) == *old(self),
            r is Ok ==> final(self).bridges() == old(self).bridges().push((BridgeInfo {
                last_finalized_block_number: block_header.number,
                last_finalized_block_hash: final(self).bridges().last().last_finalized_block_hash,
                last_finalized_state_root: block_header.state_root,
                current_validator_set: validator_set,
                current_set_id: 0,
            })),
            r is Ok ==> final(self).bridges().last().last_finalized_block_hash@ == header_hash(block_header),
    {
        let _sender = ensure_signed(origin)?;
        let block_number = block_header.number;
        let block_hash = block_header.hash();
        let state_root = block_header.state_root;
        check_validator_set_proof(&state_root, validator_set_proof, &validator_set)?;
        if !validator_set_is_valid(&validator_set) {
            return Err(Error::InvalidValidatorSet);
        }
        let bridge_info = BridgeInfo::new(&block_number, &block_hash, &state_root, validator_set);
        let new_bridge_id = self.num_bridges + 1;
        self.records.push(bridge_info);
        self.num_bridges = new_bridge_id;
        Ok(())
    }

    /// Advances bridge `bridge_id` to `header`, which `justification` proves final
    /// under the bridge's stored authority set and set id.
    pub fn submit_finalized_headers(
        &mut self,
        origin: Origin,
        bridge_id: BridgeId,
        header: Header,
        justification: &[u8],
    ) -> (r: Result<(), Error>)
        requires
            old(self).wf(),
        ensures
            final(self).wf(),
            submit_precheck(*old(self), origin, bridge_id, header) is Some
                ==> r == Err::<(), Error>(submit_precheck(*old(self), origin, bridge_id, header)->Some_0),
            r is Ok ==> submit_precheck(*old(self), origin, bridge_id, header) is None
                && change_error(*old(self), bridge_id, header) is None
                && exists|j: GrandpaJustification| #[trigger] finalizes_with(*old(self), bridge_id, header, justification@, j),
            submit_precheck(*old(self), origin, bridge_id, header) is None
                && change_error(*old(self), bridge_id, header) is None
                && (exists|j: GrandpaJustification| #[trigger] finalizes_with(*old(self), bridge_id, header, justification@, j))
                ==> r is Ok,
            r is Err ==> submit_precheck(*old(self), origin, bridge_id, header) is Some
                || r->Err_0 == Error::JustificationDecode
                || change_error(*old(self), bridge_id, header) == Some(r->Err_0)
                || exists|j: GrandpaJustification| #[trigger] decodes_to(justification@, j) && finalization(
                    j,
                    header_hash(header),
                    header.number,
                    old(self).bridges()[bridge_id - 1].current_set_id,
                    commit_valid(j, old(self).bridges()[bridge_id - 1].current_validator_set@),
                ) == Err::<(), Error>(r->Err_0),
            r is Err ==> *final(self) == *old(self),
            r is Ok ==> final(self).bridges().len() == old(self).bridges().len(),
            r is Ok ==> forall|i: int| 0 <= i < old(self).bridges().len() && i != bridge_id - 1
                ==> final(self).bridges()[i] == old(self).bridges()[i],
            r is Ok ==> final(self).bridges()[bridge_id - 1].last_finalized_block_number == header.number,
            r is Ok ==> final(self).bridges()[bridge_id - 1].last_finalized_block_hash@ == header_hash(header),
            r is Ok ==> final(self).bridges()[bridge_id - 1].last_finalized_state_root == header.state_root,
            r is Ok ==> match scheduled_change(header.digest@) {
                None => final(self).bridges()[bridge_id - 1].current_validator_set
                        == old(self).bridges()[bridge_id - 1].current_validator_set
                    && final(self).bridges()[bridge_id - 1].current_set_id
                        == old(self).bridges()[bridge_id - 1].current_set_id,
                Some(set) => final(self).bridges()[bridge_id - 1].current_validator_set@ == set
                    && final(self).bridges()[bridge_id - 1].current_set_id
                        == old(self).bridges()[bridge_id - 1].current_set_id + 1,
            },
            r is Ok ==> final(self).bridges()[bridge_id - 1].last_finalized_block_number
                > old(self).bridges()[bridge_id - 1].last_finalized_block_number,
    {
        let _sender = ensure_signed(origin)?;
        if bridge_id == 0 || bridge_id > self.records.len() as u64 {
            return Err(Error::UnknownBridge);
        }
        let idx: usize = (bridge_id - 1) as usize;
        if header.number <= self.records[idx].last_finalized_block_number {
            return Err(Error::StaleHeader);
        }
        let block_hash = header.hash();
        let set_id = self.records[idx].current_set_id;
        let verified = GrandpaJustification::decode_and_verify_finalizes(
            justification,
            (block_hash, header.number),
            set_id,
            &self.records[idx].current_validator_set,
        )?;
        assert(finalizes_with(*old(self), bridge_id, header, justification@, verified));
        let change = find_scheduled_change(&header.digest);
        if let Some(set) = &change {
            if !validator_set_is_valid(set) {
                return Err(Error::InvalidValidatorSet);
            }
            if set_id == u64::MAX {
                return Err(Error::SetIdOverflow);
            }
        }
        let ghost before = self.records@;
        let mut info = self.records.remove(idx);
        info.last_finalized_block_number = header.number;
        info.last_finalized_block_hash = block_hash;
        info.last_finalized_state_root = header.state_root;
        if let Some(set) = change {
            info.current_validator_set = set;
            info.current_set_id = set_id + 1;
        }
        self.records.insert(idx, info);
        assert(self.records@ =~= before.update(idx as int, info));
        assert(forall|i: int| 0 <= i < self.bridges().len() && i != idx ==> self.bridges()[i] == before[i]);
        Ok(())
    }
}

} // verus!
