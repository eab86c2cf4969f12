use vstd::prelude::*;
use crate::error::Error;
use finality_grandpa::Error as GadgetError;
use crate::primitives::{BlockHash, Header, header_hash, hash_eq};

verus! {

/// Headers `proof[1..=k]` each hash to the parent hash of the header before them.
pub open spec fn linked_up_to(proof: Seq<Header>, k: int) -> bool {
    forall|j: int| 1 <= j <= k ==> header_hash(#[trigger] proof[j]) == proof[j - 1].parent_hash@
}

/// `proof` starts at the header hashing to `child` and, following parent hashes,
/// reaches a header whose parent hashes to `ancestor`.
pub open spec fn proves_ancestry(proof: Seq<Header>, ancestor: Seq<u8>, child: Seq<u8>) -> bool {
    &&& proof.len() > 0
    &&& header_hash(proof[0]) == child
    &&& exists|k: int| 1 <= k < proof.len() && linked_up_to(proof, k) && #[trigger] proof[k].parent_hash@ == ancestor
}

/// Checks that `child` descends from `ancestor` through the header chain `proof`,
/// given from the child downwards.
pub fn verify_ancestry(proof: Vec<Header>, ancestor: Header, child: Header) -> (r: Result<(), Error>)
    ensures
        r is Ok <==> proves_ancestry(proof@, header_hash(ancestor), header_hash(child)),
        r is Err ==> r == Err::<(), Error>(Error::AncestorNotFound),
{
    if proof.len() == 0 {
        return Err(Error::AncestorNotFound);
    }
    let child_hash = child.hash();
    let ancestor_hash = ancestor.hash();
    let first = proof[0].hash();
    if !hash_eq(&first, &child_hash) {
        return Err(Error::AncestorNotFound);
    }
    let mut parent_hash = proof[0].parent_hash;
    let mut i: usize = 1;
    while i < proof.len()
        invariant
            1 <= i <= proof.len(),
            header_hash(proof@[0]) == child_hash@,
            child_hash@ == header_hash(child),
            ancestor_hash@ == header_hash(ancestor),
            parent_hash == proof@[i - 1].parent_hash,
            linked_up_to(proof@, i - 1),
            forall|k: int| 1 <= k < i ==> #[trigger] proof@[k].parent_hash@ != ancestor_hash@,
        decreases proof.len() - i,
    {
        let curr = proof[i].hash();
        if !hash_eq(&curr, &parent_hash) {
            assert forall|k: int| 1 <= k < proof@.len() && linked_up_to(proof@, k)
                implies #[trigger] proof@[k].parent_hash@ != ancestor_hash@ by {
                if k >= i {
                    assert(header_hash(proof@[i as int]) == proof@[i - 1].parent_hash@);
                }
            }
            return Err(Error::AncestorNotFound);
        }
        parent_hash = proof[i].parent_hash;
        if hash_eq(&parent_hash, &ancestor_hash) {
            assert(linked_up_to(proof@, i as int));
            assert(proof@[i as int].parent_hash@ == header_hash(ancestor));
            return Ok(());
        }
        i = i + 1;
    }
    Err(Error::AncestorNotFound)
}

/// The finality gadget's error type.
#[verifier::external_type_specification]
#[verifier::external_body]
pub struct ExGadgetError(GadgetError);

/// The index seen by the finality gadget as its chain oracle.
impl finality_grandpa::Chain<BlockHash, u64> for AncestryChain {
    #[verifier::external_body]
    fn ancestry(&self, base: BlockHash, block: BlockHash) -> Result<Vec<BlockHash>, GadgetError> {
        AncestryChain::ancestry(self, &base, &block).ok_or(GadgetError::NotDescendent)
    }
}

/// The index that a list of (hash, parent hash) entries defines: a later entry
/// replaces an earlier one with the same hash.
pub open spec fn entries_map(s: Seq<(Seq<u8>, Seq<u8>)>) -> Map<Seq<u8>, Seq<u8>>
    decreases s.len(),
{
    if s.len() == 0 {
        Map::empty()
    } else {
        entries_map(s.drop_last()).insert(s.last().0, s.last().1)
    }
}

/// The index of a header list, from each header's hash to its parent hash.
pub open spec fn headers_index(headers: Seq<Header>) -> Map<Seq<u8>, Seq<u8>> {
    entries_map(ancestry_entries(headers))
}

/// Each header's hash with its parent hash, in order.
pub open spec fn ancestry_entries(headers: Seq<Header>) -> Seq<(Seq<u8>, Seq<u8>)> {
    headers.map_values(|h: Header| (header_hash(h), h.parent_hash@))
}

/// The route of parent hashes from `cur` down to `base`, `base` included,
/// taking at most `fuel` steps.
pub open spec fn route_to(index: Map<Seq<u8>, Seq<u8>>, base: Seq<u8>, cur: Seq<u8>, fuel: nat) -> Option<Seq<Seq<u8>>>
    decreases fuel,
{
    if cur == base {
        Some(Seq::empty())
    } else if fuel == 0 || !index.contains_key(cur) {
        None
    } else {
        match route_to(index, base, index[cur], (fuel - 1) as nat) {
            Some(r) => Some(seq![index[cur]] + r),
            None => None,
        }
    }
}

/// The index holds a key exactly when some entry carries it.
pub proof fn lemma_entries_map_keys(s: Seq<(Seq<u8>, Seq<u8>)>, x: Seq<u8>)
    ensures
        entries_map(s).contains_key(x) <==> exists|i: int| 0 <= i < s.len() && (#[trigger] s[i]).0 == x,
    decreases s.len(),
{
    if s.len() > 0 {
        lemma_entries_map_keys(s.drop_last(), x);
        if entries_map(s.drop_last()).contains_key(x) {
            let i = choose|i: int| 0 <= i < s.drop_last().len() && (#[trigger] s.drop_last()[i]).0 == x;
            assert(s[i].0 == x);
        }
        if exists|i: int| 0 <= i < s.len() && (#[trigger] s[i]).0 == x {
            let i = choose|i: int| 0 <= i < s.len() && (#[trigger] s[i]).0 == x;
            if i < s.len() - 1 {
                assert(s.drop_last()[i].0 == x);
            }
        }
    }
}

/// Dropping the only entry with a given key drops that key from the index.
pub proof fn lemma_entries_map_remove(s: Seq<(Seq<u8>, Seq<u8>)>, k: int)
    requires
        0 <= k < s.len(),
        forall|i: int| 0 <= i < s.len() && i != k ==> (#[trigger] s[i]).0 != s[k].0,
    ensures
        entries_map(s.remove(k)) == entries_map(s).remove(s[k].0),
    decreases s.len(),
{
    let key = s[k].0;
    if k == s.len() - 1 {
        assert(s.remove(k) =~= s.drop_last());
        lemma_entries_map_keys(s.drop_last(), key);
        if entries_map(s.drop_last()).contains_key(key) {
            let i = choose|i: int| 0 <= i < s.drop_last().len() && (#[trigger] s.drop_last()[i]).0 == key;
            assert(s[i].0 == key);
        }
        assert(entries_map(s.remove(k)) =~= entries_map(s).remove(key));
    } else {
        let t = s.drop_last();
        assert(t[k] == s[k]);
        assert forall|i: int| 0 <= i < t.len() && i != k implies (#[trigger] t[i]).0 != t[k].0 by {
            assert(t[i] == s[i]);
        }
        lemma_entries_map_remove(t, k);
        assert(s.remove(k).drop_last() =~= t.remove(k));
        assert(s.remove(k).last() == s.last());
        assert(s.last().0 != key) by {
            assert(s[s.len() - 1].0 != key);
        }
        assert(entries_map(s.remove(k)) =~= entries_map(s).remove(key));
    }
}

/// A walk ends at the first time it meets the base: the base is not inside a route.
pub proof fn lemma_base_not_inside_route(index: Map<Seq<u8>, Seq<u8>>, base: Seq<u8>, cur: Seq<u8>, fuel: nat)
    requires
        route_to(index, base, cur, fuel) is Some,
    ensures
        !without_base(route_to(index, base, cur, fuel)->Some_0).contains(base),
    decreases fuel,
{
    if cur != base {
        let next = index[cur];
        let rest = route_to(index, base, next, (fuel - 1) as nat)->Some_0;
        lemma_base_not_inside_route(index, base, next, (fuel - 1) as nat);
        let r = seq![next] + rest;
        if rest.len() == 0 {
            assert(without_base(r) =~= Seq::<Seq<u8>>::empty());
        } else {
            assert(next != base);
            assert(without_base(r) =~= seq![next] + without_base(rest));
            if without_base(r).contains(base) {
                let i = choose|i: int| 0 <= i < without_base(r).len() && without_base(r)[i] == base;
                assert(i > 0);
                assert(without_base(rest)[i - 1] == base);
            }
        }
    }
}

/// A walk that passes through `k`, other than at the base, fails once `k` is
/// taken out of the index, whatever the fuel.
pub proof fn lemma_route_needs_key(
    index: Map<Seq<u8>, Seq<u8>>,
    base: Seq<u8>,
    cur: Seq<u8>,
    fuel: nat,
    k: Seq<u8>,
    fuel2: nat,
)
    requires
        route_to(index, base, cur, fuel) is Some,
        k == cur || without_base(route_to(index, base, cur, fuel)->Some_0).contains(k),
        k != base,
    ensures
        route_to(index.remove(k), base, cur, fuel2) is None,
    decreases fuel,
{
    if cur == base {
        assert(without_base(route_to(index, base, cur, fuel)->Some_0) =~= Seq::<Seq<u8>>::empty());
    } else if cur != k && fuel2 > 0 {
        let next = index[cur];
        let rest = route_to(index, base, next, (fuel - 1) as nat)->Some_0;
        let r = seq![next] + rest;
        if rest.len() == 0 {
            assert(without_base(r) =~= Seq::<Seq<u8>>::empty());
        } else {
            assert(without_base(r) =~= seq![next] + without_base(rest));
            if k != next {
                let i = choose|i: int| 0 <= i < without_base(r).len() && without_base(r)[i] == k;
                assert(without_base(rest)[i - 1] == k);
            }
        }
        lemma_route_needs_key(index, base, next, (fuel - 1) as nat, k, (fuel2 - 1) as nat);
        assert(index.remove(k)[cur] == next);
    }
}

/// A route found in an index stays the same in any larger index that agrees with
/// it, with at least as much fuel.
pub proof fn lemma_route_extends(
    index: Map<Seq<u8>, Seq<u8>>,
    index2: Map<Seq<u8>, Seq<u8>>,
    base: Seq<u8>,
    cur: Seq<u8>,
    fuel: nat,
    fuel2: nat,
)
    requires
        route_to(index, base, cur, fuel) is Some,
        fuel <= fuel2,
        forall|x: Seq<u8>| #[trigger] index.contains_key(x) ==> index2.contains_key(x) && index2[x] == index[x],
    ensures
        route_to(index2, base, cur, fuel2) == route_to(index, base, cur, fuel),
    decreases fuel,
{
    if cur != base {
        assert(index.contains_key(cur));
        lemma_route_extends(index, index2, base, index[cur], (fuel - 1) as nat, (fuel2 - 1) as nat);
    }
}

/// A route without its last element, the base.
pub open spec fn without_base(r: Seq<Seq<u8>>) -> Seq<Seq<u8>> {
    if r.len() == 0 { r } else { r.drop_last() }
}

/// An index of headers by hash that answers ancestry queries. A walk takes at most
/// as many steps as there are entries, which bounds the work by the input size.
pub struct AncestryChain {
    entries: Vec<(BlockHash, BlockHash)>,
}

pub open spec fn entries_view(e: Seq<(BlockHash, BlockHash)>) -> Seq<(Seq<u8>, Seq<u8>)> {
    e.map_values(|p: (BlockHash, BlockHash)| (p.0@, p.1@))
}

impl AncestryChain {
    pub closed spec fn view(&self) -> Map<Seq<u8>, Seq<u8>> {
        entries_map(entries_view(self.entries@))
    }

    pub closed spec fn max_steps(&self) -> nat {
        self.entries@.len()
    }

    /// Indexes the given headers by their hash.
    pub fn new(ancestry: &[Header]) -> (r: AncestryChain)
        ensures
            r@ == headers_index(ancestry@),
            r.max_steps() == ancestry@.len(),
    {
        let mut entries: Vec<(BlockHash, BlockHash)> = Vec::new();
        let mut i: usize = 0;
        while i < ancestry.len()
            invariant
                0 <= i <= ancestry@.len(),
                entries@.len() == i,
                forall|j: int| 0 <= j < i ==> (#[trigger] entries@[j]).0@ == header_hash(ancestry@[j])
                    && entries@[j].1 == ancestry@[j].parent_hash,
            decreases ancestry@.len() - i,
        {
            let h = ancestry[i].hash();
            entries.push((h, ancestry[i].parent_hash));
            i = i + 1;
        }
        assert(entries_view(entries@) =~= ancestry@.map_values(|h: Header| (header_hash(h), h.parent_hash@)));
        AncestryChain { entries }
    }

    /// The parent hash recorded for `hash`, if any.
    fn parent_of(&self, hash: &BlockHash) -> (r: Option<BlockHash>)
        ensures
            r is Some <==> self@.contains_key(hash@),
            r is Some ==> r->Some_0@ == self@[hash@],
    {
        let ghost s = entries_view(self.entries@);
        let mut i: usize = self.entries.len();
        assert(s.subrange(0, i as int) =~= s);
        while i > 0
            invariant
                0 <= i <= self.entries@.len(),
                s == entries_view(self.entries@),
                entries_map(s.subrange(0, i as int)).contains_key(hash@) == entries_map(s).contains_key(hash@),
                entries_map(s.subrange(0, i as int)).contains_key(hash@)
                    ==> entries_map(s.subrange(0, i as int))[hash@] == entries_map(s)[hash@],
            decreases i,
        {
            assert(s.subrange(0, i as int).drop_last() =~= s.subrange(0, i - 1));
            if hash_eq(&self.entries[i - 1].0, hash) {
                return Some(self.entries[i - 1].1);
            }
            i = i - 1;
        }
        assert(s.subrange(0, 0) =~= Seq::<(Seq<u8>, Seq<u8>)>::empty());
        None
    }

    /// The hashes between `block` and its ancestor `base`, both left out, from the
    /// parent of `block` downwards; `None` where the index does not link them.
    pub fn ancestry(&self, base: &BlockHash, block: &BlockHash) -> (r: Option<Vec<BlockHash>>)
        ensures
            match route_to(self@, base@, block@, self.max_steps()) {
                Some(route) => r is Some && r->Some_0@.map_values(|h: BlockHash| h@) == without_base(route),
                None => r is None,
            },
    {
        let mut route: Vec<BlockHash> = Vec::new();
        let mut current: BlockHash = *block;
        let mut fuel: usize = self.entries.len();
        let ghost total = route_to(self@, base@, block@, self.max_steps());
        while !hash_eq(&current, base)
            invariant
                fuel <= self.max_steps(),
                total == route_to(self@, base@, block@, self.max_steps()),
                total == match route_to(self@, base@, current@, fuel as nat) {
                    Some(rest) => Some(route@.map_values(|h: BlockHash| h@) + rest),
                    None => None::<Seq<Seq<u8>>>,
                },
            decreases fuel,
        {
            if fuel == 0 {
                return None;
            }
            match self.parent_of(&current) {
                Some(p) => {
                    let ghost old_route = route@;
                    route.push(p);
                    assert(route@.map_values(|h: BlockHash| h@) =~= old_route.map_values(|h: BlockHash| h@) + seq![p@]);
                    proof {
                        let rest = route_to(self@, base@, p@, (fuel - 1) as nat);
                        if let Some(rr) = rest {
                            assert(seq![p@] + rr == seq![self@[current@]] + rr);
                            assert(old_route.map_values(|h: BlockHash| h@) + (seq![p@] + rr)
                                =~= (old_route.map_values(|h: BlockHash| h@) + seq![p@]) + rr);
                        }
                    }
                    current = p;
                    fuel = fuel - 1;
                },
                None => {
                    return None;
                },
            }
        }
        assert(route@.map_values(|h: BlockHash| h@) + Seq::<Seq<u8>>::empty() =~= route@.map_values(|h: BlockHash| h@));
        let ghost before = route@;
        if route.len() > 0 {
            route.pop();
            assert(route@.map_values(|h: BlockHash| h@) =~= before.map_values(|h: BlockHash| h@).drop_last());
        }
        Some(route)
    }

    /// This index is no chain oracle: it never names a best chain.
    pub fn best_chain_containing(&self, block: &BlockHash) -> (r: Option<(BlockHash, u64)>)
        ensures
            r is None,
    {
        None
    }
}

} // verus!
