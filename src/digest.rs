use vstd::prelude::*;
use crate::justification::AuthorityId;
use crate::bridge::authority_list_encoding;
use crate::primitives::DigestItem;
use crate::wire::decode_authority_list_prefix;

verus! {

/// The authority list whose encoding `b` starts with, if there is one; the
/// decoder shows that there is at most one.
pub open spec fn authority_list_decoding(b: Seq<u8>) -> Option<Seq<(AuthorityId, u64)>> {
    if exists|set: Seq<(AuthorityId, u64)>| #[trigger] authority_list_encoding(set).is_prefix_of(b) {
        Some(choose|set: Seq<(AuthorityId, u64)>| #[trigger] authority_list_encoding(set).is_prefix_of(b))
    } else {
        None
    }
}

fn decode_authority_list(b: &[u8]) -> (r: Option<Vec<(AuthorityId, u64)>>)
    ensures
        match authority_list_decoding(b@) {
            Some(v) => r is Some && r->Some_0@ == v,
            None => r is None,
        },
{
    let r = decode_authority_list_prefix(b);
    proof {
        if r is Some {
            let set = choose|set: Seq<(AuthorityId, u64)>| #[trigger] authority_list_encoding(set).is_prefix_of(b@);
            assert(authority_list_encoding(set).is_prefix_of(b@));
        }
    }
    r
}

/// The engine id of the finality gadget in consensus digest items.
pub open spec fn gadget_engine_id() -> Seq<u8> {
    seq![70u8, 82, 78, 75]
}

/// The authority set that a digest item schedules: a consensus item of the
/// finality gadget's engine whose payload is a scheduled change (tag 1)
/// starting with the next authority list.
pub open spec fn log_change(item: DigestItem) -> Option<Seq<(AuthorityId, u64)>> {
    match item {
        DigestItem::Consensus(engine, data) => if engine@ == gadget_engine_id() && data@.len() >= 1 && data@[0] == 1u8 {
            authority_list_decoding(data@.subrange(1, data@.len() as int))
        } else {
            None
        },
        _ => None,
    }
}

/// The first authority set change scheduled by the logs `i..`.
pub open spec fn change_from(logs: Seq<DigestItem>, i: int) -> Option<Seq<(AuthorityId, u64)>>
    decreases logs.len() - i,
{
    if i < 0 || i >= logs.len() {
        None
    } else {
        match log_change(logs[i]) {
            Some(set) => Some(set),
            None => change_from(logs, i + 1),
        }
    }
}

/// The first authority set change that a digest schedules.
pub open spec fn scheduled_change(logs: Seq<DigestItem>) -> Option<Seq<(AuthorityId, u64)>> {
    change_from(logs, 0)
}

fn log_scheduled_change(item: &DigestItem) -> (r: Option<Vec<(AuthorityId, u64)>>)
    ensures
        match log_change(*item) {
            Some(set) => r is Some && r->Some_0@ == set,
            None => r is None,
        },
{
    match item {
        DigestItem::Consensus(engine, data) => {
            if engine[0] != 70u8 || engine[1] != 82u8 || engine[2] != 78u8 || engine[3] != 75u8 {
                proof {
                    if engine@ == gadget_engine_id() {
                        assert(engine@[0] == 70u8 && engine@[1] == 82u8 && engine@[2] == 78u8 && engine@[3] == 75u8);
                    }
                }
                return None;
            }
            assert(engine@ =~= gadget_engine_id());
            if data.len() < 1 || data[0] != 1u8 {
                return None;
            }
            decode_authority_list(vstd::slice::slice_subrange(data.as_slice(), 1, data.len()))
        },
        _ => None,
    }
}

/// The first authority set change that the digest logs schedule, if any.
pub fn find_scheduled_change(logs: &Vec<DigestItem>) -> (r: Option<Vec<(AuthorityId, u64)>>)
    ensures
        match scheduled_change(logs@) {
            Some(set) => r is Some && r->Some_0@ == set,
            None => r is None,
        },
{
    let ghost views = logs@;
    let mut i: usize = 0;
    while i < logs.len()
        invariant
            0 <= i <= logs@.len(),
            views == logs@,
            change_from(views, 0) == change_from(views, i as int),
        decreases logs@.len() - i,
    {
        let found = log_scheduled_change(&logs[i]);
        if found.is_some() {
            return found;
        }
        i = i + 1;
    }
    None
}

} // verus!
