use vstd::prelude::*;
use parity_scale_codec::{Compact, Decode};
use crate::bridge::{authorities_encoding, authority_encoding, authority_list_encoding};
use crate::justification::{
    AuthorityId,
    AuthoritySignature, Commit, GrandpaJustification, Precommit, SignedPrecommit, le_bytes,
};
use crate::primitives::{
    DigestItem, Header, byte_string_encoding, compact_encoding, digest_item_encoding,
    digest_items_encoding, encode_compact, header_encoding,
};

verus! {

/// Relies on parity_scale_codec's Decode for `u64`: eight little-endian bytes.
#[verifier::external_body]
fn decode_u64(b: &[u8]) -> (r: Option<u64>)
    ensures
        r is Some <==> b@.len() >= 8,
        r is Some ==> b@.subrange(0, 8) == le_bytes(r->Some_0 as nat, 8),
        forall|x: u64| #[trigger] le_bytes(x as nat, 8).is_prefix_of(b@) ==> r == Some(x),
{
    u64::decode(&mut &b[..]).ok()
}

/// Relies on parity_scale_codec's Decode for `Compact<u64>`, which accepts
/// exactly the canonical encodings: the input starts with the encoding of the
/// result, and an input that starts with the encoding of `n` gives `n`.
#[verifier::external_body]
fn decode_compact(b: &[u8]) -> (r: Option<u64>)
    ensures
        r is Some ==> compact_encoding(r->Some_0).is_prefix_of(b@),
        forall|n: u64| #[trigger] compact_encoding(n).is_prefix_of(b@) ==> r == Some(n),
{
    <Compact<u64>>::decode(&mut &b[..]).ok().map(|c| c.0)
}

/// The encoding of a signed precommit: target hash, target number, signer, signature.
pub open spec fn signed_precommit_encoding(sp: SignedPrecommit) -> Seq<u8> {
    sp.precommit.target_hash@ + le_bytes(sp.precommit.target_number as nat, 8) + sp.id@ + sp.signature@
}

/// The encodings of `s`, one after another.
pub open spec fn precommits_encoding(s: Seq<SignedPrecommit>) -> Seq<u8>
    decreases s.len(),
{
    if s.len() == 0 {
        Seq::empty()
    } else {
        precommits_encoding(s.drop_last()) + signed_precommit_encoding(s.last())
    }
}

/// The encodings of `s`, one after another.
pub open spec fn headers_encoding(s: Seq<Header>) -> Seq<u8>
    decreases s.len(),
{
    if s.len() == 0 {
        Seq::empty()
    } else {
        headers_encoding(s.drop_last()) + header_encoding(s.last())
    }
}

/// The wire encoding of a justification: round, commit target hash and number,
/// the signed precommits as a counted list, then the headers as a counted list.
pub open spec fn justification_encoding(j: GrandpaJustification) -> Seq<u8> {
    le_bytes(j.round as nat, 8) + j.commit.target_hash@ + le_bytes(j.commit.target_number as nat, 8)
        + compact_encoding(j.commit.precommits@.len() as u64) + precommits_encoding(j.commit.precommits@)
        + compact_encoding(j.votes_ancestries@.len() as u64) + headers_encoding(j.votes_ancestries@)
}

/// Whether `b` starts with the encoding of `j`.
pub open spec fn decodes_to(b: Seq<u8>, j: GrandpaJustification) -> bool {
    justification_encoding(j).is_prefix_of(b)
}

/// What a reader returns: the value and the position after it, where the bytes
/// between the two positions are `enc`.
pub open spec fn read_ok(b: Seq<u8>, pos: int, end: int, enc: Seq<u8>) -> bool {
    0 <= pos <= end <= b.len() && b.subrange(pos, end) == enc
}

/// `e` stands in `b` at `pos`.
pub open spec fn at(b: Seq<u8>, pos: int, e: Seq<u8>) -> bool {
    0 <= pos && pos + e.len() <= b.len() && b.subrange(pos, pos + e.len()) == e
}

proof fn lemma_at_split(b: Seq<u8>, pos: int, e1: Seq<u8>, e2: Seq<u8>)
    requires
        at(b, pos, e1 + e2),
    ensures
        at(b, pos, e1),
        at(b, pos + e1.len(), e2),
{
    assert(b.subrange(pos, pos + e1.len()) =~= (e1 + e2).subrange(0, e1.len() as int));
    assert(b.subrange(pos + e1.len(), pos + e1.len() + e2.len()) =~= (e1 + e2).subrange(e1.len() as int, (e1 + e2).len() as int));
    assert((e1 + e2).subrange(0, e1.len() as int) =~= e1);
    assert((e1 + e2).subrange(e1.len() as int, (e1 + e2).len() as int) =~= e2);
}

proof fn lemma_at_prefix(b: Seq<u8>, pos: int, e: Seq<u8>)
    requires
        at(b, pos, e),
    ensures
        e.is_prefix_of(b.subrange(pos, b.len() as int)),
{
    assert(b.subrange(pos, b.len() as int).subrange(0, e.len() as int) =~= b.subrange(pos, pos + e.len()));
}

proof fn lemma_read_ok_at(b: Seq<u8>, pos: int, end: int, e: Seq<u8>)
    requires
        read_ok(b, pos, end, e),
    ensures
        at(b, pos, e),
        end == pos + e.len(),
{
}

pub proof fn lemma_le_bytes_len(x: nat, n: nat)
    ensures
        le_bytes(x, n).len() == n,
    decreases n,
{
    if n > 0 {
        lemma_le_bytes_len(x / 256, (n - 1) as nat);
    }
}

fn read_array<const N: usize>(b: &[u8], pos: usize) -> (r: Option<([u8; N], usize)>)
    requires
        pos <= b@.len(),
    ensures
        r is Some ==> read_ok(b@, pos as int, r->Some_0.1 as int, r->Some_0.0@),
        forall|v: [u8; N]| #[trigger] at(b@, pos as int, v@) ==> r == Some((v, (pos + N) as usize)),
{
    if N > b.len() - pos {
        return None;
    }
    let mut a: [u8; N] = vstd::array::array_fill_for_copy_types(0u8);
    let mut i: usize = 0;
    let len = b.len();
    while i < N
        invariant
            0 <= i <= N,
            b@.len() == len,
            pos + N <= b@.len(),
            a@.len() == N,
            forall|k: int| 0 <= k < i ==> a@[k] == b@[pos + k],
        decreases N - i,
    {
        a.set(i, b[pos + i]);
        i = i + 1;
    }
    assert(a@ =~= b@.subrange(pos as int, pos + N));
    assert forall|v: [u8; N]| #[trigger] at(b@, pos as int, v@) implies a == v by {
        assert forall|k: int| 0 <= k < N implies a[k] == v[k] by {
            assert(a@[k] == v@[k]);
        }
        assert(a =~= v);
    }
    Some((a, pos + N))
}

fn read_u64(b: &[u8], pos: usize) -> (r: Option<(u64, usize)>)
    requires
        pos <= b@.len(),
    ensures
        r is Some ==> read_ok(b@, pos as int, r->Some_0.1 as int, le_bytes(r->Some_0.0 as nat, 8)),
        forall|x: u64| #[trigger] at(b@, pos as int, le_bytes(x as nat, 8)) ==> r == Some((x, (pos + 8) as usize)),
{
    let rest = vstd::slice::slice_subrange(b, pos, b.len());
    assert forall|x: u64| #[trigger] at(b@, pos as int, le_bytes(x as nat, 8))
        implies le_bytes(x as nat, 8).is_prefix_of(rest@) by {
        lemma_at_prefix(b@, pos as int, le_bytes(x as nat, 8));
    }
    let x = decode_u64(rest)?;
    proof {
        lemma_le_bytes_len(x as nat, 8);
        assert forall|y: u64| #[trigger] at(b@, pos as int, le_bytes(y as nat, 8)) implies y == x by {
            lemma_le_bytes_len(y as nat, 8);
        }
    }
    assert(b@.subrange(pos as int, pos + 8) =~= rest@.subrange(0, 8));
    Some((x, pos + 8))
}

fn read_compact(b: &[u8], pos: usize) -> (r: Option<(u64, usize)>)
    requires
        pos <= b@.len(),
    ensures
        r is Some ==> read_ok(b@, pos as int, r->Some_0.1 as int, compact_encoding(r->Some_0.0)),
        forall|m: u64| #[trigger] at(b@, pos as int, compact_encoding(m))
            ==> r == Some((m, (pos + compact_encoding(m).len()) as usize)),
{
    let rest = vstd::slice::slice_subrange(b, pos, b.len());
    assert forall|m: u64| #[trigger] at(b@, pos as int, compact_encoding(m))
        implies compact_encoding(m).is_prefix_of(rest@) by {
        lemma_at_prefix(b@, pos as int, compact_encoding(m));
    }
    let n = decode_compact(rest)?;
    let enc = encode_compact(n);
    assert(b@.subrange(pos as int, pos + enc@.len()) =~= rest@.subrange(0, enc@.len() as int));
    Some((n, pos + enc.len()))
}

proof fn lemma_join(b: Seq<u8>, p0: int, p1: int, p2: int, e1: Seq<u8>, e2: Seq<u8>)
    requires
        read_ok(b, p0, p1, e1),
        read_ok(b, p1, p2, e2),
    ensures
        read_ok(b, p0, p2, e1 + e2),
{
    assert(b.subrange(p0, p2) =~= b.subrange(p0, p1) + b.subrange(p1, p2));
}

fn read_byte_string(b: &[u8], pos: usize) -> (r: Option<(Vec<u8>, usize)>)
    requires
        pos <= b@.len(),
    ensures
        r is Some ==> read_ok(b@, pos as int, r->Some_0.1 as int, byte_string_encoding(r->Some_0.0@)),
        forall|d: Seq<u8>| #[trigger] at(b@, pos as int, byte_string_encoding(d))
            ==> r is Some && r->Some_0.0@ == d && r->Some_0.1 == pos + byte_string_encoding(d).len(),
{
    let (n, p1) = match read_compact(b, pos) {
        Some(x) => x,
        None => {
            proof {
                assert forall|d: Seq<u8>| #[trigger] at(b@, pos as int, byte_string_encoding(d)) implies false by {
                    lemma_at_split(b@, pos as int, compact_encoding(d.len() as u64), d);
                }
            }
            return None;
        },
    };
    let len0 = b.len();
    proof {
        assert forall|d: Seq<u8>| #[trigger] at(b@, pos as int, byte_string_encoding(d))
            implies n == d.len() && p1 == pos + compact_encoding(d.len() as u64).len() && at(b@, p1 as int, d) by {
            lemma_at_split(b@, pos as int, compact_encoding(d.len() as u64), d);
        }
    }
    if n > (b.len() - p1) as u64 {
        return None;
    }
    let mut out: Vec<u8> = Vec::new();
    let mut i: usize = 0;
    let len = b.len();
    let count: usize = n as usize;
    while i < count
        invariant
            0 <= i <= n,
            count == n,
            b@.len() == len,
            p1 + n <= b@.len(),
            out@ == b@.subrange(p1 as int, p1 + i),
        decreases n - i,
    {
        out.push(b[p1 + i]);
        assert(b@.subrange(p1 as int, p1 + i + 1) =~= b@.subrange(p1 as int, p1 + i).push(b@[p1 + i]));
        i = i + 1;
    }
    assert(out@.len() == n);
    proof {
        lemma_join(b@, pos as int, p1 as int, p1 + n, compact_encoding(n), out@);
    }
    Some((out, p1 + count))
}

fn read_digest_item(b: &[u8], pos: usize) -> (r: Option<(DigestItem, usize)>)
    requires
        pos <= b@.len(),
    ensures
        r is Some ==> read_ok(b@, pos as int, r->Some_0.1 as int, digest_item_encoding(r->Some_0.0)),
        forall|v: DigestItem| #[trigger] at(b@, pos as int, digest_item_encoding(v))
            ==> r is Some && digest_item_encoding(r->Some_0.0) == digest_item_encoding(v)
                && r->Some_0.1 == pos + digest_item_encoding(v).len(),
{
    if pos >= b.len() {
        return None;
    }
    let tag = b[pos];
    let p0 = pos + 1;
    assert(b@.subrange(pos as int, p0 as int) =~= seq![tag]);
    proof {
        assert forall|v: DigestItem| #[trigger] at(b@, pos as int, digest_item_encoding(v)) implies
            b@[pos as int] == digest_item_encoding(v)[0] by {
            assert(b@.subrange(pos as int, pos + digest_item_encoding(v).len())[0] == b@[pos as int]);
        }
    }
    if tag == 0u8 {
        let r = read_byte_string(b, p0);
        proof {
            assert forall|v: DigestItem| #[trigger] at(b@, pos as int, digest_item_encoding(v)) implies
                v is Other && at(b@, p0 as int, byte_string_encoding(v->Other_0@)) by {
                assert(seq![digest_item_encoding(v)[0]] + digest_item_encoding(v).subrange(1, digest_item_encoding(v).len() as int) =~= digest_item_encoding(v));
                lemma_at_split(b@, pos as int, seq![digest_item_encoding(v)[0]], digest_item_encoding(v).subrange(1, digest_item_encoding(v).len() as int));
                if let DigestItem::Other(d) = v {
                    assert(digest_item_encoding(v).subrange(1, digest_item_encoding(v).len() as int) =~= byte_string_encoding(d@));
                }
            }
        }
        let (d, p1) = r?;
        proof { lemma_join(b@, pos as int, p0 as int, p1 as int, seq![tag], byte_string_encoding(d@)); }
        Some((DigestItem::Other(d), p1))
    } else if tag == 4u8 || tag == 5u8 || tag == 6u8 {
        let ghost tail = |v: DigestItem| digest_item_encoding(v).subrange(1, digest_item_encoding(v).len() as int);
        proof {
            assert forall|v: DigestItem| #[trigger] at(b@, pos as int, digest_item_encoding(v)) implies
                match v {
                    DigestItem::Consensus(e, d) => tag == 4u8 && at(b@, p0 as int, e@) && at(b@, p0 + 4, byte_string_encoding(d@)),
                    DigestItem::Seal(e, d) => tag == 5u8 && at(b@, p0 as int, e@) && at(b@, p0 + 4, byte_string_encoding(d@)),
                    DigestItem::PreRuntime(e, d) => tag == 6u8 && at(b@, p0 as int, e@) && at(b@, p0 + 4, byte_string_encoding(d@)),
                    _ => false,
                } by {
                assert(seq![digest_item_encoding(v)[0]] + tail(v) =~= digest_item_encoding(v));
                lemma_at_split(b@, pos as int, seq![digest_item_encoding(v)[0]], tail(v));
                match v {
                    DigestItem::Consensus(e, d) => {
                        assert(tail(v) =~= e@ + byte_string_encoding(d@));
                        lemma_at_split(b@, p0 as int, e@, byte_string_encoding(d@));
                    },
                    DigestItem::Seal(e, d) => {
                        assert(tail(v) =~= e@ + byte_string_encoding(d@));
                        lemma_at_split(b@, p0 as int, e@, byte_string_encoding(d@));
                    },
                    DigestItem::PreRuntime(e, d) => {
                        assert(tail(v) =~= e@ + byte_string_encoding(d@));
                        lemma_at_split(b@, p0 as int, e@, byte_string_encoding(d@));
                    },
                    _ => {},
                }
            }
        }
        let (e, p1) = read_array::<4>(b, p0)?;
        let (d, p2) = read_byte_string(b, p1)?;
        proof {
            lemma_join(b@, pos as int, p0 as int, p1 as int, seq![tag], e@);
            lemma_join(b@, pos as int, p1 as int, p2 as int, seq![tag] + e@, byte_string_encoding(d@));
        }
        if tag == 4u8 {
            Some((DigestItem::Consensus(e, d), p2))
        } else if tag == 5u8 {
            Some((DigestItem::Seal(e, d), p2))
        } else {
            Some((DigestItem::PreRuntime(e, d), p2))
        }
    } else if tag == 8u8 {
        assert forall|v: DigestItem| #[trigger] at(b@, pos as int, digest_item_encoding(v)) implies
            v is RuntimeEnvironmentUpdated by {}
        Some((DigestItem::RuntimeEnvironmentUpdated, p0))
    } else {
        None
    }
}

/// Two headers agree in every field that their encoding fixes.
pub open spec fn same_header(h1: Header, h2: Header) -> bool {
    &&& h1.parent_hash == h2.parent_hash
    &&& h1.number == h2.number
    &&& h1.state_root == h2.state_root
    &&& h1.extrinsics_root == h2.extrinsics_root
    &&& header_encoding(h1) == header_encoding(h2)
}

proof fn lemma_items_split(s: Seq<DigestItem>, i: int)
    requires
        0 <= i <= s.len(),
    ensures
        digest_items_encoding(s) == digest_items_encoding(s.subrange(0, i)) + digest_items_encoding(s.subrange(i, s.len() as int)),
    decreases s.len(),
{
    if i == s.len() {
        assert(s.subrange(0, i) =~= s);
        assert(s.subrange(i, s.len() as int) =~= Seq::<DigestItem>::empty());
        assert(digest_items_encoding(s) + Seq::<u8>::empty() =~= digest_items_encoding(s));
    } else {
        lemma_items_split(s.drop_last(), i);
        assert(s.drop_last().subrange(0, i) =~= s.subrange(0, i));
        let t = s.subrange(i, s.len() as int);
        assert(t.drop_last() =~= s.drop_last().subrange(i, s.drop_last().len() as int));
        assert(t.last() == s.last());
        assert(digest_items_encoding(s.subrange(0, i)) + digest_items_encoding(t.drop_last()) + digest_item_encoding(s.last())
            =~= digest_items_encoding(s.subrange(0, i)) + (digest_items_encoding(t.drop_last()) + digest_item_encoding(s.last())));
    }
}

proof fn lemma_items_front(s: Seq<DigestItem>, i: int)
    requires
        0 <= i < s.len(),
    ensures
        digest_items_encoding(s.subrange(i, s.len() as int))
            == digest_item_encoding(s[i]) + digest_items_encoding(s.subrange(i + 1, s.len() as int)),
{
    let t = s.subrange(i, s.len() as int);
    lemma_items_split(t, 1);
    assert(t.subrange(0, 1) =~= seq![s[i]]);
    assert(seq![s[i]].drop_last() =~= Seq::<DigestItem>::empty());
    assert(digest_items_encoding(seq![s[i]]) == digest_items_encoding(seq![s[i]].drop_last()) + digest_item_encoding(s[i]));
    assert(digest_items_encoding(Seq::<DigestItem>::empty()) == Seq::<u8>::empty());
    assert(Seq::<u8>::empty() + digest_item_encoding(s[i]) =~= digest_item_encoding(s[i]));
    assert(t.subrange(1, t.len() as int) =~= s.subrange(i + 1, s.len() as int));
}

proof fn lemma_items_len(s: Seq<DigestItem>)
    ensures
        digest_items_encoding(s).len() >= s.len(),
    decreases s.len(),
{
    if s.len() > 0 {
        lemma_items_len(s.drop_last());
    }
}

fn read_header(b: &[u8], pos: usize) -> (r: Option<(Header, usize)>)
    requires
        pos <= b@.len(),
    ensures
        r is Some ==> read_ok(b@, pos as int, r->Some_0.1 as int, header_encoding(r->Some_0.0)),
        forall|v: Header| #[trigger] at(b@, pos as int, header_encoding(v))
            ==> r is Some && same_header(r->Some_0.0, v) && r->Some_0.1 == pos + header_encoding(v).len(),
{
    proof {
        assert forall|v: Header| #[trigger] at(b@, pos as int, header_encoding(v)) implies {
            let e1 = v.parent_hash@;
            let e2 = e1 + compact_encoding(v.number);
            let e3 = e2 + v.state_root@;
            let e4 = e3 + v.extrinsics_root@;
            let e5 = e4 + compact_encoding(v.digest@.len() as u64);
            &&& at(b@, pos as int, e1)
            &&& at(b@, pos + e1.len(), compact_encoding(v.number))
            &&& at(b@, pos + e2.len(), v.state_root@)
            &&& at(b@, pos + e3.len(), v.extrinsics_root@)
            &&& at(b@, pos + e4.len(), compact_encoding(v.digest@.len() as u64))
            &&& at(b@, pos + e5.len(), digest_items_encoding(v.digest@))
        } by {
            let e1 = v.parent_hash@;
            let e2 = e1 + compact_encoding(v.number);
            let e3 = e2 + v.state_root@;
            let e4 = e3 + v.extrinsics_root@;
            let e5 = e4 + compact_encoding(v.digest@.len() as u64);
            lemma_at_split(b@, pos as int, e5, digest_items_encoding(v.digest@));
            lemma_at_split(b@, pos as int, e4, compact_encoding(v.digest@.len() as u64));
            lemma_at_split(b@, pos as int, e3, v.extrinsics_root@);
            lemma_at_split(b@, pos as int, e2, v.state_root@);
            lemma_at_split(b@, pos as int, e1, compact_encoding(v.number));
        }
    }
    let (parent_hash, p1) = read_array::<32>(b, pos)?;
    let (number, p2) = read_compact(b, p1)?;
    let (state_root, p3) = read_array::<32>(b, p2)?;
    let (extrinsics_root, p4) = read_array::<32>(b, p3)?;
    let (count, p5) = read_compact(b, p4)?;
    proof {
        lemma_join(b@, pos as int, p1 as int, p2 as int, parent_hash@, compact_encoding(number));
        lemma_join(b@, pos as int, p2 as int, p3 as int, parent_hash@ + compact_encoding(number), state_root@);
        lemma_join(b@, pos as int, p3 as int, p4 as int, parent_hash@ + compact_encoding(number) + state_root@, extrinsics_root@);
        lemma_join(b@, pos as int, p4 as int, p5 as int,
            parent_hash@ + compact_encoding(number) + state_root@ + extrinsics_root@, compact_encoding(count));
    }
    let ghost head = parent_hash@ + compact_encoding(number) + state_root@ + extrinsics_root@ + compact_encoding(count);
    let len0 = b.len();
    proof {
        assert forall|v: Header| #[trigger] at(b@, pos as int, header_encoding(v)) implies
            v.parent_hash == parent_hash && v.number == number && v.state_root == state_root
            && v.extrinsics_root == extrinsics_root && v.digest@.len() == count
            && at(b@, p5 as int, digest_items_encoding(v.digest@.subrange(0, v.digest@.len() as int))) by {
            assert(v.digest@.subrange(0, v.digest@.len() as int) =~= v.digest@);
            lemma_items_len(v.digest@);
            assert(v.digest@.len() <= len0);
        }
    }
    let mut digest: Vec<DigestItem> = Vec::new();
    let mut p: usize = p5;
    let mut i: u64 = 0;
    while i < count
        invariant
            0 <= i <= count,
            digest@.len() == i,
            pos <= p5 <= p <= b@.len(),
            read_ok(b@, pos as int, p as int, head + digest_items_encoding(digest@)),
            forall|v: Header| #[trigger] at(b@, pos as int, header_encoding(v)) ==>
                v.parent_hash == parent_hash && v.number == number && v.state_root == state_root
                && v.extrinsics_root == extrinsics_root && v.digest@.len() == count
                && digest_items_encoding(digest@) == digest_items_encoding(v.digest@.subrange(0, i as int))
                && at(b@, p as int, digest_items_encoding(v.digest@.subrange(i as int, v.digest@.len() as int))),
        decreases count - i,
    {
        proof {
            assert forall|v: Header| #[trigger] at(b@, pos as int, header_encoding(v)) implies
                at(b@, p as int, digest_item_encoding(v.digest@[i as int]))
                && at(b@, p + digest_item_encoding(v.digest@[i as int]).len(), digest_items_encoding(v.digest@.subrange(i + 1, v.digest@.len() as int))) by {
                lemma_items_front(v.digest@, i as int);
                lemma_at_split(b@, p as int, digest_item_encoding(v.digest@[i as int]), digest_items_encoding(v.digest@.subrange(i + 1, v.digest@.len() as int)));
            }
        }
        let (item, q) = read_digest_item(b, p)?;
        let ghost before = digest@;
        digest.push(item);
        proof {
            lemma_join(b@, pos as int, p as int, q as int, head + digest_items_encoding(before), digest_item_encoding(item));
            assert(digest@.drop_last() =~= before);
            assert(head + digest_items_encoding(before) + digest_item_encoding(item) =~= head + digest_items_encoding(digest@));
            assert forall|v: Header| #[trigger] at(b@, pos as int, header_encoding(v)) implies
                digest_items_encoding(digest@) == digest_items_encoding(v.digest@.subrange(0, i + 1))
                && at(b@, q as int, digest_items_encoding(v.digest@.subrange(i + 1, v.digest@.len() as int))) by {
                assert(v.digest@.subrange(0, i + 1).drop_last() =~= v.digest@.subrange(0, i as int));
                assert(v.digest@.subrange(0, i + 1).last() == v.digest@[i as int]);
            }
        }
        p = q;
        i = i + 1;
    }
    let h = Header { parent_hash, number, state_root, extrinsics_root, digest };
    assert(head + digest_items_encoding(h.digest@) =~= header_encoding(h));
    proof {
        assert forall|v: Header| #[trigger] at(b@, pos as int, header_encoding(v)) implies
            same_header(h, v) && p == pos + header_encoding(v).len() by {
            assert(v.digest@.subrange(0, v.digest@.len() as int) =~= v.digest@);
            assert(header_encoding(h) =~= header_encoding(v));
            lemma_read_ok_at(b@, pos as int, p as int, header_encoding(h));
        }
    }
    Some((h, p))
}

fn read_signed_precommit(b: &[u8], pos: usize) -> (r: Option<(SignedPrecommit, usize)>)
    requires
        pos <= b@.len(),
    ensures
        r is Some ==> read_ok(b@, pos as int, r->Some_0.1 as int, signed_precommit_encoding(r->Some_0.0)),
        forall|v: SignedPrecommit| #[trigger] at(b@, pos as int, signed_precommit_encoding(v))
            ==> r is Some && r->Some_0.0 == v && r->Some_0.1 == pos + signed_precommit_encoding(v).len(),
{
    proof {
        assert forall|v: SignedPrecommit| #[trigger] at(b@, pos as int, signed_precommit_encoding(v)) implies {
            let e1 = v.precommit.target_hash@;
            let e2 = e1 + le_bytes(v.precommit.target_number as nat, 8);
            let e3 = e2 + v.id@;
            &&& at(b@, pos as int, e1)
            &&& at(b@, pos + e1.len(), le_bytes(v.precommit.target_number as nat, 8))
            &&& at(b@, pos + e2.len(), v.id@)
            &&& at(b@, pos + e3.len(), v.signature@)
        } by {
            let e1 = v.precommit.target_hash@;
            let e2 = e1 + le_bytes(v.precommit.target_number as nat, 8);
            let e3 = e2 + v.id@;
            lemma_le_bytes_len(v.precommit.target_number as nat, 8);
            lemma_at_split(b@, pos as int, e3, v.signature@);
            lemma_at_split(b@, pos as int, e2, v.id@);
            lemma_at_split(b@, pos as int, e1, le_bytes(v.precommit.target_number as nat, 8));
        }
    }
    let (target_hash, p1) = read_array::<32>(b, pos)?;
    let (target_number, p2) = read_u64(b, p1)?;
    let (id, p3) = read_array::<32>(b, p2)?;
    let (signature, p4) = read_array::<64>(b, p3)?;
    proof {
        lemma_le_bytes_len(target_number as nat, 8);
        lemma_join(b@, pos as int, p1 as int, p2 as int, target_hash@, le_bytes(target_number as nat, 8));
        lemma_join(b@, pos as int, p2 as int, p3 as int, target_hash@ + le_bytes(target_number as nat, 8), id@);
        lemma_join(b@, pos as int, p3 as int, p4 as int, target_hash@ + le_bytes(target_number as nat, 8) + id@, signature@);
    }
    let signature: AuthoritySignature = signature;
    Some((SignedPrecommit { precommit: Precommit { target_hash, target_number }, id, signature }, p4))
}

proof fn lemma_precommits_split(s: Seq<SignedPrecommit>, i: int)
    requires
        0 <= i <= s.len(),
    ensures
        precommits_encoding(s) == precommits_encoding(s.subrange(0, i)) + precommits_encoding(s.subrange(i, s.len() as int)),
    decreases s.len(),
{
    if i == s.len() {
        assert(s.subrange(0, i) =~= s);
        assert(s.subrange(i, s.len() as int) =~= Seq::<SignedPrecommit>::empty());
        assert(precommits_encoding(s) + Seq::<u8>::empty() =~= precommits_encoding(s));
    } else {
        lemma_precommits_split(s.drop_last(), i);
        assert(s.drop_last().subrange(0, i) =~= s.subrange(0, i));
        let t = s.subrange(i, s.len() as int);
        assert(t.drop_last() =~= s.drop_last().subrange(i, s.drop_last().len() as int));
        assert(t.last() == s.last());
        assert(precommits_encoding(s.subrange(0, i)) + precommits_encoding(t.drop_last()) + signed_precommit_encoding(s.last())
            =~= precommits_encoding(s.subrange(0, i)) + (precommits_encoding(t.drop_last()) + signed_precommit_encoding(s.last())));
    }
}

proof fn lemma_precommits_front(s: Seq<SignedPrecommit>, i: int)
    requires
        0 <= i < s.len(),
    ensures
        precommits_encoding(s.subrange(i, s.len() as int))
            == signed_precommit_encoding(s[i]) + precommits_encoding(s.subrange(i + 1, s.len() as int)),
{
    let t = s.subrange(i, s.len() as int);
    lemma_precommits_split(t, 1);
    assert(t.subrange(0, 1) =~= seq![s[i]]);
    assert(seq![s[i]].drop_last() =~= Seq::<SignedPrecommit>::empty());
    assert(precommits_encoding(seq![s[i]]) == precommits_encoding(seq![s[i]].drop_last()) + signed_precommit_encoding(s[i]));
    assert(precommits_encoding(Seq::<SignedPrecommit>::empty()) == Seq::<u8>::empty());
    assert(Seq::<u8>::empty() + signed_precommit_encoding(s[i]) =~= signed_precommit_encoding(s[i]));
    assert(t.subrange(1, t.len() as int) =~= s.subrange(i + 1, s.len() as int));
}

proof fn lemma_precommits_len(s: Seq<SignedPrecommit>)
    ensures
        precommits_encoding(s).len() >= s.len(),
    decreases s.len(),
{
    if s.len() > 0 {
        lemma_precommits_len(s.drop_last());
    }
}

proof fn lemma_headers_split(s: Seq<Header>, i: int)
    requires
        0 <= i <= s.len(),
    ensures
        headers_encoding(s) == headers_encoding(s.subrange(0, i)) + headers_encoding(s.subrange(i, s.len() as int)),
    decreases s.len(),
{
    if i == s.len() {
        assert(s.subrange(0, i) =~= s);
        assert(s.subrange(i, s.len() as int) =~= Seq::<Header>::empty());
        assert(headers_encoding(s) + Seq::<u8>::empty() =~= headers_encoding(s));
    } else {
        lemma_headers_split(s.drop_last(), i);
        assert(s.drop_last().subrange(0, i) =~= s.subrange(0, i));
        let t = s.subrange(i, s.len() as int);
        assert(t.drop_last() =~= s.drop_last().subrange(i, s.drop_last().len() as int));
        assert(t.last() == s.last());
        assert(headers_encoding(s.subrange(0, i)) + headers_encoding(t.drop_last()) + header_encoding(s.last())
            =~= headers_encoding(s.subrange(0, i)) + (headers_encoding(t.drop_last()) + header_encoding(s.last())));
    }
}

proof fn lemma_headers_front(s: Seq<Header>, i: int)
    requires
        0 <= i < s.len(),
    ensures
        headers_encoding(s.subrange(i, s.len() as int))
            == header_encoding(s[i]) + headers_encoding(s.subrange(i + 1, s.len() as int)),
{
    let t = s.subrange(i, s.len() as int);
    lemma_headers_split(t, 1);
    assert(t.subrange(0, 1) =~= seq![s[i]]);
    assert(seq![s[i]].drop_last() =~= Seq::<Header>::empty());
    assert(headers_encoding(seq![s[i]]) == headers_encoding(seq![s[i]].drop_last()) + header_encoding(s[i]));
    assert(headers_encoding(Seq::<Header>::empty()) == Seq::<u8>::empty());
    assert(Seq::<u8>::empty() + header_encoding(s[i]) =~= header_encoding(s[i]));
    assert(t.subrange(1, t.len() as int) =~= s.subrange(i + 1, s.len() as int));
}

proof fn lemma_headers_len(s: Seq<Header>)
    ensures
        headers_encoding(s).len() >= s.len(),
    decreases s.len(),
{
    if s.len() > 0 {
        lemma_headers_len(s.drop_last());
    }
}

/// Two justifications agree in every field that their encoding fixes.
pub open spec fn same_justification(j1: GrandpaJustification, j2: GrandpaJustification) -> bool {
    &&& j1.round == j2.round
    &&& j1.commit.target_hash == j2.commit.target_hash
    &&& j1.commit.target_number == j2.commit.target_number
    &&& j1.commit.precommits@ == j2.commit.precommits@
    &&& j1.votes_ancestries@.len() == j2.votes_ancestries@.len()
    &&& forall|k: int| 0 <= k < j1.votes_ancestries@.len()
        ==> same_header(#[trigger] j1.votes_ancestries@[k], j2.votes_ancestries@[k])
}

/// Decodes a justification from the front of `b`. The bytes start with the
/// encoding of the result; and where they start with the encoding of any
/// justification, decoding succeeds and gives that justification, up to what
/// its encoding fixes.
pub fn decode_justification_prefix(b: &[u8]) -> (r: Option<GrandpaJustification>)
    ensures
        r is Some ==> decodes_to(b@, r->Some_0),
        forall|j: GrandpaJustification| #[trigger] decodes_to(b@, j) ==> r is Some && same_justification(r->Some_0, j),
{
    let len0 = b.len();
    proof {
        assert forall|j: GrandpaJustification| #[trigger] decodes_to(b@, j) implies {
            let e1 = le_bytes(j.round as nat, 8);
            let e2 = e1 + j.commit.target_hash@;
            let e3 = e2 + le_bytes(j.commit.target_number as nat, 8);
            let e4 = e3 + compact_encoding(j.commit.precommits@.len() as u64);
            let e5 = e4 + precommits_encoding(j.commit.precommits@);
            let e6 = e5 + compact_encoding(j.votes_ancestries@.len() as u64);
            &&& at(b@, 0, e1)
            &&& at(b@, e1.len() as int, j.commit.target_hash@)
            &&& at(b@, e2.len() as int, le_bytes(j.commit.target_number as nat, 8))
            &&& at(b@, e3.len() as int, compact_encoding(j.commit.precommits@.len() as u64))
            &&& at(b@, e4.len() as int, precommits_encoding(j.commit.precommits@))
            &&& at(b@, e5.len() as int, compact_encoding(j.votes_ancestries@.len() as u64))
            &&& at(b@, e6.len() as int, headers_encoding(j.votes_ancestries@))
            &&& j.commit.precommits@.len() <= len0
            &&& j.votes_ancestries@.len() <= len0
        } by {
            let e1 = le_bytes(j.round as nat, 8);
            let e2 = e1 + j.commit.target_hash@;
            let e3 = e2 + le_bytes(j.commit.target_number as nat, 8);
            let e4 = e3 + compact_encoding(j.commit.precommits@.len() as u64);
            let e5 = e4 + precommits_encoding(j.commit.precommits@);
            let e6 = e5 + compact_encoding(j.votes_ancestries@.len() as u64);
            let full = justification_encoding(j);
            assert(b@.subrange(0, full.len() as int) =~= full);
            lemma_at_split(b@, 0, e6, headers_encoding(j.votes_ancestries@));
            lemma_at_split(b@, 0, e5, compact_encoding(j.votes_ancestries@.len() as u64));
            lemma_at_split(b@, 0, e4, precommits_encoding(j.commit.precommits@));
            lemma_at_split(b@, 0, e3, compact_encoding(j.commit.precommits@.len() as u64));
            lemma_at_split(b@, 0, e2, le_bytes(j.commit.target_number as nat, 8));
            lemma_at_split(b@, 0, e1, j.commit.target_hash@);
            lemma_precommits_len(j.commit.precommits@);
            lemma_headers_len(j.votes_ancestries@);
        }
    }
    let (round, p1) = read_u64(b, 0)?;
    proof { lemma_le_bytes_len(round as nat, 8); }
    let (target_hash, p2) = read_array::<32>(b, p1)?;
    let (target_number, p3) = read_u64(b, p2)?;
    proof { lemma_le_bytes_len(target_number as nat, 8); }
    let (n, p4) = read_compact(b, p3)?;
    let ghost e0 = le_bytes(round as nat, 8) + target_hash@ + le_bytes(target_number as nat, 8) + compact_encoding(n);
    proof {
        lemma_join(b@, 0, p1 as int, p2 as int, le_bytes(round as nat, 8), target_hash@);
        lemma_join(b@, 0, p2 as int, p3 as int, le_bytes(round as nat, 8) + target_hash@, le_bytes(target_number as nat, 8));
        lemma_join(b@, 0, p3 as int, p4 as int, le_bytes(round as nat, 8) + target_hash@ + le_bytes(target_number as nat, 8), compact_encoding(n));
        assert forall|j: GrandpaJustification| #[trigger] decodes_to(b@, j) implies
            j.round == round && j.commit.target_hash == target_hash && j.commit.target_number == target_number
            && j.commit.precommits@.len() == n
            && at(b@, p4 as int, precommits_encoding(j.commit.precommits@.subrange(0, j.commit.precommits@.len() as int))) by {
            assert(j.commit.precommits@.subrange(0, j.commit.precommits@.len() as int) =~= j.commit.precommits@);
        }
    }
    let mut precommits: Vec<SignedPrecommit> = Vec::new();
    let mut p: usize = p4;
    let mut i: u64 = 0;
    while i < n
        invariant
            0 <= i <= n,
            precommits@.len() == i,
            p <= b@.len(),
            read_ok(b@, 0, p as int, e0 + precommits_encoding(precommits@)),
            forall|j: GrandpaJustification| #[trigger] decodes_to(b@, j) ==>
                j.round == round && j.commit.target_hash == target_hash && j.commit.target_number == target_number
                && j.commit.precommits@.len() == n
                && precommits@ == j.commit.precommits@.subrange(0, i as int)
                && at(b@, p as int, precommits_encoding(j.commit.precommits@.subrange(i as int, j.commit.precommits@.len() as int))),
        decreases n - i,
    {
        proof {
            assert forall|j: GrandpaJustification| #[trigger] decodes_to(b@, j) implies
                at(b@, p as int, signed_precommit_encoding(j.commit.precommits@[i as int]))
                && at(b@, p + signed_precommit_encoding(j.commit.precommits@[i as int]).len(),
                    precommits_encoding(j.commit.precommits@.subrange(i + 1, j.commit.precommits@.len() as int))) by {
                lemma_precommits_front(j.commit.precommits@, i as int);
                lemma_at_split(b@, p as int, signed_precommit_encoding(j.commit.precommits@[i as int]),
                    precommits_encoding(j.commit.precommits@.subrange(i + 1, j.commit.precommits@.len() as int)));
            }
        }
        let (sp, q) = read_signed_precommit(b, p)?;
        let ghost before = precommits@;
        precommits.push(sp);
        proof {
            lemma_join(b@, 0, p as int, q as int, e0 + precommits_encoding(before), signed_precommit_encoding(sp));
            assert(precommits@.drop_last() =~= before);
            assert(e0 + precommits_encoding(before) + signed_precommit_encoding(sp) =~= e0 + precommits_encoding(precommits@));
            assert forall|j: GrandpaJustification| #[trigger] decodes_to(b@, j) implies
                precommits@ == j.commit.precommits@.subrange(0, i + 1) by {
                assert(precommits@ =~= j.commit.precommits@.subrange(0, i + 1));
            }
        }
        p = q;
        i = i + 1;
    }
    proof {
        assert forall|j: GrandpaJustification| #[trigger] decodes_to(b@, j) implies
            precommits@ == j.commit.precommits@
            && at(b@, p as int, compact_encoding(j.votes_ancestries@.len() as u64)) by {
            assert(j.commit.precommits@.subrange(0, j.commit.precommits@.len() as int) =~= j.commit.precommits@);
            assert(j.commit.precommits@.subrange(n as int, n as int) =~= Seq::<SignedPrecommit>::empty());
            lemma_read_ok_at(b@, 0, p as int, e0 + precommits_encoding(precommits@));
        }
    }
    let (m, p5) = read_compact(b, p)?;
    let ghost e1 = e0 + precommits_encoding(precommits@) + compact_encoding(m);
    proof {
        lemma_join(b@, 0, p as int, p5 as int, e0 + precommits_encoding(precommits@), compact_encoding(m));
        assert forall|j: GrandpaJustification| #[trigger] decodes_to(b@, j) implies
            j.votes_ancestries@.len() == m
            && at(b@, p5 as int, headers_encoding(j.votes_ancestries@.subrange(0, j.votes_ancestries@.len() as int))) by {
            assert(j.votes_ancestries@.subrange(0, j.votes_ancestries@.len() as int) =~= j.votes_ancestries@);
            lemma_read_ok_at(b@, 0, p5 as int, e1);
        }
    }
    let mut headers: Vec<Header> = Vec::new();
    let mut p: usize = p5;
    let mut k: u64 = 0;
    while k < m
        invariant
            0 <= k <= m,
            headers@.len() == k,
            p <= b@.len(),
            read_ok(b@, 0, p as int, e1 + headers_encoding(headers@)),
            forall|j: GrandpaJustification| #[trigger] decodes_to(b@, j) ==>
                j.votes_ancestries@.len() == m
                && (forall|x: int| 0 <= x < k ==> same_header(#[trigger] headers@[x], j.votes_ancestries@[x]))
                && at(b@, p as int, headers_encoding(j.votes_ancestries@.subrange(k as int, j.votes_ancestries@.len() as int))),
        decreases m - k,
    {
        proof {
            assert forall|j: GrandpaJustification| #[trigger] decodes_to(b@, j) implies
                at(b@, p as int, header_encoding(j.votes_ancestries@[k as int]))
                && at(b@, p + header_encoding(j.votes_ancestries@[k as int]).len(),
                    headers_encoding(j.votes_ancestries@.subrange(k + 1, j.votes_ancestries@.len() as int))) by {
                lemma_headers_front(j.votes_ancestries@, k as int);
                lemma_at_split(b@, p as int, header_encoding(j.votes_ancestries@[k as int]),
                    headers_encoding(j.votes_ancestries@.subrange(k + 1, j.votes_ancestries@.len() as int)));
            }
        }
        let (h, q) = read_header(b, p)?;
        let ghost before = headers@;
        headers.push(h);
        proof {
            lemma_join(b@, 0, p as int, q as int, e1 + headers_encoding(before), header_encoding(h));
            assert(headers@.drop_last() =~= before);
            assert(e1 + headers_encoding(before) + header_encoding(h) =~= e1 + headers_encoding(headers@));
            assert forall|j: GrandpaJustification| #[trigger] decodes_to(b@, j) implies
                (forall|x: int| 0 <= x < k + 1 ==> same_header(#[trigger] headers@[x], j.votes_ancestries@[x])) by {
                assert forall|x: int| 0 <= x < k + 1 implies same_header(#[trigger] headers@[x], j.votes_ancestries@[x]) by {
                    if x < k {
                        assert(headers@[x] == before[x]);
                    }
                }
            }
        }
        p = q;
        k = k + 1;
    }
    let j = GrandpaJustification {
        round,
        commit: Commit { target_hash, target_number, precommits },
        votes_ancestries: headers,
    };
    assert(e1 + headers_encoding(j.votes_ancestries@) =~= justification_encoding(j));
    assert(justification_encoding(j) =~= b@.subrange(0, p as int));
    Some(j)
}

proof fn lemma_authorities_split(s: Seq<(AuthorityId, u64)>, i: int)
    requires
        0 <= i <= s.len(),
    ensures
        authorities_encoding(s) == authorities_encoding(s.subrange(0, i)) + authorities_encoding(s.subrange(i, s.len() as int)),
    decreases s.len(),
{
    if i == s.len() {
        assert(s.subrange(0, i) =~= s);
        assert(s.subrange(i, s.len() as int) =~= Seq::<(AuthorityId, u64)>::empty());
        assert(authorities_encoding(s) + Seq::<u8>::empty() =~= authorities_encoding(s));
    } else {
        lemma_authorities_split(s.drop_last(), i);
        assert(s.drop_last().subrange(0, i) =~= s.subrange(0, i));
        let t = s.subrange(i, s.len() as int);
        assert(t.drop_last() =~= s.drop_last().subrange(i, s.drop_last().len() as int));
        assert(t.last() == s.last());
        assert(authorities_encoding(s.subrange(0, i)) + authorities_encoding(t.drop_last()) + authority_encoding(s.last())
            =~= authorities_encoding(s.subrange(0, i)) + (authorities_encoding(t.drop_last()) + authority_encoding(s.last())));
    }
}

proof fn lemma_authorities_front(s: Seq<(AuthorityId, u64)>, i: int)
    requires
        0 <= i < s.len(),
    ensures
        authorities_encoding(s.subrange(i, s.len() as int))
            == authority_encoding(s[i]) + authorities_encoding(s.subrange(i + 1, s.len() as int)),
{
    let t = s.subrange(i, s.len() as int);
    lemma_authorities_split(t, 1);
    assert(t.subrange(0, 1) =~= seq![s[i]]);
    assert(seq![s[i]].drop_last() =~= Seq::<(AuthorityId, u64)>::empty());
    assert(authorities_encoding(seq![s[i]]) == authorities_encoding(seq![s[i]].drop_last()) + authority_encoding(s[i]));
    assert(authorities_encoding(Seq::<(AuthorityId, u64)>::empty()) == Seq::<u8>::empty());
    assert(Seq::<u8>::empty() + authority_encoding(s[i]) =~= authority_encoding(s[i]));
    assert(t.subrange(1, t.len() as int) =~= s.subrange(i + 1, s.len() as int));
}

proof fn lemma_authorities_len(s: Seq<(AuthorityId, u64)>)
    ensures
        authorities_encoding(s).len() >= s.len(),
    decreases s.len(),
{
    if s.len() > 0 {
        lemma_authorities_len(s.drop_last());
    }
}

/// Decodes an authority list from the front of `b`: the bytes start with the
/// encoding of the result, and where they start with the encoding of any list,
/// decoding gives that list.
pub fn decode_authority_list_prefix(b: &[u8]) -> (r: Option<Vec<(AuthorityId, u64)>>)
    ensures
        r is Some ==> authority_list_encoding(r->Some_0@).is_prefix_of(b@),
        forall|set: Seq<(AuthorityId, u64)>| #[trigger] authority_list_encoding(set).is_prefix_of(b@)
            ==> r is Some && r->Some_0@ == set,
{
    let len0 = b.len();
    proof {
        assert forall|set: Seq<(AuthorityId, u64)>| #[trigger] authority_list_encoding(set).is_prefix_of(b@) implies
            at(b@, 0, compact_encoding(set.len() as u64))
            && at(b@, compact_encoding(set.len() as u64).len() as int, authorities_encoding(set))
            && set.len() <= len0 by {
            let full = authority_list_encoding(set);
            assert(b@.subrange(0, full.len() as int) =~= full);
            lemma_at_split(b@, 0, compact_encoding(set.len() as u64), authorities_encoding(set));
            lemma_authorities_len(set);
        }
    }
    let (n, p0) = read_compact(b, 0)?;
    proof {
        assert forall|set: Seq<(AuthorityId, u64)>| #[trigger] authority_list_encoding(set).is_prefix_of(b@) implies
            set.len() == n && at(b@, p0 as int, authorities_encoding(set.subrange(0, set.len() as int))) by {
            assert(set.subrange(0, set.len() as int) =~= set);
        }
    }
    let mut out: Vec<(AuthorityId, u64)> = Vec::new();
    let mut p: usize = p0;
    let mut i: u64 = 0;
    while i < n
        invariant
            0 <= i <= n,
            out@.len() == i,
            p <= b@.len(),
            read_ok(b@, 0, p as int, compact_encoding(n) + authorities_encoding(out@)),
            forall|set: Seq<(AuthorityId, u64)>| #[trigger] authority_list_encoding(set).is_prefix_of(b@) ==>
                set.len() == n && out@ == set.subrange(0, i as int)
                && at(b@, p as int, authorities_encoding(set.subrange(i as int, set.len() as int))),
        decreases n - i,
    {
        proof {
            assert forall|set: Seq<(AuthorityId, u64)>| #[trigger] authority_list_encoding(set).is_prefix_of(b@) implies
                at(b@, p as int, set[i as int].0@) && at(b@, p + 32, le_bytes(set[i as int].1 as nat, 8))
                && at(b@, p + 40, authorities_encoding(set.subrange(i + 1, set.len() as int))) by {
                lemma_authorities_front(set, i as int);
                lemma_le_bytes_len(set[i as int].1 as nat, 8);
                lemma_at_split(b@, p as int, authority_encoding(set[i as int]), authorities_encoding(set.subrange(i + 1, set.len() as int)));
                lemma_at_split(b@, p as int, set[i as int].0@, le_bytes(set[i as int].1 as nat, 8));
            }
        }
        let (id, q1) = read_array::<32>(b, p)?;
        let (weight, q2) = read_u64(b, q1)?;
        proof {
            lemma_le_bytes_len(weight as nat, 8);
            lemma_join(b@, p as int, q1 as int, q2 as int, id@, le_bytes(weight as nat, 8));
        }
        let ghost before = out@;
        out.push((id, weight));
        proof {
            lemma_join(b@, 0, p as int, q2 as int, compact_encoding(n) + authorities_encoding(before), authority_encoding((id, weight)));
            assert(out@.drop_last() =~= before);
            assert(compact_encoding(n) + authorities_encoding(before) + authority_encoding((id, weight))
                =~= compact_encoding(n) + authorities_encoding(out@));
            assert forall|set: Seq<(AuthorityId, u64)>| #[trigger] authority_list_encoding(set).is_prefix_of(b@) implies
                out@ == set.subrange(0, i + 1) by {
                assert(out@ =~= set.subrange(0, i + 1));
            }
        }
        p = q2;
        i = i + 1;
    }
    proof {
        lemma_read_ok_at(b@, 0, p as int, compact_encoding(n) + authorities_encoding(out@));
        assert(b@.subrange(0, p as int) == authority_list_encoding(out@));
        assert forall|set: Seq<(AuthorityId, u64)>| #[trigger] authority_list_encoding(set).is_prefix_of(b@) implies
            out@ == set by {
            assert(set.subrange(0, n as int) =~= set);
        }
    }
    Some(out)
}

} // verus!
