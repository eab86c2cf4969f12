use vstd::prelude::*;
use parity_scale_codec::{Compact, Encode};
use sp_core::Hasher;

verus! {

/// A 256-bit hash as its raw bytes.
pub type BlockHash = [u8; 32];

/// Blake2b-256 of a byte string, as computed by the remote chain's hasher.
pub uninterp spec fn blake2_256_of(data: Seq<u8>) -> Seq<u8>;

/// Relies on sp_core::Blake2Hasher::hash: Blake2b-256 of the input, 32 bytes.
#[verifier::external_body]
pub fn blake2_256(data: &[u8]) -> (r: BlockHash)
    ensures
        r@ == blake2_256_of(data@),
{
    <sp_core::Blake2Hasher as Hasher>::hash(data).0
}

/// The SCALE compact encoding of an integer.
pub uninterp spec fn compact_encoding(n: u64) -> Seq<u8>;

/// Relies on parity_scale_codec's Encode for `Compact<u64>`: one byte `4 * n`
/// below 64, more bytes above.
#[verifier::external_body]
pub(crate) fn encode_compact(n: u64) -> (r: Vec<u8>)
    ensures
        r@ == compact_encoding(n),
        n < 64 ==> r@ == seq![(n * 4) as u8],
{
    Compact(n).encode()
}

/// A digest item of a header, in the remote chain's layout: a tag byte, then the
/// variant's fields.
#[derive(Clone, Debug, PartialEq, Eq)]
pub enum DigestItem {
    /// Tag 0: opaque data.
    Other(Vec<u8>),
    /// Tag 4: a message from a consensus engine to the runtime.
    Consensus([u8; 4], Vec<u8>),
    /// Tag 5: a seal of a consensus engine.
    Seal([u8; 4], Vec<u8>),
    /// Tag 6: a message from a consensus engine before the runtime runs.
    PreRuntime([u8; 4], Vec<u8>),
    /// Tag 8: the runtime environment changed.
    RuntimeEnvironmentUpdated,
}

/// A byte string with its compact length in front.
pub open spec fn byte_string_encoding(b: Seq<u8>) -> Seq<u8> {
    compact_encoding(b.len() as u64) + b
}

/// The encoding of one digest item.
pub open spec fn digest_item_encoding(item: DigestItem) -> Seq<u8> {
    match item {
        DigestItem::Other(d) => seq![0u8] + byte_string_encoding(d@),
        DigestItem::Consensus(e, d) => seq![4u8] + e@ + byte_string_encoding(d@),
        DigestItem::Seal(e, d) => seq![5u8] + e@ + byte_string_encoding(d@),
        DigestItem::PreRuntime(e, d) => seq![6u8] + e@ + byte_string_encoding(d@),
        DigestItem::RuntimeEnvironmentUpdated => seq![8u8],
    }
}

/// The encodings of `items`, one after another.
pub open spec fn digest_items_encoding(items: Seq<DigestItem>) -> Seq<u8>
    decreases items.len(),
{
    if items.len() == 0 {
        Seq::empty()
    } else {
        digest_items_encoding(items.drop_last()) + digest_item_encoding(items.last())
    }
}

/// A header's canonical encoding: parent hash, compact block number, state root,
/// extrinsics root, then the digest as a compact count followed by its items.
pub open spec fn header_encoding(h: Header) -> Seq<u8> {
    h.parent_hash@ + compact_encoding(h.number) + h.state_root@ + h.extrinsics_root@
        + compact_encoding(h.digest@.len() as u64) + digest_items_encoding(h.digest@)
}

/// A remote-chain block header.
pub struct Header {
    pub parent_hash: BlockHash,
    pub number: u64,
    pub state_root: BlockHash,
    pub extrinsics_root: BlockHash,
    pub digest: Vec<DigestItem>,
}

/// The hash of a header: Blake2b-256 of its canonical encoding.
pub open spec fn header_hash(h: Header) -> Seq<u8> {
    blake2_256_of(header_encoding(h))
}

pub(crate) fn append_bytes(out: &mut Vec<u8>, b: &[u8])
    ensures
        final(out)@ == old(out)@ + b@,
{
    let ghost start = old(out)@;
    let mut i: usize = 0;
    while i < b.len()
        invariant
            0 <= i <= b@.len(),
            out@ == start + b@.subrange(0, i as int),
        decreases b@.len() - i,
    {
        out.push(b[i]);
        assert(b@.subrange(0, i + 1) =~= b@.subrange(0, i as int).push(b@[i as int]));
        i = i + 1;
    }
    assert(b@.subrange(0, b@.len() as int) =~= b@);
}

fn append_byte_string(out: &mut Vec<u8>, b: &Vec<u8>)
    ensures
        final(out)@ == old(out)@ + byte_string_encoding(b@),
{
    let len = encode_compact(b.len() as u64);
    let ghost mid = out@;
    append_bytes(out, len.as_slice());
    append_bytes(out, b.as_slice());
    assert(mid + len@ + b@ =~= mid + byte_string_encoding(b@));
}

fn append_digest_item(out: &mut Vec<u8>, item: &DigestItem)
    ensures
        final(out)@ == old(out)@ + digest_item_encoding(*item),
{
    let ghost start = out@;
    match item {
        DigestItem::Other(d) => {
            out.push(0u8);
            append_byte_string(out, d);
        },
        DigestItem::Consensus(e, d) => {
            out.push(4u8);
            append_bytes(out, e.as_slice());
            append_byte_string(out, d);
        },
        DigestItem::Seal(e, d) => {
            out.push(5u8);
            append_bytes(out, e.as_slice());
            append_byte_string(out, d);
        },
        DigestItem::PreRuntime(e, d) => {
            out.push(6u8);
            append_bytes(out, e.as_slice());
            append_byte_string(out, d);
        },
        DigestItem::RuntimeEnvironmentUpdated => {
            out.push(8u8);
        },
    }
    assert(out@ =~= start + digest_item_encoding(*item));
}

/// The canonical encoding of a header.
pub fn encode_header(h: &Header) -> (r: Vec<u8>)
    ensures
        r@ == header_encoding(*h),
{
    let mut out: Vec<u8> = Vec::new();
    append_bytes(&mut out, h.parent_hash.as_slice());
    let number = encode_compact(h.number);
    append_bytes(&mut out, number.as_slice());
    append_bytes(&mut out, h.state_root.as_slice());
    append_bytes(&mut out, h.extrinsics_root.as_slice());
    let count = encode_compact(h.digest.len() as u64);
    append_bytes(&mut out, count.as_slice());
    let ghost head = out@;
    let mut i: usize = 0;
    while i < h.digest.len()
        invariant
            0 <= i <= h.digest@.len(),
            out@ == head + digest_items_encoding(h.digest@.subrange(0, i as int)),
        decreases h.digest@.len() - i,
    {
        append_digest_item(&mut out, &h.digest[i]);
        assert(h.digest@.subrange(0, i + 1).drop_last() =~= h.digest@.subrange(0, i as int));
        assert(out@ =~= head + digest_items_encoding(h.digest@.subrange(0, i + 1)));
        i = i + 1;
    }
    assert(h.digest@.subrange(0, h.digest@.len() as int) =~= h.digest@);
    assert(out@ =~= header_encoding(*h));
    out
}

impl Header {
    /// A header with the given fields and an empty digest.
    pub fn new(parent_hash: BlockHash, number: u64, state_root: BlockHash, extrinsics_root: BlockHash) -> (r: Header)
        ensures
            r.parent_hash == parent_hash,
            r.number == number,
            r.state_root == state_root,
            r.extrinsics_root == extrinsics_root,
            r.digest@.len() == 0,
    {
        Header { parent_hash, number, state_root, extrinsics_root, digest: Vec::new() }
    }

    /// The hash of this header.
    pub fn hash(&self) -> (r: BlockHash)
        ensures
            r@ == header_hash(*self),
    {
        let enc = encode_header(self);
        blake2_256(enc.as_slice())
    }
}

/// Compares two hashes byte by byte.
pub fn hash_eq(a: &BlockHash, b: &BlockHash) -> (r: bool)
    ensures
        r == (a@ == b@),
{
    let mut i: usize = 0;
    while i < 32
        invariant
            0 <= i <= 32,
            a@.len() == 32,
            b@.len() == 32,
            forall|j: int| 0 <= j < i ==> a@[j] == b@[j],
        decreases 32 - i,
    {
        if a[i] != b[i] {
            return false;
        }
        i = i + 1;
    }
    assert(a@ =~= b@);
    true
}

/// Compares two byte strings.
pub fn bytes_eq(a: &[u8], b: &[u8]) -> (r: bool)
    ensures
        r == (a@ == b@),
{
    if a.len() != b.len() {
        return false;
    }
    let mut i: usize = 0;
    while i < a.len()
        invariant
            0 <= i <= a@.len(),
            a@.len() == b@.len(),
            forall|j: int| 0 <= j < i ==> a@[j] == b@[j],
        decreases a@.len() - i,
    {
        if a[i] != b[i] {
            return false;
        }
        i = i + 1;
    }
    assert(a@ =~= b@);
    true
}

} // verus!
