//! The BLAKE3 digest pipeline.
//!
//! Files are hashed chunk by chunk: the chunks are fed, in offset order,
//! to a single incremental hasher, so the digest is over the whole file
//! in natural byte order. The hasher itself is the `blake3` crate's;
//! what this module proves is that feeding the chunks of a file in
//! order digests exactly the file's bytes.

use vstd::prelude::*;

use crate::base16::{hex_of_bytes, spec_is_hex_digit};
use crate::parts::{ceil_div, concat_chunks, spec_range_bytes, PartData};

verus! {

/// The outside incremental hasher.
#[verifier::external_type_specification]
#[verifier::external_body]
pub struct ExHasher(blake3::Hasher);

/// The outside digest value.
#[verifier::external_type_specification]
#[verifier::external_body]
pub struct ExHash(blake3::Hash);

/// The bytes a hasher has been fed so far.
pub uninterp spec fn hasher_fed(h: blake3::Hasher) -> Seq<u8>;

/// The 32 raw bytes a digest value carries.
pub uninterp spec fn hash_value(h: blake3::Hash) -> Seq<u8>;

/// The 32-byte BLAKE3 digest of `data`: a function of the bytes alone.
pub uninterp spec fn blake3_of(data: Seq<u8>) -> Seq<u8>;

/// Relies on `blake3::Hasher::new`: a fresh hasher has been fed
/// nothing.
#[verifier::external_body]
pub fn hasher_new() -> (h: blake3::Hasher)
    ensures
        hasher_fed(h) == Seq::<u8>::empty(),
{
    blake3::Hasher::new()
}

/// Relies on `blake3::Hasher::update`: it appends the input to what the
/// hasher has been fed.
#[verifier::external_body]
pub fn hasher_update(h: &mut blake3::Hasher, input: &Vec<u8>)
    ensures
        hasher_fed(*final(h)) == hasher_fed(*old(h)) + input@,
{
    h.update(input.as_slice());
}

/// Relies on `blake3::Hasher::finalize`: the digest of the fed bytes,
/// 32 bytes long, a function of those bytes alone.
#[verifier::external_body]
pub fn hasher_finalize(h: &blake3::Hasher) -> (r: blake3::Hash)
    ensures
        hash_value(r) == blake3_of(hasher_fed(*h)),
        hash_value(r).len() == 32,
{
    h.finalize()
}

/// Relies on `blake3::Hash::to_hex`: the digest's bytes spelled as
/// lowercase hex, two digits per byte.
#[verifier::external_body]
pub fn hash_to_hex(h: &blake3::Hash) -> (r: Vec<u8>)
    ensures
        r@ == hex_of_bytes(hash_value(*h)),
{
    let hex = h.to_hex();
    hex.as_bytes().to_vec()
}

/// The digest of `data` as it stands in a manifest: 64 lowercase hex
/// digits.
pub open spec fn spec_digest_hex(data: Seq<u8>) -> Seq<u8> {
    hex_of_bytes(blake3_of(data))
}

/// A manifest digest field is well-formed: 64 hex digits.
proof fn lemma_digest_hex_wf(data: Seq<u8>)
    requires
        blake3_of(data).len() == 32,
    ensures
        spec_digest_hex(data).len() == 64,
        crate::base16::all_hex(spec_digest_hex(data)),
{
    let d = spec_digest_hex(data);
    assert forall|i: int| 0 <= i < d.len() implies spec_is_hex_digit(d[i]) by {
        crate::base16::lemma_hex_pair_roundtrip(blake3_of(data)[i / 2]);
    }
}

/// The bytes each part carries, in list order.
pub open spec fn parts_bytes(parts: Seq<PartData>) -> Seq<Seq<u8>> {
    parts.map_values(|p: PartData| p.bytes@)
}

/// The byte counts the parts report, summed.
pub open spec fn sum_takes(parts: Seq<PartData>) -> int
    decreases parts.len(),
{
    if parts.len() == 0 {
        0int
    } else {
        sum_takes(parts.drop_last()) + parts.last().take
    }
}

/// Streams every part, in list order, through one hasher, summing the
/// reported byte counts: the digest is over the concatenation of the
/// parts' bytes, exactly as a single-pass hash of them would be. Gives
/// nothing back when the summed counts do not fit a `u64`; no real file
/// reaches that.
pub fn digest_of_parts(parts: &Vec<PartData>) -> (r: Option<(Vec<u8>, u64)>)
    ensures
        r is Some <==> sum_takes(parts@) <= u64::MAX,
        r matches Some(dt) ==> {
            &&& dt.0@ == spec_digest_hex(concat_chunks(parts_bytes(parts@)))
            &&& dt.0@.len() == 64
            &&& crate::base16::all_hex(dt.0@)
            &&& dt.1 == sum_takes(parts@)
        },
{
    let mut h = hasher_new();
    let mut total: u64 = 0;
    let mut i: usize = 0;
    let n = parts.len();
    while i < n
        invariant
            n == parts@.len(),
            i <= n,
            hasher_fed(h) == concat_chunks(parts_bytes(parts@).take(i as int)),
            total == sum_takes(parts@.take(i as int)),
        decreases n - i,
    {
        proof {
            assert(parts@.take(i + 1).drop_last() =~= parts@.take(i as int));
            assert(parts_bytes(parts@).take(i + 1).drop_last() =~= parts_bytes(parts@).take(
                i as int,
            ));
        }
        let take = parts[i].take;
        if take > u64::MAX - total {
            proof {
                lemma_sum_takes_between(parts@, i + 1);
            }
            return None;
        }
        hasher_update(&mut h, &parts[i].bytes);
        total = total + take;
        i = i + 1;
    }
    proof {
        assert(parts@.take(n as int) =~= parts@);
        assert(parts_bytes(parts@).take(n as int) =~= parts_bytes(parts@));
    }
    let digest = hasher_finalize(&h);
    proof {
        lemma_digest_hex_wf(hasher_fed(h));
    }
    Some((hash_to_hex(&digest), total))
}

/// The whole list reports at least what any prefix reports.
proof fn lemma_sum_takes_between(parts: Seq<PartData>, i: int)
    requires
        0 <= i <= parts.len(),
    ensures
        sum_takes(parts) >= sum_takes(parts.take(i)),
    decreases parts.len() - i,
{
    if i == parts.len() {
        assert(parts.take(i) =~= parts);
    } else {
        lemma_sum_takes_between(parts, i + 1);
        assert(parts.take(i + 1).drop_last() =~= parts.take(i));
    }
}

/// The digest of a byte sequence in one pass.
pub fn digest_of_bytes(content: &Vec<u8>) -> (r: Vec<u8>)
    ensures
        r@ == spec_digest_hex(content@),
        r@.len() == 64,
        crate::base16::all_hex(r@),
{
    let mut h = hasher_new();
    hasher_update(&mut h, content);
    proof {
        assert(Seq::<u8>::empty() + content@ =~= content@);
    }
    let digest = hasher_finalize(&h);
    proof {
        lemma_digest_hex_wf(hasher_fed(h));
    }
    hash_to_hex(&digest)
}

/// For parts whose counts match their bytes, the counts sum to the
/// length of the concatenation.
pub proof fn lemma_sum_takes_wf(parts: Seq<PartData>)
    requires
        forall|i: int| 0 <= i < parts.len() ==> (#[trigger] parts[i]).wf(),
    ensures
        sum_takes(parts) == concat_chunks(parts_bytes(parts)).len(),
    decreases parts.len(),
{
    if parts.len() > 0 {
        assert(forall|i: int| 0 <= i < parts.len() - 1 ==> parts.drop_last()[i] == parts[i]);
        lemma_sum_takes_wf(parts.drop_last());
        assert(parts_bytes(parts).drop_last() =~= parts_bytes(parts.drop_last()));
        assert(parts_bytes(parts).last() == parts.last().bytes@);
    }
}

/// Digest equivalence: parts that carry exactly the chunks of a file,
/// in offset order, digest to the file's own single-pass digest.
pub proof fn lemma_digest_equivalence(content: Seq<u8>, parts: Seq<PartData>, eff: int)
    requires
        1 <= eff,
        parts.len() == ceil_div(content.len() as int, eff),
        forall|i: int|
            0 <= i < parts.len() ==> (#[trigger] parts[i].bytes@) == spec_range_bytes(
                content,
                i * eff,
                eff,
            ),
    ensures
        concat_chunks(parts_bytes(parts)) == content,
        spec_digest_hex(concat_chunks(parts_bytes(parts))) == spec_digest_hex(content),
{
    assert(parts_bytes(parts) =~= crate::parts::spec_chunks(
        content,
        parts.len() as int,
        eff,
    ));
    crate::parts::lemma_chunks_cover(content, parts.len() as int, eff);
}

} // verus!
