//! Chunking arithmetic: how a file of a given size is cut into parts that
//! can be fetched concurrently, and what a byte-range read returns.

use vstd::arithmetic::div_mod::{lemma_fundamental_div_mod, lemma_remainder_lower};
use vstd::arithmetic::mul::lemma_mul_inequality;
use vstd::arithmetic::power2::pow2;
use vstd::math::{max, min};
use vstd::prelude::*;

use crate::errors::FilerError;

verus! {

/// Ceiling of the split-part count a file may be cut into by the
/// downloader and by xcopy.
pub const MAX_SPLIT_PARTS: u64 = 128;

/// Largest file size the chunking arithmetic accepts (2^62 bytes).
/// Keeps every intermediate sum of `calc_parts` inside `u64`.
pub const MAX_FILE_SIZE: u64 = 0x4000_0000_0000_0000;

/// Largest part size the chunking arithmetic accepts (2^62 bytes).
pub const MAX_PART_SIZE: u64 = 0x4000_0000_0000_0000;

/// `ceil(a / b)`: the number of chunks of size `b` needed to cover `a`
/// bytes.
pub open spec fn ceil_div(a: int, b: int) -> int
    recommends
        b >= 1,
{
    (a + b - 1) / b
}

/// If `a` needs at least two chunks of size `b`, then `a` exceeds `b`.
proof fn lemma_ceil_div_ge_two(a: int, b: int)
    requires
        b >= 1,
        ceil_div(a, b) >= 2,
    ensures
        a >= b + 1,
{
    lemma_fundamental_div_mod(a + b - 1, b);
    lemma_remainder_lower(a + b - 1, b);
    lemma_mul_inequality(2, (a + b - 1) / b, b);
}

/// Doubling `part_size` until at most `cap` parts are needed.
///
/// Returns `(parts, effective_part_size)` where `effective_part_size` is
/// the first member of `part_size * 2^k` for which
/// `ceil(file_size / effective_part_size) <= cap`.
pub open spec fn spec_calc_parts(file_size: int, part_size: int, cap: int) -> (int, int)
    recommends
        1 <= part_size,
        1 <= cap,
    decreases max(0, file_size - part_size),
        when 1 <= part_size && 1 <= cap
        via spec_calc_parts_decreases
{
    if ceil_div(file_size, part_size) <= cap {
        (ceil_div(file_size, part_size), part_size)
    } else {
        spec_calc_parts(file_size, 2 * part_size, cap)
    }
}

#[via_fn]
proof fn spec_calc_parts_decreases(file_size: int, part_size: int, cap: int) {
    if 1 <= part_size && 1 <= cap && ceil_div(file_size, part_size) > cap {
        lemma_ceil_div_ge_two(file_size, part_size);
    }
}

/// What `spec_calc_parts` guarantees: the parts cover the file, respect
/// the cap, and the effective size is `part_size` doubled `k` times.
pub proof fn lemma_calc_parts(file_size: int, part_size: int, cap: int)
    requires
        1 <= part_size,
        1 <= cap,
        0 <= file_size,
    ensures
        ({
            let (parts, eff) = spec_calc_parts(file_size, part_size, cap);
            &&& parts == ceil_div(file_size, eff)
            &&& parts <= cap
            &&& 0 <= parts
            &&& part_size <= eff
            &&& exists|k: nat| eff == part_size * pow2(k)
            &&& parts * eff >= file_size
        }),
    decreases max(0, file_size - part_size),
{
    let parts0 = ceil_div(file_size, part_size);
    if parts0 <= cap {
        lemma_fundamental_div_mod(file_size + part_size - 1, part_size);
        lemma_remainder_lower(file_size + part_size - 1, part_size);
        vstd::arithmetic::div_mod::lemma_div_pos_is_pos(file_size + part_size - 1, part_size);
        assert(pow2(0) == 1) by {
            vstd::arithmetic::power::lemma_pow0(2);
        }
        assert(part_size == part_size * pow2(0));
        assert(exists|k: nat| part_size == part_size * pow2(k));
        assert(parts0 * part_size >= file_size) by {
            lemma_fundamental_div_mod(file_size + part_size - 1, part_size);
            vstd::arithmetic::div_mod::lemma_remainder_upper(file_size + part_size - 1, part_size);
        }
    } else {
        lemma_ceil_div_ge_two(file_size, part_size);
        lemma_calc_parts(file_size, 2 * part_size, cap);
        let (parts, eff) = spec_calc_parts(file_size, 2 * part_size, cap);
        let k0 = choose|k: nat| eff == (2 * part_size) * pow2(k);
        assert(eff == part_size * pow2(k0 + 1)) by {
            vstd::arithmetic::power2::lemma_pow2_unfold(k0 + 1);
            vstd::arithmetic::mul::lemma_mul_is_associative(part_size, 2, pow2(k0) as int);
        }
    }
}

/// Executable form of [`spec_calc_parts`], doubling `part_size` until no
/// more than `max_split_parts` parts are needed.
///
/// The bounds on `file_size` and `part_size` keep `file_size + part_size`
/// and the doubling inside `u64`; real files and tuning values sit far
/// below them.
pub fn calc_parts(file_size: u64, part_size: u64, max_split_parts: u64) -> (r: (u64, u64))
    requires
        1 <= part_size,
        1 <= max_split_parts,
        file_size <= MAX_FILE_SIZE,
        part_size <= 2 * MAX_PART_SIZE,
    ensures
        (r.0 as int, r.1 as int) == spec_calc_parts(
            file_size as int,
            part_size as int,
            max_split_parts as int,
        ),
    decreases max(0, file_size - part_size),
{
    let parts = (file_size + part_size - 1) / part_size;
    if parts <= max_split_parts {
        (parts, part_size)
    } else {
        proof {
            lemma_ceil_div_ge_two(file_size as int, part_size as int);
        }
        calc_parts(file_size, part_size * 2, max_split_parts)
    }
}

/// One transferred byte range of a file: `bytes` starts at offset `skip`
/// and `take` counts the bytes actually carried.
pub struct PartData {
    pub skip: u64,
    pub take: u64,
    pub bytes: Vec<u8>,
}

impl PartData {
    /// `take` always equals the number of bytes carried.
    pub open spec fn wf(&self) -> bool {
        self.take == self.bytes@.len()
    }
}

/// What a range read of `take` bytes at offset `skip` returns: the bytes
/// from `skip` up to `skip + take`, clamped at the end of the file.
pub open spec fn spec_range_bytes(content: Seq<u8>, skip: int, take: int) -> Seq<u8>
    recommends
        0 <= skip,
        0 <= take,
{
    let n = content.len() as int;
    content.subrange(min(skip, n), min(skip + take, n))
}

/// Reads the whole of `content` as one part.
pub fn read_full(content: &Vec<u8>) -> (r: PartData)
    ensures
        r.skip == 0,
        r.take == content@.len(),
        r.bytes@ == content@,
        r.wf(),
{
    let bytes = copy_bytes(content);
    let take = bytes.len() as u64;
    PartData { skip: 0, take, bytes }
}

/// Reads `take` bytes of `content` starting at `skip`.
///
/// At the end of the file the read is clamped: the part carries whatever
/// bytes remain from `skip`, and its `take` reports that count. A `skip`
/// past the end of the file is out of range.
pub fn read_range(content: &Vec<u8>, skip: u64, take: u64) -> (r: Result<PartData, FilerError>)
    ensures
        r is Ok <==> skip <= content@.len(),
        r matches Ok(p) ==> {
            &&& p.skip == skip
            &&& p.bytes@ == spec_range_bytes(content@, skip as int, take as int)
            &&& p.wf()
        },
        r is Err ==> r == Err::<PartData, FilerError>(FilerError::OutOfRange),
{
    let n = content.len();
    if skip > n as u64 {
        return Err(FilerError::OutOfRange);
    }
    let end: u64 = if take > n as u64 - skip {
        n as u64
    } else {
        skip + take
    };
    let mut bytes: Vec<u8> = Vec::new();
    let mut i: u64 = skip;
    while i < end
        invariant
            skip <= i <= end,
            end <= n as u64,
            n == content@.len(),
            bytes@ == content@.subrange(skip as int, i as int),
        decreases end - i,
    {
        bytes.push(content[i as usize]);
        proof {
            assert(bytes@ =~= content@.subrange(skip as int, i + 1));
        }
        i = i + 1;
    }
    let take_got = bytes.len() as u64;
    Ok(PartData { skip, take: take_got, bytes })
}

/// Byte-for-byte copy of `content`.
pub fn copy_bytes(content: &Vec<u8>) -> (r: Vec<u8>)
    ensures
        r@ == content@,
{
    let mut out: Vec<u8> = Vec::new();
    let mut i: usize = 0;
    while i < content.len()
        invariant
            i <= content@.len(),
            out@ == content@.subrange(0, i as int),
        decreases content@.len() - i,
    {
        out.push(content[i]);
        proof {
            assert(out@ =~= content@.subrange(0, i + 1));
        }
        i = i + 1;
    }
    proof {
        assert(out@ =~= content@);
    }
    out
}

/// The chunks a file is cut into: `parts` ranges of `eff` bytes each, in
/// offset order, the last clamped at the end of the file.
pub open spec fn spec_chunks(content: Seq<u8>, parts: int, eff: int) -> Seq<Seq<u8>>
    recommends
        0 <= parts,
        1 <= eff,
{
    Seq::new(parts as nat, |i: int| spec_range_bytes(content, i * eff, eff))
}

/// The bytes of a sequence of chunks, in order.
pub open spec fn concat_chunks(chunks: Seq<Seq<u8>>) -> Seq<u8>
    decreases chunks.len(),
{
    if chunks.len() == 0 {
        Seq::empty()
    } else {
        concat_chunks(chunks.drop_last()) + chunks.last()
    }
}

/// Growing a chunk list by one appends that chunk's bytes.
pub proof fn lemma_concat_take_step(chunks: Seq<Seq<u8>>, i: int)
    requires
        0 <= i < chunks.len(),
    ensures
        concat_chunks(chunks.take(i + 1)) == concat_chunks(chunks.take(i)) + chunks[i],
{
    assert(chunks.take(i + 1).drop_last() =~= chunks.take(i));
}

/// The chunks of the cut plan, concatenated in offset order, are exactly
/// the file: cutting loses and reorders nothing.
pub proof fn lemma_chunks_cover(content: Seq<u8>, parts: int, eff: int)
    requires
        1 <= eff,
        parts == ceil_div(content.len() as int, eff),
    ensures
        concat_chunks(spec_chunks(content, parts, eff)) == content,
{
    let n = content.len() as int;
    lemma_fundamental_div_mod(n + eff - 1, eff);
    lemma_remainder_lower(n + eff - 1, eff);
    vstd::arithmetic::div_mod::lemma_remainder_upper(n + eff - 1, eff);
    vstd::arithmetic::div_mod::lemma_div_pos_is_pos(n + eff - 1, eff);
    assert(parts * eff >= n);
    assert(parts >= 0);
    lemma_chunks_cover_prefix(content, parts, eff, parts);
    assert(min(parts * eff, n) == n);
    assert(spec_chunks(content, parts, eff).take(parts) =~= spec_chunks(content, parts, eff));
    assert(content.take(n) =~= content);
}

/// The first `k` chunks of the cut plan concatenate to the first
/// `min(k * eff, len)` bytes of the file.
proof fn lemma_chunks_cover_prefix(content: Seq<u8>, parts: int, eff: int, k: int)
    requires
        1 <= eff,
        0 <= k <= parts,
    ensures
        concat_chunks(spec_chunks(content, parts, eff).take(k)) == content.take(
            min(k * eff, content.len() as int),
        ),
    decreases k,
{
    let n = content.len() as int;
    let chunks = spec_chunks(content, parts, eff);
    if k == 0 {
        assert(k * eff == 0) by (nonlinear_arith)
            requires
                k == 0,
        ;
        assert(chunks.take(0) =~= Seq::<Seq<u8>>::empty());
        assert(content.take(0) =~= Seq::<u8>::empty());
    } else {
        lemma_chunks_cover_prefix(content, parts, eff, k - 1);
        lemma_concat_take_step(chunks, k - 1);
        assert((k - 1) * eff == k * eff - eff) by {
            vstd::arithmetic::mul::lemma_mul_is_distributive_sub_other_way(eff, k, 1);
        }
        assert(chunks[k - 1] == spec_range_bytes(content, (k - 1) * eff, eff));
        assert(content.take(min((k - 1) * eff, n)) + spec_range_bytes(content, (k - 1) * eff, eff)
            =~= content.take(min(k * eff, n)));
    }
}

/// Writing `b` at offset `skip` of a file whose bytes are `c`: bytes
/// before `skip` stay, a gap past the old end is zero-filled, and the
/// file grows if the write reaches past its end.
pub open spec fn spec_store_at(c: Seq<u8>, skip: int, b: Seq<u8>) -> Seq<u8>
    recommends
        0 <= skip,
{
    let n = max(c.len() as int, skip + b.len());
    Seq::new(
        n as nat,
        |i: int|
            if skip <= i && i < skip + b.len() {
                b[i - skip]
            } else if i < c.len() {
                c[i]
            } else {
                0u8
            },
    )
}

/// Writes `bytes` into `target` at offset `skip`, as a positioned file
/// write would: seek, zero-fill any gap, overwrite, extend.
pub fn store_at(target: &mut Vec<u8>, skip: u64, bytes: &Vec<u8>)
    requires
        skip + bytes@.len() <= usize::MAX,
    ensures
        final(target)@ == spec_store_at(old(target)@, skip as int, bytes@),
{
    let ghost c = old(target)@;
    while (target.len() as u64) < skip
        invariant
            skip <= usize::MAX,
            c.len() >= skip ==> target@ == c,
            c.len() < skip ==> {
                &&& c.len() <= target@.len() <= skip
                &&& forall|i: int|
                    0 <= i < target@.len() ==> target@[i] == (if i < c.len() {
                        c[i]
                    } else {
                        0u8
                    })
            },
        decreases skip - target@.len(),
    {
        target.push(0u8);
    }
    let ghost padded = target@;
    proof {
        assert(padded.len() == max(c.len() as int, skip as int));
        assert(forall|i: int|
            0 <= i < padded.len() ==> padded[i] == (if i < c.len() {
                c[i]
            } else {
                0u8
            }));
    }
    let mut j: usize = 0;
    while j < bytes.len()
        invariant
            j <= bytes@.len(),
            skip + bytes@.len() <= usize::MAX,
            padded.len() == max(c.len() as int, skip as int),
            forall|i: int|
                0 <= i < padded.len() ==> padded[i] == (if i < c.len() {
                    c[i]
                } else {
                    0u8
                }),
            target@.len() == max(padded.len() as int, skip + j),
            forall|i: int|
                0 <= i < target@.len() ==> target@[i] == (if skip <= i && i < skip + j {
                    bytes@[i - skip]
                } else {
                    padded[i]
                }),
        decreases bytes@.len() - j,
    {
        let idx = skip as usize + j;
        if idx < target.len() {
            target[idx] = bytes[j];
        } else {
            target.push(bytes[j]);
        }
        j = j + 1;
    }
    proof {
        assert(target@ =~= spec_store_at(c, skip as int, bytes@));
    }
}

} // verus!
