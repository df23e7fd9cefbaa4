//! The xcopy variant: the same chunked transfer over a local source
//! tree. Paths are normalized to forward slashes with no trailing
//! slash and rebased against the source root; there is no manifest, so
//! only size equality is checked.

use vstd::arithmetic::div_mod::{lemma_fundamental_div_mod, lemma_remainder_lower};
use vstd::arithmetic::mul::{lemma_mul_inequality, lemma_mul_is_distributive_sub_other_way};
use vstd::math::min;
use vstd::prelude::*;

use crate::errors::FilerError;
use crate::parts::{
    calc_parts, ceil_div, read_range, spec_range_bytes, spec_store_at, store_at, MAX_FILE_SIZE,
    MAX_PART_SIZE, MAX_SPLIT_PARTS,
};

verus! {

/// Backslash.
pub const BACKSLASH: u8 = 92;

/// A path normalized: backslashes become slashes, and one trailing
/// slash is dropped.
pub open spec fn spec_fine_path(p: Seq<u8>) -> Seq<u8> {
    let q = Seq::new(
        p.len(),
        |i: int|
            if p[i] == BACKSLASH {
                crate::paths::SLASH
            } else {
                p[i]
            },
    );
    if q.len() > 0 && q.last() == crate::paths::SLASH {
        q.drop_last()
    } else {
        q
    }
}

/// Normalizes a path.
pub fn fine_path(p: &Vec<u8>) -> (r: Vec<u8>)
    ensures
        r@ == spec_fine_path(p@),
{
    let mut q: Vec<u8> = Vec::new();
    let mut i: usize = 0;
    while i < p.len()
        invariant
            i <= p@.len(),
            q@.len() == i,
            forall|j: int|
                0 <= j < i ==> q@[j] == (if p@[j] == BACKSLASH {
                    crate::paths::SLASH
                } else {
                    p@[j]
                }),
        decreases p@.len() - i,
    {
        let b = p[i];
        if b == BACKSLASH {
            q.push(crate::paths::SLASH);
        } else {
            q.push(b);
        }
        i = i + 1;
    }
    if q.len() > 0 && q[q.len() - 1] == crate::paths::SLASH {
        let _ = q.pop();
        proof {
            assert(q@ =~= spec_fine_path(p@));
        }
        q
    } else {
        proof {
            assert(q@ =~= spec_fine_path(p@));
        }
        q
    }
}

/// A walked path rebased against the source root: the bytes past the
/// root and its separator.
pub fn rebase_path(full: &Vec<u8>, root_len: usize) -> (r: Vec<u8>)
    requires
        root_len + 1 <= full@.len(),
    ensures
        r@ == full@.skip(root_len + 1),
{
    let n = full.len();
    proof {
        assert(root_len + 1 <= n);
    }
    crate::paths::copy_from(full, root_len + 1)
}

/// The xcopy gate: with no manifest, a copy counts only if the summed
/// byte counts equal the source size.
pub fn xcopy_outcome(expected_size: u64, got_size: u64) -> (r: Result<(), FilerError>)
    ensures
        r is Ok <==> got_size == expected_size,
        r is Err ==> r == Err::<(), FilerError>(FilerError::IntegrityError),
{
    if got_size == expected_size {
        Ok(())
    } else {
        Err(FilerError::IntegrityError)
    }
}

/// Copies a file through the chunked engine: cut into parts, read each
/// range, write each at its offset, sum the counts. The copy is
/// byte-identical and the size check passes.
pub fn xcopy_transfer(content: &Vec<u8>, part_size: u64) -> (r: (Vec<u8>, u64))
    requires
        1 <= part_size <= 2 * MAX_PART_SIZE,
        content@.len() <= MAX_FILE_SIZE,
    ensures
        r.0@ == content@,
        r.1 == content@.len(),
{
    let size = content.len() as u64;
    let (parts, eff) = calc_parts(size, part_size, MAX_SPLIT_PARTS);
    proof {
        crate::parts::lemma_calc_parts(size as int, part_size as int, MAX_SPLIT_PARTS as int);
    }
    let ghost n = content@.len() as int;
    let mut target: Vec<u8> = Vec::new();
    let mut size_calc: u64 = 0;
    let mut i: u64 = 0;
    proof {
        assert(content@.take(0) =~= Seq::<u8>::empty());
    }
    while i < parts
        invariant
            i <= parts,
            n == content@.len(),
            n <= MAX_FILE_SIZE,
            n <= usize::MAX,
            1 <= eff,
            parts == ceil_div(n, eff as int),
            parts <= MAX_SPLIT_PARTS,
            parts * eff >= n,
            target@ == content@.take(min(i * eff, n)),
            size_calc == min(i * eff, n),
        decreases parts - i,
    {
        proof {
            lemma_mul_inequality(i as int, parts as int - 1, eff as int);
            lemma_mul_is_distributive_sub_other_way(eff as int, parts as int, 1);
            lemma_fundamental_div_mod(n + eff - 1, eff as int);
            lemma_remainder_lower(n + eff - 1, eff as int);
            assert((parts - 1) * eff < n);
            assert(i * eff < n);
            lemma_mul_is_distributive_sub_other_way(eff as int, i as int + 1, 1);
            assert((i + 1) * eff == i * eff + eff);
        }
        let skip = i * eff;
        let part = match read_range(content, skip, eff) {
            Ok(part) => part,
            Err(_) => {
                proof {
                    assert(false);
                }
                return (target, size_calc);
            },
        };
        proof {
            assert(target@.len() == skip as int);
            assert(spec_store_at(target@, skip as int, part.bytes@) =~= target@ + part.bytes@);
            assert(content@.take(min(i * eff, n)) + spec_range_bytes(content@, i * eff, eff as int)
                =~= content@.take(min((i + 1) * eff, n)));
        }
        store_at(&mut target, skip, &part.bytes);
        size_calc = size_calc + part.take;
        i = i + 1;
    }
    proof {
        assert(min(parts * eff, n) == n);
        assert(content@.take(n) =~= content@);
    }
    (target, size_calc)
}

} // verus!
