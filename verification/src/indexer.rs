//! The indexer: a directory's files are digested chunk by chunk and
//! written out as the manifest, with the manifest file itself left out
//! and the paths rebased against the catalog root; repeated digests can
//! be grouped and reported. The directory walk and the file reads live
//! outside; given a file's bytes, the digest computed here over its
//! chunks is exactly the single-pass digest.

use vstd::arithmetic::div_mod::{lemma_fundamental_div_mod, lemma_remainder_lower};
use vstd::arithmetic::mul::{lemma_mul_inequality, lemma_mul_is_distributive_sub_other_way};
use vstd::prelude::*;

use crate::digest::{
    digest_of_parts, lemma_digest_equivalence, lemma_sum_takes_wf, spec_digest_hex, sum_takes,
};
use crate::manifest::{entry_views, EntryView, FileEntry};
use crate::parts::{calc_parts, ceil_div, read_range, PartData, MAX_FILE_SIZE, MAX_PART_SIZE};
use crate::paths::lower_seq;
use crate::sync::{group_views, DigestGroup, GroupView};

verus! {

/// The digest and size of a file, computed the indexer's way: the file
/// cut by [`calc_parts`] with half the task budget as the cap, each
/// chunk read by range, all chunks fed in offset order to one hasher.
///
/// The digest equals the single-pass digest of the file's bytes.
pub fn file_digest(content: &Vec<u8>, part_size: u64, max_tasks: u64) -> (r: (Vec<u8>, u64))
    requires
        1 <= part_size <= 2 * MAX_PART_SIZE,
        2 <= max_tasks,
        content@.len() <= MAX_FILE_SIZE,
    ensures
        r.0@ == spec_digest_hex(content@),
        r.0@.len() == 64,
        crate::base16::all_hex(r.0@),
        r.1 == content@.len(),
{
    let size = content.len() as u64;
    let (parts, eff) = calc_parts(size, part_size, max_tasks / 2);
    proof {
        crate::parts::lemma_calc_parts(size as int, part_size as int, max_tasks as int / 2);
    }
    let ghost n = content@.len() as int;
    let mut chunks: Vec<PartData> = Vec::new();
    let mut i: u64 = 0;
    while i < parts
        invariant
            i <= parts,
            n == content@.len(),
            n <= MAX_FILE_SIZE,
            1 <= eff,
            parts == ceil_div(n, eff as int),
            parts * eff >= n,
            chunks@.len() == i,
            forall|j: int|
                0 <= j < i ==> (#[trigger] chunks@[j]).bytes@ == crate::parts::spec_range_bytes(
                    content@,
                    j * eff,
                    eff as int,
                ),
            forall|j: int| 0 <= j < i ==> (#[trigger] chunks@[j]).wf(),
        decreases parts - i,
    {
        proof {
            lemma_mul_inequality(i as int, parts as int - 1, eff as int);
            lemma_mul_is_distributive_sub_other_way(eff as int, parts as int, 1);
            lemma_fundamental_div_mod(n + eff - 1, eff as int);
            lemma_remainder_lower(n + eff - 1, eff as int);
            assert((parts - 1) * eff < n);
            assert(i * eff < n);
        }
        let skip = i * eff;
        let part = match read_range(content, skip, eff) {
            Ok(part) => part,
            Err(_) => {
                proof {
                    assert(false);
                }
                return (Vec::new(), 0);
            },
        };
        chunks.push(part);
        i = i + 1;
    }
    proof {
        lemma_digest_equivalence(content@, chunks@, eff as int);
        lemma_sum_takes_wf(chunks@);
        assert(sum_takes(chunks@) == n);
    }
    match digest_of_parts(&chunks) {
        Some(dt) => (dt.0, size),
        None => {
            proof {
                assert(false);
            }
            (Vec::new(), 0)
        },
    }
}

/// True for the walked path that is the manifest file itself, which
/// the manifest must not list: the catalog root joined with the list
/// file's name, compared lowercased.
pub open spec fn is_list_file(path: Seq<u8>, root: Seq<u8>, list_name: Seq<u8>) -> bool {
    lower_seq(path) == lower_seq(root) + seq![crate::paths::SLASH] + list_name
}

/// The manifest entries for the walk results: the list file dropped,
/// every other path rebased against the root.
pub open spec fn spec_build_index(
    results: Seq<EntryView>,
    root: Seq<u8>,
    list_name: Seq<u8>,
) -> Seq<EntryView>
    decreases results.len(),
{
    if results.len() == 0 {
        Seq::empty()
    } else {
        let rest = spec_build_index(results.drop_last(), root, list_name);
        let e = results.last();
        if is_list_file(e.path, root, list_name) {
            rest
        } else {
            rest.push(
                EntryView {
                    digest: e.digest,
                    size: e.size,
                    path: e.path.skip(root.len() + 1int),
                },
            )
        }
    }
}

/// Builds the manifest entries from the walk results.
pub fn build_index(results: &Vec<FileEntry>, root: &Vec<u8>, list_name: &Vec<u8>) -> (r: Vec<
    FileEntry,
>)
    requires
        forall|i: int|
            0 <= i < results@.len() ==> (#[trigger] results@[i]).path@.len() >= root@.len() + 1,
    ensures
        entry_views(r@) == spec_build_index(entry_views(results@), root@, list_name@),
{
    let ghost v = entry_views(results@);
    let root_low = crate::paths::lower_bytes(root);
    let mut full_list: Vec<u8> = crate::parts::copy_bytes(&root_low);
    full_list.push(crate::paths::SLASH);
    let mut ln = crate::parts::copy_bytes(list_name);
    full_list.append(&mut ln);
    let mut out: Vec<FileEntry> = Vec::new();
    let mut i: usize = 0;
    while i < results.len()
        invariant
            i <= results@.len(),
            v == entry_views(results@),
            forall|k: int| 0 <= k < results@.len() ==> (#[trigger] v[k]).path.len() >= root@.len()
                + 1,
            full_list@ == lower_seq(root@) + seq![crate::paths::SLASH] + list_name@,
            entry_views(out@) == spec_build_index(v.take(i as int), root@, list_name@),
        decreases results@.len() - i,
    {
        proof {
            assert(v.take(i + 1).drop_last() =~= v.take(i as int));
            assert(v.take(i + 1).last() == v[i as int]);
        }
        let e = &results[i];
        let pl = e.path.len();
        proof {
            assert(root@.len() + 1 <= pl);
        }
        let low = crate::paths::lower_bytes(&e.path);
        if !crate::paths::eq_bytes(&low, &full_list) {
            let entry = FileEntry {
                digest: crate::parts::copy_bytes(&e.digest),
                size: e.size,
                path: crate::paths::copy_from(&e.path, root.len() + 1),
            };
            proof {
                assert(entry_views(out@.push(entry)) =~= entry_views(out@).push(entry@));
            }
            out.push(entry);
        }
        i = i + 1;
    }
    proof {
        assert(v.take(results@.len() as int) =~= v);
    }
    out
}

/// The sizes of the entries, summed.
pub open spec fn spec_total_size(v: Seq<EntryView>) -> int
    decreases v.len(),
{
    if v.len() == 0 {
        0int
    } else {
        spec_total_size(v.drop_last()) + v.last().size
    }
}

/// Sums the entry sizes, or nothing when the sum leaves `u64`.
pub fn total_size(entries: &Vec<FileEntry>) -> (r: Option<u64>)
    ensures
        r is Some <==> spec_total_size(entry_views(entries@)) <= u64::MAX,
        r matches Some(t) ==> t == spec_total_size(entry_views(entries@)),
{
    let ghost v = entry_views(entries@);
    let mut total: u64 = 0;
    let mut i: usize = 0;
    while i < entries.len()
        invariant
            i <= entries@.len(),
            v == entry_views(entries@),
            total == spec_total_size(v.take(i as int)),
        decreases entries@.len() - i,
    {
        proof {
            assert(v.take(i + 1).drop_last() =~= v.take(i as int));
            assert(v.take(i + 1).last() == v[i as int]);
        }
        let sz = entries[i].size;
        if sz > u64::MAX - total {
            proof {
                lemma_total_size_grows(v, i + 1);
            }
            return None;
        }
        total = total + sz;
        i = i + 1;
    }
    proof {
        assert(v.take(entries@.len() as int) =~= v);
    }
    Some(total)
}

/// The whole sum is at least any prefix's sum.
proof fn lemma_total_size_grows(v: Seq<EntryView>, i: int)
    requires
        0 <= i <= v.len(),
    ensures
        spec_total_size(v) >= spec_total_size(v.take(i)),
    decreases v.len() - i,
{
    if i == v.len() {
        assert(v.take(i) =~= v);
    } else {
        lemma_total_size_grows(v, i + 1);
        assert(v.take(i + 1).drop_last() =~= v.take(i));
    }
}

/// The groups with more than one member: the repeated digests, in
/// first-appearance order.
pub open spec fn spec_repeated(gs: Seq<GroupView>) -> Seq<GroupView>
    decreases gs.len(),
{
    if gs.len() == 0 {
        Seq::empty()
    } else {
        let rest = spec_repeated(gs.drop_last());
        if gs.last().paths.len() > 1 {
            rest.push(gs.last())
        } else {
            rest
        }
    }
}

/// Filters the digest groups down to those with repeated members.
pub fn repeated_groups(groups: &Vec<DigestGroup>) -> (r: Vec<DigestGroup>)
    ensures
        group_views(r@) == spec_repeated(group_views(groups@)),
{
    let ghost v = group_views(groups@);
    let mut out: Vec<DigestGroup> = Vec::new();
    let mut i: usize = 0;
    while i < groups.len()
        invariant
            i <= groups@.len(),
            v == group_views(groups@),
            group_views(out@) == spec_repeated(v.take(i as int)),
        decreases groups@.len() - i,
    {
        proof {
            assert(v.take(i + 1).drop_last() =~= v.take(i as int));
            assert(v.take(i + 1).last() == v[i as int]);
        }
        if groups[i].paths.len() > 1 {
            let g = groups[i].duplicate();
            proof {
                assert(group_views(out@.push(g)) =~= group_views(out@).push(g@));
            }
            out.push(g);
        }
        i = i + 1;
    }
    proof {
        assert(v.take(groups@.len() as int) =~= v);
    }
    out
}

} // verus!
