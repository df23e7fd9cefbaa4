//! The downloader's decisions: which remote entries to fetch, how files
//! with a repeated digest reuse the first local copy, where each file is
//! written, when a transfer counts as verified, and when the local
//! manifest may be replaced. The network and disk work around these
//! decisions is driven from outside; every rule is here.

use vstd::prelude::*;

use crate::errors::FilerError;
use crate::manifest::{entry_views, EntryView, FileEntry};
use crate::parts::{concat_chunks, PartData};
use crate::paths::{
    byte_views, dot_new, ends_with, filer_exe, filer_exe_new, filer_json, lower_seq, SLASH,
};

verus! {

/// True for the paths a sync never downloads: the configuration file
/// and a leftover staged update, by lowercased suffix.
pub open spec fn excluded_path(p: Seq<u8>) -> bool {
    ends_with(lower_seq(p), filer_json()) || ends_with(lower_seq(p), filer_exe_new())
}

/// Tests a path against the excluded suffixes.
pub fn is_excluded_path(p: &Vec<u8>) -> (r: bool)
    ensures
        r == excluded_path(p@),
{
    let mut json_suffix: Vec<u8> = Vec::new();
    json_suffix.push(102);
    json_suffix.push(105);
    json_suffix.push(108);
    json_suffix.push(101);
    json_suffix.push(114);
    json_suffix.push(46);
    json_suffix.push(106);
    json_suffix.push(115);
    json_suffix.push(111);
    json_suffix.push(110);
    proof {
        assert(json_suffix@ =~= filer_json());
    }
    if crate::paths::has_lower_suffix(p, &json_suffix) {
        return true;
    }
    let mut exe_new_suffix: Vec<u8> = Vec::new();
    exe_new_suffix.push(102);
    exe_new_suffix.push(105);
    exe_new_suffix.push(108);
    exe_new_suffix.push(101);
    exe_new_suffix.push(114);
    exe_new_suffix.push(46);
    exe_new_suffix.push(101);
    exe_new_suffix.push(120);
    exe_new_suffix.push(101);
    exe_new_suffix.push(46);
    exe_new_suffix.push(110);
    exe_new_suffix.push(101);
    exe_new_suffix.push(119);
    proof {
        assert(exe_new_suffix@ =~= filer_exe_new());
    }
    crate::paths::has_lower_suffix(p, &exe_new_suffix)
}

/// What the local manifest says about a path: the digest and size of
/// its last entry with that (nonempty) path.
pub open spec fn local_lookup(local: Seq<EntryView>, path: Seq<u8>) -> Option<(Seq<u8>, u64)>
    decreases local.len(),
{
    if local.len() == 0 {
        None
    } else if local.last().path == path && path.len() > 0 {
        Some((local.last().digest, local.last().size))
    } else {
        local_lookup(local.drop_last(), path)
    }
}

/// Looks a path up in the parsed local manifest.
pub fn lookup_local(local: &Vec<FileEntry>, path: &Vec<u8>) -> (r: Option<(Vec<u8>, u64)>)
    ensures
        r is Some <==> local_lookup(entry_views(local@), path@) is Some,
        r matches Some(ds) ==> local_lookup(entry_views(local@), path@) == Some((ds.0@, ds.1)),
{
    let ghost v = entry_views(local@);
    let mut k = local.len();
    proof {
        assert(v.take(local.len() as int) =~= v);
    }
    while k > 0
        invariant
            k <= local@.len(),
            v == entry_views(local@),
            local_lookup(v, path@) == local_lookup(v.take(k as int), path@),
        decreases k,
    {
        proof {
            assert(v.take(k as int).drop_last() =~= v.take(k - 1));
            assert(v.take(k as int).last() == v[k - 1]);
        }
        let e = &local[k - 1];
        if path.len() > 0 && crate::paths::eq_bytes(&e.path, path) {
            return Some((crate::parts::copy_bytes(&e.digest), e.size));
        }
        k = k - 1;
    }
    proof {
        assert(v.take(0) =~= Seq::<EntryView>::empty());
    }
    None
}

/// True when a remote entry belongs to the download set: never for an
/// excluded path; otherwise always under download-all, and under update
/// exactly when the local manifest lacks the path or disagrees on its
/// digest or size.
pub open spec fn in_download_set(e: EntryView, local: Seq<EntryView>, download_all: bool) -> bool {
    !excluded_path(e.path) && (download_all || match local_lookup(local, e.path) {
        None => true,
        Some(ds) => !(ds.0 == e.digest && ds.1 == e.size),
    })
}

/// The download set, in remote-manifest order.
pub open spec fn spec_select(remote: Seq<EntryView>, local: Seq<EntryView>, all: bool) -> Seq<
    EntryView,
>
    decreases remote.len(),
{
    if remote.len() == 0 {
        Seq::empty()
    } else {
        let rest = spec_select(remote.drop_last(), local, all);
        if in_download_set(remote.last(), local, all) {
            rest.push(remote.last())
        } else {
            rest
        }
    }
}

/// Computes the download set from the two parsed manifests.
pub fn select_downloads(remote: &Vec<FileEntry>, local: &Vec<FileEntry>, download_all: bool) -> (r:
    Vec<FileEntry>)
    ensures
        entry_views(r@) == spec_select(entry_views(remote@), entry_views(local@), download_all),
{
    let ghost rv = entry_views(remote@);
    let ghost lv = entry_views(local@);
    let mut out: Vec<FileEntry> = Vec::new();
    let mut i: usize = 0;
    while i < remote.len()
        invariant
            i <= remote@.len(),
            rv == entry_views(remote@),
            lv == entry_views(local@),
            entry_views(out@) == spec_select(rv.take(i as int), lv, download_all),
        decreases remote@.len() - i,
    {
        proof {
            assert(rv.take(i + 1).drop_last() =~= rv.take(i as int));
            assert(rv.take(i + 1).last() == rv[i as int]);
        }
        let e = &remote[i];
        let mut wanted = !is_excluded_path(&e.path);
        if wanted && !download_all {
            match lookup_local(local, &e.path) {
                None => {},
                Some(ds) => {
                    if crate::paths::eq_bytes(&ds.0, &e.digest) && ds.1 == e.size {
                        wanted = false;
                    }
                },
            }
        }
        if wanted {
            let dup = e.duplicate();
            proof {
                assert(entry_views(out@.push(dup)) =~= entry_views(out@).push(dup@));
            }
            out.push(dup);
        }
        i = i + 1;
    }
    proof {
        assert(rv.take(remote@.len() as int) =~= rv);
    }
    out
}

/// Diff semantics: an entry whose digest and size match the local
/// manifest is left out under update and taken under download-all,
/// excluded paths aside.
pub proof fn lemma_diff_semantics(e: EntryView, local: Seq<EntryView>)
    requires
        !excluded_path(e.path),
        local_lookup(local, e.path) == Some((e.digest, e.size)),
    ensures
        !in_download_set(e, local, false),
        in_download_set(e, local, true),
{
}

/// One digest's group during a run: the size its files share, their
/// paths in download-set order, and whether one of them has already
/// been written locally.
#[derive(Debug, PartialEq, Eq)]
pub struct DigestGroup {
    pub digest: Vec<u8>,
    pub size: u64,
    pub paths: Vec<Vec<u8>>,
    pub fetched: bool,
}

/// The mathematical shadow of a [`DigestGroup`].
pub ghost struct GroupView {
    pub digest: Seq<u8>,
    pub size: u64,
    pub paths: Seq<Seq<u8>>,
    pub fetched: bool,
}

impl View for DigestGroup {
    type V = GroupView;

    open spec fn view(&self) -> GroupView {
        GroupView {
            digest: self.digest@,
            size: self.size,
            paths: byte_views(self.paths@),
            fetched: self.fetched,
        }
    }
}

/// The views of a sequence of groups.
pub open spec fn group_views(s: Seq<DigestGroup>) -> Seq<GroupView> {
    s.map_values(|g: DigestGroup| g@)
}

impl DigestGroup {
    /// A copy whose fields carry the same values.
    pub fn duplicate(&self) -> (r: DigestGroup)
        ensures
            r@ == self@,
    {
        DigestGroup {
            digest: crate::parts::copy_bytes(&self.digest),
            size: self.size,
            paths: copy_paths(&self.paths),
            fetched: self.fetched,
        }
    }
}

/// Index of the group holding `digest`, or the group count when none
/// does.
pub open spec fn group_index(gs: Seq<GroupView>, digest: Seq<u8>) -> int
    decreases gs.len(),
{
    if gs.len() == 0 {
        0
    } else if gs.first().digest == digest {
        0
    } else {
        1 + group_index(gs.drop_first(), digest)
    }
}

/// Where [`group_index`] lands.
pub proof fn lemma_group_index_bounds(gs: Seq<GroupView>, digest: Seq<u8>)
    ensures
        0 <= group_index(gs, digest) <= gs.len(),
        group_index(gs, digest) < gs.len() ==> gs[group_index(gs, digest)].digest == digest,
        forall|i: int| 0 <= i < group_index(gs, digest) ==> (#[trigger] gs[i]).digest != digest,
    decreases gs.len(),
{
    if gs.len() == 0 {
    } else if gs.first().digest == digest {
    } else {
        lemma_group_index_bounds(gs.drop_first(), digest);
        assert(forall|i: int| 0 <= i < gs.len() - 1 ==> gs.drop_first()[i] == gs[i + 1]);
        assert forall|i: int| 0 <= i < group_index(gs, digest) implies (#[trigger] gs[i]).digest
            != digest by {
            if i > 0 {
                assert(gs.drop_first()[i - 1] == gs[i]);
            }
        }
    }
}

/// [`group_index`] finds `j` exactly when no earlier group holds the
/// digest and the one at `j` does (or `j` is the count).
pub proof fn lemma_group_index_at(gs: Seq<GroupView>, digest: Seq<u8>, j: int)
    requires
        0 <= j <= gs.len(),
        forall|i: int| 0 <= i < j ==> (#[trigger] gs[i]).digest != digest,
        j == gs.len() || gs[j].digest == digest,
    ensures
        group_index(gs, digest) == j,
    decreases gs.len(),
{
    if gs.len() == 0 {
    } else if gs.first().digest == digest {
        assert(j == 0);
    } else {
        assert(j > 0);
        assert(forall|i: int| 0 <= i < gs.len() - 1 ==> gs.drop_first()[i] == gs[i + 1]);
        lemma_group_index_at(gs.drop_first(), digest, j - 1);
    }
}

/// Scans for the group holding `digest`.
pub fn find_group(groups: &Vec<DigestGroup>, digest: &Vec<u8>) -> (r: usize)
    ensures
        r == group_index(group_views(groups@), digest@),
{
    let ghost gs = group_views(groups@);
    let mut i: usize = 0;
    while i < groups.len()
        invariant
            i <= groups@.len(),
            gs == group_views(groups@),
            forall|j: int| 0 <= j < i ==> (#[trigger] gs[j]).digest != digest@,
        decreases groups@.len() - i,
    {
        if crate::paths::eq_bytes(&groups[i].digest, digest) {
            proof {
                assert(gs[i as int].digest == digest@);
                lemma_group_index_at(gs, digest@, i as int);
            }
            return i;
        }
        i = i + 1;
    }
    proof {
        lemma_group_index_at(gs, digest@, gs.len() as int);
    }
    groups.len()
}

/// The digest-group index over the download set, built in order; every
/// size in a group must agree, which is a consistency check on the
/// remote manifest, not a recovery path.
pub open spec fn spec_groups(entries: Seq<EntryView>) -> Option<Seq<GroupView>>
    decreases entries.len(),
{
    if entries.len() == 0 {
        Some(Seq::empty())
    } else {
        match spec_groups(entries.drop_last()) {
            None => None,
            Some(gs) => {
                let e = entries.last();
                let idx = group_index(gs, e.digest);
                if idx < gs.len() {
                    if gs[idx].size != e.size {
                        None
                    } else {
                        Some(
                            gs.update(
                                idx,
                                GroupView {
                                    digest: gs[idx].digest,
                                    size: gs[idx].size,
                                    paths: gs[idx].paths.push(e.path),
                                    fetched: gs[idx].fetched,
                                },
                            ),
                        )
                    }
                } else {
                    Some(
                        gs.push(
                            GroupView {
                                digest: e.digest,
                                size: e.size,
                                paths: seq![e.path],
                                fetched: false,
                            },
                        ),
                    )
                }
            },
        }
    }
}

/// A spoiled prefix spoils the whole build.
proof fn lemma_groups_none_extends(entries: Seq<EntryView>, i: int)
    requires
        0 <= i <= entries.len(),
        spec_groups(entries.take(i)) is None,
    ensures
        spec_groups(entries) is None,
    decreases entries.len() - i,
{
    if i == entries.len() {
        assert(entries.take(i) =~= entries);
    } else {
        assert(entries.take(i + 1).drop_last() =~= entries.take(i));
        lemma_groups_none_extends(entries, i + 1);
    }
}

/// Copies a list of byte strings.
fn copy_paths(v: &Vec<Vec<u8>>) -> (r: Vec<Vec<u8>>)
    ensures
        byte_views(r@) == byte_views(v@),
{
    let mut out: Vec<Vec<u8>> = Vec::new();
    let mut i: usize = 0;
    while i < v.len()
        invariant
            i <= v@.len(),
            out@.len() == i,
            forall|j: int| 0 <= j < i ==> byte_views(out@)[j] == byte_views(v@)[j],
        decreases v@.len() - i,
    {
        let p = crate::parts::copy_bytes(&v[i]);
        proof {
            assert(byte_views(v@)[i as int] == v@[i as int]@);
        }
        out.push(p);
        i = i + 1;
    }
    proof {
        assert(byte_views(out@) =~= byte_views(v@));
    }
    out
}

/// Builds the digest-group index over the download set. Fails when two
/// entries share a digest but not a size.
pub fn build_groups(downloads: &Vec<FileEntry>) -> (r: Result<Vec<DigestGroup>, FilerError>)
    ensures
        r is Ok <==> spec_groups(entry_views(downloads@)) is Some,
        r matches Ok(g) ==> Some(group_views(g@)) == spec_groups(entry_views(downloads@)),
        r is Err ==> r == Err::<Vec<DigestGroup>, FilerError>(FilerError::ManifestParse),
{
    let ghost v = entry_views(downloads@);
    let mut acc: Vec<DigestGroup> = Vec::new();
    let mut i: usize = 0;
    while i < downloads.len()
        invariant
            i <= downloads@.len(),
            v == entry_views(downloads@),
            Some(group_views(acc@)) == spec_groups(v.take(i as int)),
        decreases downloads@.len() - i,
    {
        proof {
            assert(v.take(i + 1).drop_last() =~= v.take(i as int));
            assert(v.take(i + 1).last() == v[i as int]);
        }
        let e = &downloads[i];
        let idx = find_group(&acc, &e.digest);
        if idx < acc.len() {
            if acc[idx].size != e.size {
                proof {
                    lemma_groups_none_extends(v, i + 1);
                }
                return Err(FilerError::ManifestParse);
            }
            let g = &acc[idx];
            let mut paths = copy_paths(&g.paths);
            paths.push(crate::parts::copy_bytes(&e.path));
            let updated = DigestGroup {
                digest: crate::parts::copy_bytes(&g.digest),
                size: g.size,
                paths,
                fetched: g.fetched,
            };
            proof {
                assert(byte_views(updated.paths@) =~= byte_views(acc@[idx as int].paths@).push(
                    e@.path,
                ));
            }
            acc[idx] = updated;
            proof {
                assert(group_views(acc@) =~= spec_groups(v.take(i + 1)).unwrap());
            }
        } else {
            let mut paths: Vec<Vec<u8>> = Vec::new();
            paths.push(crate::parts::copy_bytes(&e.path));
            let fresh = DigestGroup {
                digest: crate::parts::copy_bytes(&e.digest),
                size: e.size,
                paths,
                fetched: false,
            };
            proof {
                assert(byte_views(fresh.paths@) =~= seq![e@.path]);
            }
            acc.push(fresh);
            proof {
                assert(group_views(acc@) =~= spec_groups(v.take(i + 1)).unwrap());
            }
        }
        i = i + 1;
    }
    proof {
        assert(v.take(downloads@.len() as int) =~= v);
    }
    Ok(acc)
}

/// Where a file's bytes come from: the first path of its digest group
/// and the group's fetched flag when the digest is grouped, else the
/// file itself, from the network.
pub open spec fn spec_source_for(gs: Seq<GroupView>, file: Seq<u8>, digest: Seq<u8>) -> (
    Seq<u8>,
    bool,
) {
    let idx = group_index(gs, digest);
    if idx < gs.len() && gs[idx].paths.len() > 0 {
        (gs[idx].paths[0], gs[idx].fetched)
    } else {
        (file, false)
    }
}

/// Consults the group index before a file is dispatched: the returned
/// flag says whether the source is an already-written local copy.
pub fn source_for(groups: &Vec<DigestGroup>, file: &Vec<u8>, digest: &Vec<u8>) -> (r: (
    Vec<u8>,
    bool,
))
    ensures
        (r.0@, r.1) == spec_source_for(group_views(groups@), file@, digest@),
{
    let idx = find_group(groups, digest);
    if idx < groups.len() && groups[idx].paths.len() > 0 {
        (crate::parts::copy_bytes(&groups[idx].paths[0]), groups[idx].fetched)
    } else {
        (crate::parts::copy_bytes(file), false)
    }
}

/// The group index after a digest's first success: that group's flag
/// set, everything else untouched.
pub open spec fn spec_mark_fetched(gs: Seq<GroupView>, digest: Seq<u8>) -> Seq<GroupView> {
    let idx = group_index(gs, digest);
    if idx < gs.len() {
        gs.update(
            idx,
            GroupView {
                digest: gs[idx].digest,
                size: gs[idx].size,
                paths: gs[idx].paths,
                fetched: true,
            },
        )
    } else {
        gs
    }
}

/// Records that a file of this digest has been written and verified;
/// later files of the group will be copied locally.
pub fn mark_fetched(groups: &mut Vec<DigestGroup>, digest: &Vec<u8>) -> (r: bool)
    ensures
        group_views(final(groups)@) == spec_mark_fetched(group_views(old(groups)@), digest@),
        r == (group_index(group_views(old(groups)@), digest@) < old(groups)@.len()),
{
    let ghost gs = group_views(groups@);
    let idx = find_group(groups, digest);
    if idx < groups.len() {
        let g = &groups[idx];
        let updated = DigestGroup {
            digest: crate::parts::copy_bytes(&g.digest),
            size: g.size,
            paths: copy_paths(&g.paths),
            fetched: true,
        };
        groups[idx] = updated;
        proof {
            assert(group_views(groups@) =~= spec_mark_fetched(gs, digest@));
        }
        true
    } else {
        proof {
            assert(group_views(groups@) =~= spec_mark_fetched(gs, digest@));
        }
        false
    }
}

/// Local reuse: once a digest's first file has been fetched and marked,
/// every later file of that digest sources from the group's first path,
/// locally, with no network transfer.
pub proof fn lemma_local_reuse(gs: Seq<GroupView>, digest: Seq<u8>, file: Seq<u8>)
    requires
        group_index(gs, digest) < gs.len(),
        gs[group_index(gs, digest)].paths.len() > 0,
    ensures
        spec_source_for(spec_mark_fetched(gs, digest), file, digest) == (
            gs[group_index(gs, digest)].paths[0],
            true,
        ),
{
    let idx = group_index(gs, digest);
    lemma_group_index_bounds(gs, digest);
    let g2 = spec_mark_fetched(gs, digest);
    assert(forall|i: int| 0 <= i < idx ==> (#[trigger] g2[i]).digest != digest);
    assert(g2[idx].digest == digest);
    lemma_group_index_at(g2, digest, idx);
}

/// The path a file is written to: under the root, except that a file
/// whose lowercased name ends in `filer.exe` goes to its own name with
/// `.new` appended, so the running image is never overwritten.
pub open spec fn spec_target_path(root: Seq<u8>, file: Seq<u8>) -> Seq<u8> {
    if ends_with(lower_seq(file), filer_exe()) {
        root + seq![SLASH] + file + dot_new()
    } else {
        root + seq![SLASH] + file
    }
}

/// Computes where a file is written.
pub fn target_path(root: &Vec<u8>, file: &Vec<u8>) -> (r: Vec<u8>)
    ensures
        r@ == spec_target_path(root@, file@),
{
    let mut exe_suffix: Vec<u8> = Vec::new();
    exe_suffix.push(102);
    exe_suffix.push(105);
    exe_suffix.push(108);
    exe_suffix.push(101);
    exe_suffix.push(114);
    exe_suffix.push(46);
    exe_suffix.push(101);
    exe_suffix.push(120);
    exe_suffix.push(101);
    proof {
        assert(exe_suffix@ =~= filer_exe());
    }
    let mut out = crate::parts::copy_bytes(root);
    out.push(SLASH);
    let mut f = crate::parts::copy_bytes(file);
    out.append(&mut f);
    if crate::paths::has_lower_suffix(file, &exe_suffix) {
        out.push(46);
        out.push(110);
        out.push(101);
        out.push(119);
        proof {
            assert(out@ =~= spec_target_path(root@, file@));
        }
    } else {
        proof {
            assert(out@ =~= spec_target_path(root@, file@));
        }
    }
    out
}

/// The integrity gate: a transfer counts only if the computed size and
/// digest both equal the manifest entry's.
pub fn verify_outcome(expected: &FileEntry, got_digest: &Vec<u8>, got_size: u64) -> (r: Result<
    (),
    FilerError,
>)
    ensures
        r is Ok <==> (got_size == expected.size && got_digest@ == expected.digest@),
        r is Err ==> r == Err::<(), FilerError>(FilerError::IntegrityError),
{
    if got_size != expected.size {
        Err(FilerError::IntegrityError)
    } else if !crate::paths::eq_bytes(got_digest, &expected.digest) {
        Err(FilerError::IntegrityError)
    } else {
        Ok(())
    }
}

/// Streams a file's fetched parts, in submission order, through the
/// digest pipeline and holds the result against the manifest entry.
///
/// Succeeds exactly when the reported byte counts sum to the entry's
/// size and the parts' bytes digest to the entry's digest: the sole
/// gate before a file counts as downloaded.
pub fn process_file_parts(entry: &FileEntry, parts: &Vec<PartData>) -> (r: Result<
    (Vec<u8>, u64),
    FilerError,
>)
    ensures
        r is Ok <==> (crate::digest::sum_takes(parts@) == entry.size
            && crate::digest::spec_digest_hex(
            concat_chunks(crate::digest::parts_bytes(parts@)),
        ) == entry.digest@),
        r matches Ok(ds) ==> ds.0@ == entry.digest@ && ds.1 == entry.size,
        r is Err ==> r == Err::<(Vec<u8>, u64), FilerError>(FilerError::IntegrityError),
{
    match crate::digest::digest_of_parts(parts) {
        None => Err(FilerError::IntegrityError),
        Some(dt) => {
            let (digest, total) = dt;
            match verify_outcome(entry, &digest, total) {
                Ok(_) => Ok((digest, total)),
                Err(_) => Err(FilerError::IntegrityError),
            }
        },
    }
}

/// The manifest write gate: the remote manifest replaces the local one
/// only when at least one download succeeded.
pub fn should_write_manifest(download_count: u64, error_count: u64) -> (r: bool)
    requires
        error_count <= download_count,
    ensures
        r <==> error_count < download_count,
{
    download_count - error_count > 0
}

/// The image names that may be terminated before an update: the
/// basenames of download-set paths with extension `exe`, except the
/// tool's own image, each name once, in first-appearance order.
pub open spec fn spec_exe_images(paths: Seq<Seq<u8>>, seen: Seq<Seq<u8>>) -> Seq<Seq<u8>>
    decreases paths.len(),
{
    if paths.len() == 0 {
        Seq::empty()
    } else {
        let name = crate::paths::spec_basename(paths.first());
        let keep = crate::paths::spec_extension(name) == crate::paths::exe_ext() && lower_seq(name)
            != filer_exe() && !seen.contains(name);
        if keep {
            seq![name] + spec_exe_images(paths.drop_first(), seen.push(name))
        } else {
            spec_exe_images(paths.drop_first(), seen)
        }
    }
}

/// Collects the image names of [`spec_exe_images`] from the download
/// set's paths.
pub fn exe_images(paths: &Vec<Vec<u8>>) -> (r: Vec<Vec<u8>>)
    ensures
        byte_views(r@) == spec_exe_images(byte_views(paths@), Seq::empty()),
{
    let mut exe: Vec<u8> = Vec::new();
    exe.push(101);
    exe.push(120);
    exe.push(101);
    proof {
        assert(exe@ =~= crate::paths::exe_ext());
    }
    let mut filer: Vec<u8> = Vec::new();
    filer.push(102);
    filer.push(105);
    filer.push(108);
    filer.push(101);
    filer.push(114);
    filer.push(46);
    filer.push(101);
    filer.push(120);
    filer.push(101);
    proof {
        assert(filer@ =~= filer_exe());
    }
    let ghost pv = byte_views(paths@);
    let mut out: Vec<Vec<u8>> = Vec::new();
    let mut i: usize = 0;
    proof {
        assert(pv.skip(0) =~= pv);
        assert(byte_views(out@) =~= Seq::<Seq<u8>>::empty());
        assert(Seq::<Seq<u8>>::empty() + spec_exe_images(pv, Seq::empty()) =~= spec_exe_images(
            pv,
            Seq::empty(),
        ));
    }
    while i < paths.len()
        invariant
            i <= paths@.len(),
            pv == byte_views(paths@),
            exe@ == crate::paths::exe_ext(),
            filer@ == filer_exe(),
            spec_exe_images(pv, Seq::empty()) == byte_views(out@) + spec_exe_images(
                pv.skip(i as int),
                byte_views(out@),
            ),
        decreases paths@.len() - i,
    {
        proof {
            assert(pv.skip(i as int).first() == pv[i as int]);
            assert(pv.skip(i as int).drop_first() =~= pv.skip(i + 1));
        }
        let name = crate::paths::basename(&paths[i]);
        let ext = crate::paths::extension(&name);
        let low = crate::paths::lower_bytes(&name);
        if crate::paths::eq_bytes(&ext, &exe) && !crate::paths::eq_bytes(&low, &filer)
            && !crate::paths::contains_bytes(&out, &name) {
            proof {
                assert(byte_views(out@.push(name)) =~= byte_views(out@).push(name@));
                assert(byte_views(out@) + seq![name@] + spec_exe_images(
                    pv.skip(i + 1),
                    byte_views(out@).push(name@),
                ) =~= byte_views(out@.push(name)) + spec_exe_images(
                    pv.skip(i + 1),
                    byte_views(out@.push(name)),
                ));
            }
            out.push(name);
        }
        i = i + 1;
    }
    proof {
        assert(pv.skip(paths@.len() as int) =~= Seq::<Seq<u8>>::empty());
        assert(byte_views(out@) + Seq::<Seq<u8>>::empty() =~= byte_views(out@));
    }
    out
}

} // verus!
