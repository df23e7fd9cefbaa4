//! The manifest format: `filelist.txt` lists one `digest,size,path` line
//! per file, CRLF-terminated, with no trailing CRLF. Parsing drops blank
//! lines and demands exactly three fields per line, a 64-byte digest and
//! a decimal size; emitting joins the entries back in order.

use vstd::prelude::*;
use vstd::slice::slice_to_vec;
use vstd::utf8::encode_utf8;

use crate::errors::FilerError;

verus! {

/// Carriage return.
pub const CR: u8 = 13;

/// Line feed.
pub const LF: u8 = 10;

/// Comma, the field separator.
pub const COMMA: u8 = 44;

/// One manifest entry: the BLAKE3 digest of a file's bytes as 64
/// lowercase hex digits, its size, and its path relative to the catalog
/// root with forward slashes.
#[derive(Debug, PartialEq, Eq)]
pub struct FileEntry {
    pub digest: Vec<u8>,
    pub size: u64,
    pub path: Vec<u8>,
}

/// The mathematical shadow of a [`FileEntry`].
pub ghost struct EntryView {
    pub digest: Seq<u8>,
    pub size: u64,
    pub path: Seq<u8>,
}

impl View for FileEntry {
    type V = EntryView;

    open spec fn view(&self) -> EntryView {
        EntryView { digest: self.digest@, size: self.size, path: self.path@ }
    }
}

impl FileEntry {
    /// A copy whose fields carry the same bytes and size.
    pub fn duplicate(&self) -> (r: FileEntry)
        ensures
            r@ == self@,
    {
        FileEntry {
            digest: crate::parts::copy_bytes(&self.digest),
            size: self.size,
            path: crate::parts::copy_bytes(&self.path),
        }
    }
}

/// The views of a sequence of entries.
pub open spec fn entry_views(s: Seq<FileEntry>) -> Seq<EntryView> {
    s.map_values(|e: FileEntry| e@)
}

/// Index of the first CRLF pair at or after `from`, or the length of
/// `s` when no pair follows.
pub open spec fn find_crlf(s: Seq<u8>, from: int) -> int
    recommends
        0 <= from <= s.len(),
    decreases s.len() - from,
        when 0 <= from <= s.len()
{
    if from + 1 >= s.len() {
        s.len() as int
    } else if s[from] == CR && s[from + 1] == LF {
        from
    } else {
        find_crlf(s, from + 1)
    }
}

/// Where [`find_crlf`] lands: at or after `from`, within the sequence,
/// and on a CRLF pair unless it reaches the end.
pub proof fn lemma_find_crlf_bounds(s: Seq<u8>, from: int)
    requires
        0 <= from <= s.len(),
    ensures
        from <= find_crlf(s, from) <= s.len(),
        find_crlf(s, from) < s.len() ==> {
            &&& find_crlf(s, from) + 1 < s.len()
            &&& s[find_crlf(s, from)] == CR
            &&& s[find_crlf(s, from) + 1] == LF
        },
    decreases s.len() - from,
{
    if from + 1 >= s.len() {
    } else if s[from] == CR && s[from + 1] == LF {
    } else {
        lemma_find_crlf_bounds(s, from + 1);
    }
}

/// [`find_crlf`] finds `j` exactly when no CRLF pair starts before `j`
/// and one starts at `j` (or `j` is the end).
pub proof fn lemma_find_crlf_at(s: Seq<u8>, from: int, j: int)
    requires
        0 <= from <= j <= s.len(),
        forall|i: int|
            from <= i < j ==> !(#[trigger] s[i] == CR && i + 1 < s.len() && s[i + 1] == LF),
        j == s.len() || (j + 1 < s.len() && s[j] == CR && s[j + 1] == LF),
    ensures
        find_crlf(s, from) == j,
    decreases j - from,
{
    if from == j {
    } else {
        lemma_find_crlf_at(s, from + 1, j);
    }
}

/// Index of the first comma at or after `from`, or the length of `s`.
pub open spec fn find_comma(s: Seq<u8>, from: int) -> int
    recommends
        0 <= from <= s.len(),
    decreases s.len() - from,
        when 0 <= from <= s.len()
{
    if from >= s.len() {
        s.len() as int
    } else if s[from] == COMMA {
        from
    } else {
        find_comma(s, from + 1)
    }
}

/// Where [`find_comma`] lands.
pub proof fn lemma_find_comma_bounds(s: Seq<u8>, from: int)
    requires
        0 <= from <= s.len(),
    ensures
        from <= find_comma(s, from) <= s.len(),
        find_comma(s, from) < s.len() ==> s[find_comma(s, from)] == COMMA,
    decreases s.len() - from,
{
    if from >= s.len() {
    } else if s[from] == COMMA {
    } else {
        lemma_find_comma_bounds(s, from + 1);
    }
}

/// [`find_comma`] finds `j` exactly when no comma sits before `j` and
/// one sits at `j` (or `j` is the end).
pub proof fn lemma_find_comma_at(s: Seq<u8>, from: int, j: int)
    requires
        0 <= from <= j <= s.len(),
        forall|i: int| from <= i < j ==> s[i] != COMMA,
        j == s.len() || s[j] == COMMA,
    ensures
        find_comma(s, from) == j,
    decreases j - from,
{
    if from == j {
    } else {
        lemma_find_comma_at(s, from + 1, j);
    }
}

/// True for the bytes `0-9`.
pub open spec fn is_digit(c: u8) -> bool {
    48 <= c <= 57
}

/// True when `s` spells a nonempty run of decimal digits.
pub open spec fn all_digits(s: Seq<u8>) -> bool {
    forall|i: int| 0 <= i < s.len() ==> is_digit(s[i])
}

/// The number a digit run spells.
pub open spec fn dec_value(s: Seq<u8>) -> int
    recommends
        all_digits(s),
    decreases s.len(),
{
    if s.len() == 0 {
        0
    } else {
        dec_value(s.drop_last()) * 10 + (s.last() - 48)
    }
}

/// True when `s` is a decimal rendering that fits a `u64`.
pub open spec fn is_dec_u64(s: Seq<u8>) -> bool {
    s.len() >= 1 && all_digits(s) && dec_value(s) <= u64::MAX
}

/// The decimal digits of `n`, most significant first, no sign, no
/// leading zero.
pub open spec fn spec_dec(n: int) -> Seq<u8>
    recommends
        0 <= n,
    decreases n,
        when 0 <= n
{
    if n < 10 {
        seq![(48 + n) as u8]
    } else {
        spec_dec(n / 10).push((48 + n % 10) as u8)
    }
}

/// What one entry looks like on the wire.
pub open spec fn spec_entry_line(e: EntryView) -> Seq<u8> {
    e.digest + seq![COMMA] + spec_dec(e.size as int) + seq![COMMA] + e.path
}

/// The manifest text for a sequence of entries: lines joined by CRLF,
/// no trailing CRLF.
pub open spec fn spec_emit(v: Seq<EntryView>) -> Seq<u8>
    decreases v.len(),
{
    if v.len() == 0 {
        Seq::empty()
    } else if v.len() == 1 {
        spec_entry_line(v[0])
    } else {
        spec_emit(v.drop_last()) + seq![CR, LF] + spec_entry_line(v.last())
    }
}

/// The entry a single nonempty line spells, if it has exactly three
/// fields, a 64-byte digest and a decimal size.
pub open spec fn spec_parse_line(line: Seq<u8>) -> Option<EntryView> {
    let c1 = find_comma(line, 0);
    if c1 == line.len() {
        None
    } else {
        let c2 = find_comma(line, c1 + 1);
        if c2 == line.len() {
            None
        } else if find_comma(line, c2 + 1) != line.len() {
            None
        } else {
            let digest = line.subrange(0, c1);
            let sizef = line.subrange(c1 + 1, c2);
            let path = line.subrange(c2 + 1, line.len() as int);
            if digest.len() == 64 && is_dec_u64(sizef) {
                Some(EntryView { digest, size: dec_value(sizef) as u64, path })
            } else {
                None
            }
        }
    }
}

/// The entries spelled by the manifest text from position `from` on:
/// blank lines are dropped, and any malformed line spoils the whole
/// parse.
pub open spec fn spec_parse_from(s: Seq<u8>, from: int) -> Option<Seq<EntryView>>
    recommends
        0 <= from <= s.len(),
    decreases s.len() - from + 1,
        when 0 <= from <= s.len()
        via spec_parse_from_decreases
{
    let j = find_crlf(s, from);
    let line = s.subrange(from, j);
    if j == s.len() {
        if line.len() == 0 {
            Some(Seq::empty())
        } else {
            match spec_parse_line(line) {
                Some(e) => Some(seq![e]),
                None => None,
            }
        }
    } else {
        match spec_parse_from(s, j + 2) {
            None => None,
            Some(rest) => if line.len() == 0 {
                Some(rest)
            } else {
                match spec_parse_line(line) {
                    Some(e) => Some(seq![e] + rest),
                    None => None,
                }
            },
        }
    }
}

#[via_fn]
proof fn spec_parse_from_decreases(s: Seq<u8>, from: int) {
    if 0 <= from <= s.len() {
        lemma_find_crlf_bounds(s, from);
    }
}

/// The whole manifest text parsed from its start.
pub open spec fn spec_parse_manifest(s: Seq<u8>) -> Option<Seq<EntryView>> {
    spec_parse_from(s, 0)
}

/// Scans for the next CRLF pair.
fn find_crlf_from(s: &Vec<u8>, from: usize) -> (r: usize)
    requires
        from <= s@.len(),
    ensures
        r == find_crlf(s@, from as int),
{
    let n = s.len();
    let mut q = from;
    while q < n && q + 1 < n
        invariant
            from <= q,
            q <= n,
            n == s@.len(),
            find_crlf(s@, from as int) == find_crlf(s@, q as int),
        decreases n - q,
    {
        if s[q] == CR && s[q + 1] == LF {
            return q;
        }
        q = q + 1;
    }
    n
}

/// Scans for the next comma.
fn find_comma_from(s: &Vec<u8>, from: usize) -> (r: usize)
    requires
        from <= s@.len(),
    ensures
        r == find_comma(s@, from as int),
{
    let n = s.len();
    let mut q = from;
    while q < n
        invariant
            from <= q,
            q <= n,
            n == s@.len(),
            find_comma(s@, from as int) == find_comma(s@, q as int),
        decreases n - q,
    {
        if s[q] == COMMA {
            return q;
        }
        q = q + 1;
    }
    n
}

/// Copies the bytes of `s` between `a` and `b`.
pub(crate) fn copy_range(s: &Vec<u8>, a: usize, b: usize) -> (r: Vec<u8>)
    requires
        a <= b <= s@.len(),
    ensures
        r@ == s@.subrange(a as int, b as int),
{
    let mut out: Vec<u8> = Vec::new();
    let mut i = a;
    while i < b
        invariant
            a <= i <= b <= s@.len(),
            out@ == s@.subrange(a as int, i as int),
        decreases b - i,
    {
        out.push(s[i]);
        proof {
            assert(out@ =~= s@.subrange(a as int, i + 1));
        }
        i = i + 1;
    }
    out
}

/// Reads a decimal `u64` from a digit run; anything else, or a value
/// past `u64::MAX`, is rejected.
pub(crate) fn parse_dec_u64(s: &Vec<u8>) -> (r: Option<u64>)
    ensures
        r is Some <==> is_dec_u64(s@),
        r matches Some(n) ==> n == dec_value(s@),
{
    let len = s.len();
    if len == 0 {
        return None;
    }
    let mut acc: u64 = 0;
    let mut i: usize = 0;
    while i < len
        invariant
            i <= len,
            len == s@.len(),
            all_digits(s@.subrange(0, i as int)),
            acc == dec_value(s@.subrange(0, i as int)),
        decreases len - i,
    {
        let c = s[i];
        if c < 48 || c > 57 {
            return None;
        }
        let d = (c - 48) as u64;
        if acc > (u64::MAX - d) / 10 {
            proof {
                assert(s@.subrange(0, i + 1).drop_last() =~= s@.subrange(0, i as int));
                assert(s@.subrange(0, i + 1).last() == s@[i as int]);
                assert(dec_value(s@.subrange(0, i + 1)) > u64::MAX);
                if all_digits(s@) {
                    lemma_dec_prefix_monotone(s@, i as int);
                }
                assert(!is_dec_u64(s@));
            }
            return None;
        }
        acc = acc * 10 + d;
        proof {
            assert(s@.subrange(0, i + 1).drop_last() =~= s@.subrange(0, i as int));
            assert(s@.subrange(0, i + 1).last() == s@[i as int]);
        }
        i = i + 1;
    }
    proof {
        assert(s@.subrange(0, len as int) =~= s@);
    }
    Some(acc)
}

/// A digit run's value is nonnegative.
proof fn lemma_dec_value_nonneg(s: Seq<u8>)
    requires
        all_digits(s),
    ensures
        dec_value(s) >= 0,
    decreases s.len(),
{
    if s.len() > 0 {
        assert(all_digits(s.drop_last()));
        lemma_dec_value_nonneg(s.drop_last());
    }
}

/// A digit run's value only grows as it is extended.
proof fn lemma_dec_prefix_monotone(s: Seq<u8>, i: int)
    requires
        0 <= i < s.len(),
        all_digits(s),
    ensures
        dec_value(s) >= dec_value(s.subrange(0, i + 1)),
    decreases s.len() - i,
{
    if i + 1 == s.len() {
        assert(s.subrange(0, i + 1) =~= s);
    } else {
        lemma_dec_prefix_monotone(s, i + 1);
        assert(s.subrange(0, i + 2).drop_last() =~= s.subrange(0, i + 1));
        assert(all_digits(s.subrange(0, i + 1)));
        lemma_dec_value_nonneg(s.subrange(0, i + 1));
        assert(dec_value(s.subrange(0, i + 2)) >= dec_value(s.subrange(0, i + 1)));
    }
}

/// Parses one nonempty line.
fn parse_line(line: &Vec<u8>) -> (r: Option<FileEntry>)
    ensures
        r is Some <==> spec_parse_line(line@) is Some,
        r matches Some(e) ==> Some(e@) == spec_parse_line(line@),
{
    let n = line.len();
    let c1 = find_comma_from(line, 0);
    proof {
        lemma_find_comma_bounds(line@, 0);
    }
    if c1 == n {
        return None;
    }
    let c2 = find_comma_from(line, c1 + 1);
    proof {
        lemma_find_comma_bounds(line@, c1 + 1);
    }
    if c2 == n {
        return None;
    }
    let c3 = find_comma_from(line, c2 + 1);
    proof {
        lemma_find_comma_bounds(line@, c2 + 1);
    }
    if c3 != n {
        return None;
    }
    let digest = copy_range(line, 0, c1);
    let sizef = copy_range(line, c1 + 1, c2);
    let path = copy_range(line, c2 + 1, n);
    if digest.len() != 64 {
        return None;
    }
    match parse_dec_u64(&sizef) {
        None => None,
        Some(size) => Some(FileEntry { digest, size, path }),
    }
}

/// Parses a whole manifest, as fetched or read from disk.
///
/// Succeeds exactly when every nonempty CRLF-separated line has the
/// `digest,size,path` shape; blank lines are dropped.
pub fn parse_manifest_bytes(s: &Vec<u8>) -> (r: Result<Vec<FileEntry>, FilerError>)
    ensures
        r is Ok <==> spec_parse_manifest(s@) is Some,
        r matches Ok(v) ==> Some(entry_views(v@)) == spec_parse_manifest(s@),
        r is Err ==> r == Err::<Vec<FileEntry>, FilerError>(FilerError::ManifestParse),
{
    let n = s.len();
    let mut p: usize = 0;
    let mut done: bool = false;
    let mut acc: Vec<FileEntry> = Vec::new();
    while !done
        invariant
            n == s@.len(),
            p <= n,
            !done ==> match spec_parse_from(s@, p as int) {
                Some(rest) => spec_parse_manifest(s@) == Some(entry_views(acc@) + rest),
                None => spec_parse_manifest(s@) is None,
            },
            done ==> spec_parse_manifest(s@) == Some(entry_views(acc@)),
        decreases n - p + (if done { 0int } else { 1int }),
    {
        let j = find_crlf_from(s, p);
        proof {
            lemma_find_crlf_bounds(s@, p as int);
        }
        if j > p {
            let line = copy_range(s, p, j);
            match parse_line(&line) {
                None => {
                    return Err(FilerError::ManifestParse);
                },
                Some(e) => {
                    proof {
                        assert(entry_views(acc@.push(e)) =~= entry_views(acc@) + seq![e@]);
                    }
                    acc.push(e);
                },
            }
        }
        if j == n {
            done = true;
        } else {
            p = j + 2;
        }
    }
    Ok(acc)
}

/// Appends the decimal digits of `n`.
pub(crate) fn push_dec(out: &mut Vec<u8>, n: u64)
    ensures
        final(out)@ == old(out)@ + spec_dec(n as int),
    decreases n,
{
    if n < 10 {
        out.push(48 + n as u8);
    } else {
        push_dec(out, n / 10);
        out.push(48 + (n % 10) as u8);
    }
}

/// Renders the entries as manifest text: one `digest,size,path` line
/// each, CRLF between lines, nothing after the last.
pub fn emit_file_list(entries: &Vec<FileEntry>) -> (r: Vec<u8>)
    ensures
        r@ == spec_emit(entry_views(entries@)),
{
    let ghost v = entry_views(entries@);
    let n = entries.len();
    let mut out: Vec<u8> = Vec::new();
    let mut k: usize = 0;
    while k < n
        invariant
            n == entries@.len(),
            k <= n,
            v == entry_views(entries@),
            out@ == spec_emit(v.take(k as int)),
        decreases n - k,
    {
        if k > 0 {
            out.push(CR);
            out.push(LF);
        }
        let e = &entries[k];
        let mut dg = crate::parts::copy_bytes(&e.digest);
        out.append(&mut dg);
        out.push(COMMA);
        push_dec(&mut out, e.size);
        out.push(COMMA);
        let mut pa = crate::parts::copy_bytes(&e.path);
        out.append(&mut pa);
        proof {
            assert(v.take(k + 1).drop_last() =~= v.take(k as int));
            assert(v.take(k + 1).last() == v[k as int]);
            if k == 0 {
                assert(out@ =~= spec_entry_line(v[0]));
                assert(v.take(1).len() == 1);
                assert(out@ == spec_emit(v.take(1)));
            } else {
                assert(out@ =~= spec_emit(v.take(k as int)) + seq![CR, LF] + spec_entry_line(
                    v[k as int],
                ));
                assert(out@ == spec_emit(v.take(k + 1)));
            }
        }
        k = k + 1;
    }
    proof {
        assert(v.take(n as int) =~= v);
    }
    out
}

/// True when `s` holds no comma.
pub open spec fn no_comma(s: Seq<u8>) -> bool {
    forall|i: int| 0 <= i < s.len() ==> s[i] != COMMA
}

/// True when `s` holds no CRLF pair.
pub open spec fn no_crlf(s: Seq<u8>) -> bool {
    forall|i: int| 0 <= i < s.len() - 1 ==> !(#[trigger] s[i] == CR && s[i + 1] == LF)
}

/// A well-formed entry: a 64-hex-digit digest and a path free of the
/// field and line separators. Exactly these render to lines that parse
/// back.
pub open spec fn wf_entry(e: EntryView) -> bool {
    &&& e.digest.len() == 64
    &&& crate::base16::all_hex(e.digest)
    &&& no_comma(e.path)
    &&& no_crlf(e.path)
}

/// A well-formed manifest: every entry well-formed.
pub open spec fn wf_manifest(v: Seq<EntryView>) -> bool {
    forall|i: int| 0 <= i < v.len() ==> wf_entry(#[trigger] v[i])
}

/// The decimal rendering of `n` is a nonempty digit run spelling `n`.
pub proof fn lemma_dec_roundtrip(n: int)
    requires
        0 <= n,
    ensures
        spec_dec(n).len() >= 1,
        all_digits(spec_dec(n)),
        dec_value(spec_dec(n)) == n,
    decreases n,
{
    if n < 10 {
        let single = seq![(48 + n) as u8];
        assert(single.drop_last() =~= Seq::<u8>::empty());
        assert(single.last() == (48 + n) as u8);
        assert(dec_value(single) == dec_value(Seq::<u8>::empty()) * 10 + n);
        assert(dec_value(spec_dec(n)) == n);
    } else {
        lemma_dec_roundtrip(n / 10);
        let d = spec_dec(n / 10);
        let full = d.push((48 + n % 10) as u8);
        assert(full.drop_last() =~= d);
        assert(full.last() == (48 + n % 10) as u8);
        assert(dec_value(full) == dec_value(d) * 10 + n % 10);
        vstd::arithmetic::div_mod::lemma_fundamental_div_mod(n, 10);
        assert(dec_value(full) == n);
        assert(forall|i: int| 0 <= i < full.len() ==> is_digit(full[i]));
    }
}

/// A well-formed entry's line parses back to the entry.
proof fn lemma_parse_entry_line(e: EntryView)
    requires
        wf_entry(e),
    ensures
        spec_parse_line(spec_entry_line(e)) == Some(e),
        no_crlf(spec_entry_line(e)),
        spec_entry_line(e).len() > 0,
{
    let l = spec_entry_line(e);
    let dec = spec_dec(e.size as int);
    lemma_dec_roundtrip(e.size as int);
    let dlen = dec.len() as int;
    let c2 = 65 + dlen;
    assert(l.len() == 66 + dlen + e.path.len());
    assert forall|i: int| 0 <= i < 64 implies l[i] != COMMA by {
        assert(l[i] == e.digest[i]);
        assert(crate::base16::spec_is_hex_digit(e.digest[i]));
    }
    assert(l[64] == COMMA);
    lemma_find_comma_at(l, 0, 64);
    assert forall|i: int| 65 <= i < c2 implies l[i] != COMMA by {
        assert(l[i] == dec[i - 65]);
        assert(is_digit(dec[i - 65]));
    }
    assert(l[c2] == COMMA);
    lemma_find_comma_at(l, 65, c2);
    assert forall|i: int| c2 + 1 <= i < l.len() implies l[i] != COMMA by {
        assert(l[i] == e.path[i - c2 - 1]);
    }
    lemma_find_comma_at(l, c2 + 1, l.len() as int);
    assert(l.subrange(0, 64) =~= e.digest);
    assert(l.subrange(65, c2) =~= dec);
    assert(l.subrange(c2 + 1, l.len() as int) =~= e.path);
    assert(is_dec_u64(dec));
    assert(dec_value(dec) as u64 == e.size);
    // No CRLF pair: CR appears in the path alone, where pairs are
    // excluded; the other bytes are hex digits, digits and commas.
    assert forall|i: int| 0 <= i < l.len() - 1 implies !(#[trigger] l[i] == CR && l[i + 1] == LF)
        by {
        if i < 64 {
            assert(l[i] == e.digest[i]);
            assert(crate::base16::spec_is_hex_digit(e.digest[i]));
        } else if i == 64 || i == c2 {
            assert(l[i] == COMMA);
        } else if i < c2 {
            assert(l[i] == dec[i - 65]);
            assert(is_digit(dec[i - 65]));
        } else {
            assert(l[i] == e.path[i - c2 - 1]);
            if i + 1 < l.len() {
                assert(l[i + 1] == e.path[i - c2]);
            }
        }
    }
}

/// The manifest text of two or more entries starts with the first
/// entry's line, a CRLF, and the text of the rest.
proof fn lemma_emit_head(v: Seq<EntryView>)
    requires
        v.len() >= 2,
    ensures
        spec_emit(v) == spec_entry_line(v[0]) + seq![CR, LF] + spec_emit(v.drop_first()),
    decreases v.len(),
{
    if v.len() == 2 {
        assert(v.drop_last() =~= seq![v[0]]);
        assert(v.drop_first() =~= seq![v[1]]);
        assert(spec_emit(v.drop_last()) == spec_entry_line(v[0]));
        assert(spec_emit(v.drop_first()) == spec_entry_line(v[1]));
    } else {
        lemma_emit_head(v.drop_last());
        assert(v.drop_last().drop_first() =~= v.drop_first().drop_last());
        assert(v.drop_last()[0] == v[0]);
        assert(v.drop_first().last() == v.last());
        assert(spec_emit(v) == spec_emit(v.drop_last()) + seq![CR, LF] + spec_entry_line(v.last()));
        assert(spec_emit(v) =~= spec_entry_line(v[0]) + seq![CR, LF] + (spec_emit(
            v.drop_first().drop_last(),
        ) + seq![CR, LF] + spec_entry_line(v.drop_first().last())));
    }
}

/// Searching for a CRLF pair from `q` is searching the tail cut at `p`.
proof fn lemma_find_crlf_shift(s: Seq<u8>, p: int, q: int)
    requires
        0 <= p <= q <= s.len(),
    ensures
        find_crlf(s, q) == p + find_crlf(s.skip(p), q - p),
    decreases s.len() - q,
{
    let t = s.skip(p);
    if q + 1 >= s.len() {
    } else if s[q] == CR && s[q + 1] == LF {
        assert(t[q - p] == s[q]);
        assert(t[q - p + 1] == s[q + 1]);
    } else {
        assert(t[q - p] == s[q]);
        if q - p + 1 < t.len() {
            assert(t[q - p + 1] == s[q + 1]);
        }
        lemma_find_crlf_shift(s, p, q + 1);
    }
}

/// Parsing from position `p` is parsing the tail cut at `p`.
proof fn lemma_parse_shift(s: Seq<u8>, p: int)
    requires
        0 <= p <= s.len(),
    ensures
        spec_parse_from(s, p) == spec_parse_manifest(s.skip(p)),
    decreases s.len() - p,
{
    let t = s.skip(p);
    lemma_find_crlf_shift(s, p, p);
    let j = find_crlf(s, p);
    let j0 = j - p;
    lemma_find_crlf_bounds(s, p);
    lemma_find_crlf_bounds(t, 0);
    assert(s.subrange(p, j) =~= t.subrange(0, j0));
    if j == s.len() {
    } else {
        lemma_parse_shift(s, j + 2);
        lemma_parse_shift(t, j0 + 2);
        assert(t.skip(j0 + 2) =~= s.skip(j + 2));
    }
}

/// Manifest round trip: a well-formed manifest, rendered and parsed
/// back, gives the same entries.
pub proof fn lemma_manifest_round_trip(v: Seq<EntryView>)
    requires
        wf_manifest(v),
    ensures
        spec_parse_manifest(spec_emit(v)) == Some(v),
    decreases v.len(),
{
    let s = spec_emit(v);
    if v.len() == 0 {
        assert(find_crlf(s, 0) == 0);
        assert(Some(Seq::<EntryView>::empty()) == Some(v));
    } else if v.len() == 1 {
        lemma_parse_entry_line(v[0]);
        let l = spec_entry_line(v[0]);
        assert(s == l);
        lemma_find_crlf_at(s, 0, s.len() as int);
        assert(s.subrange(0, s.len() as int) =~= l);
        assert(seq![v[0]] =~= v);
    } else {
        lemma_emit_head(v);
        let l = spec_entry_line(v[0]);
        let rest = v.drop_first();
        lemma_parse_entry_line(v[0]);
        let ll = l.len() as int;
        assert forall|i: int|
            0 <= i < ll implies !(#[trigger] s[i] == CR && i + 1 < s.len() && s[i + 1] == LF) by {
            if i < ll - 1 {
                assert(s[i] == l[i]);
                assert(s[i + 1] == l[i + 1]);
            } else {
                assert(s[i + 1] == CR);
            }
        }
        assert(s[ll] == CR);
        assert(s[ll + 1] == LF);
        lemma_find_crlf_at(s, 0, ll);
        assert(s.subrange(0, ll) =~= l);
        lemma_parse_shift(s, ll + 2);
        assert(s.skip(ll + 2) =~= spec_emit(rest));
        assert(wf_manifest(rest)) by {
            assert(forall|i: int| 0 <= i < rest.len() ==> #[trigger] rest[i] == v[i + 1]);
        }
        lemma_manifest_round_trip(rest);
        assert(seq![v[0]] + rest =~= v);
    }
}

/// Parses manifest text handed over as a string.
pub fn parse_file_list(s: &str) -> (r: Result<Vec<FileEntry>, FilerError>)
    ensures
        r is Ok <==> spec_parse_manifest(encode_utf8(s@)) is Some,
        r matches Ok(v) ==> Some(entry_views(v@)) == spec_parse_manifest(encode_utf8(s@)),
        r is Err ==> r == Err::<Vec<FileEntry>, FilerError>(FilerError::ManifestParse),
{
    let data = slice_to_vec(s.as_bytes());
    parse_manifest_bytes(&data)
}

} // verus!
