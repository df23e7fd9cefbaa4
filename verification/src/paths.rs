//! Byte-level path helpers: ASCII lowercasing, suffix tests, basenames
//! and extensions of forward-slash paths. The special names the engine
//! treats differently (`filer.exe`, `filer.json`, `filelist.txt`, ...)
//! are all ASCII, so ASCII lowercasing decides them.

use vstd::prelude::*;

verus! {

/// Forward slash.
pub const SLASH: u8 = 47;

/// Dot.
pub const DOT: u8 = 46;

/// A byte lowercased: `A-Z` move to `a-z`, all else stays.
pub open spec fn spec_lower_byte(b: u8) -> u8 {
    if 65 <= b <= 90 {
        (b + 32) as u8
    } else {
        b
    }
}

/// A byte string lowercased byte by byte.
pub open spec fn lower_seq(s: Seq<u8>) -> Seq<u8> {
    Seq::new(s.len(), |i: int| spec_lower_byte(s[i]))
}

/// True when `s` ends with `suffix`.
pub open spec fn ends_with(s: Seq<u8>, suffix: Seq<u8>) -> bool {
    s.len() >= suffix.len() && s.skip(s.len() - suffix.len()) == suffix
}

/// The bytes `filer.json`.
pub open spec fn filer_json() -> Seq<u8> {
    seq![102u8, 105, 108, 101, 114, 46, 106, 115, 111, 110]
}

/// The bytes `filer.exe.new`.
pub open spec fn filer_exe_new() -> Seq<u8> {
    seq![102u8, 105, 108, 101, 114, 46, 101, 120, 101, 46, 110, 101, 119]
}

/// The bytes `filer.exe`.
pub open spec fn filer_exe() -> Seq<u8> {
    seq![102u8, 105, 108, 101, 114, 46, 101, 120, 101]
}

/// The bytes `.new`.
pub open spec fn dot_new() -> Seq<u8> {
    seq![46u8, 110, 101, 119]
}

/// The bytes `exe`.
pub open spec fn exe_ext() -> Seq<u8> {
    seq![101u8, 120, 101]
}

/// The bytes `filelist.txt`.
pub open spec fn filelist_txt() -> Seq<u8> {
    seq![102u8, 105, 108, 101, 108, 105, 115, 116, 46, 116, 120, 116]
}

/// Lowercases a byte string.
pub fn lower_bytes(s: &Vec<u8>) -> (r: Vec<u8>)
    ensures
        r@ == lower_seq(s@),
{
    let mut out: Vec<u8> = Vec::new();
    let mut i: usize = 0;
    while i < s.len()
        invariant
            i <= s@.len(),
            out@.len() == i,
            forall|j: int| 0 <= j < i ==> out@[j] == spec_lower_byte(s@[j]),
        decreases s@.len() - i,
    {
        let b = s[i];
        if 65 <= b && b <= 90 {
            out.push(b + 32);
        } else {
            out.push(b);
        }
        i = i + 1;
    }
    proof {
        assert(out@ =~= lower_seq(s@));
    }
    out
}

/// True when `s` ends with `suffix`.
pub fn ends_with_bytes(s: &Vec<u8>, suffix: &Vec<u8>) -> (r: bool)
    ensures
        r == ends_with(s@, suffix@),
{
    let n = s.len();
    let m = suffix.len();
    if n < m {
        return false;
    }
    let off = n - m;
    let mut i: usize = 0;
    while i < m
        invariant
            m <= n,
            n == s@.len(),
            m == suffix@.len(),
            off == n - m,
            i <= m,
            forall|j: int| 0 <= j < i ==> s@[off + j] == suffix@[j],
        decreases m - i,
    {
        if s[off + i] != suffix[i] {
            proof {
                assert(s@.skip(off as int)[i as int] != suffix@[i as int]);
            }
            return false;
        }
        i = i + 1;
    }
    proof {
        assert(s@.skip(off as int) =~= suffix@);
    }
    true
}

/// True when the path, lowercased, ends with the given (lowercase)
/// suffix.
pub fn has_lower_suffix(path: &Vec<u8>, suffix: &Vec<u8>) -> (r: bool)
    ensures
        r == ends_with(lower_seq(path@), suffix@),
{
    let low = lower_bytes(path);
    ends_with_bytes(&low, suffix)
}

/// Index just past the last occurrence of `b`, or 0 when `b` does not
/// occur: where a basename (after `/`) or extension (after `.`) starts.
pub open spec fn after_last(s: Seq<u8>, b: u8) -> int
    decreases s.len(),
{
    if s.len() == 0 {
        0
    } else if s.last() == b {
        s.len() as int
    } else {
        after_last(s.drop_last(), b)
    }
}

/// Where [`after_last`] lands: in range, just past a `b`, with none
/// after it.
pub proof fn lemma_after_last(s: Seq<u8>, b: u8)
    ensures
        0 <= after_last(s, b) <= s.len(),
        after_last(s, b) > 0 ==> s[after_last(s, b) - 1] == b,
        forall|i: int| after_last(s, b) <= i < s.len() ==> s[i] != b,
    decreases s.len(),
{
    if s.len() == 0 {
    } else if s.last() == b {
    } else {
        lemma_after_last(s.drop_last(), b);
        assert(forall|i: int| 0 <= i < s.len() - 1 ==> s[i] == s.drop_last()[i]);
    }
}

/// Scans for the position just past the last occurrence of `b`.
pub fn after_last_byte(s: &Vec<u8>, b: u8) -> (r: usize)
    ensures
        r == after_last(s@, b),
{
    let n = s.len();
    let mut k = n;
    proof {
        assert(s@.take(n as int) =~= s@);
    }
    while k > 0
        invariant
            k <= n,
            n == s@.len(),
            after_last(s@, b) == after_last(s@.take(k as int), b),
        decreases k,
    {
        proof {
            assert(s@.take(k as int).drop_last() =~= s@.take(k - 1));
            assert(s@.take(k as int).last() == s@[k - 1]);
        }
        if s[k - 1] == b {
            return k;
        }
        k = k - 1;
    }
    proof {
        assert(s@.take(0) =~= Seq::<u8>::empty());
    }
    0
}

/// Compares two byte strings.
pub fn eq_bytes(a: &Vec<u8>, b: &Vec<u8>) -> (r: bool)
    ensures
        r == (a@ == b@),
{
    if a.len() != b.len() {
        return false;
    }
    let mut i: usize = 0;
    while i < a.len()
        invariant
            a@.len() == b@.len(),
            i <= a@.len(),
            forall|j: int| 0 <= j < i ==> a@[j] == b@[j],
        decreases a@.len() - i,
    {
        if a[i] != b[i] {
            return false;
        }
        i = i + 1;
    }
    proof {
        assert(a@ =~= b@);
    }
    true
}

/// The views of a list of byte strings.
pub open spec fn byte_views(v: Seq<Vec<u8>>) -> Seq<Seq<u8>> {
    v.map_values(|x: Vec<u8>| x@)
}

/// True when the list holds these bytes.
pub fn contains_bytes(v: &Vec<Vec<u8>>, x: &Vec<u8>) -> (r: bool)
    ensures
        r == byte_views(v@).contains(x@),
{
    let mut i: usize = 0;
    while i < v.len()
        invariant
            i <= v@.len(),
            forall|j: int| 0 <= j < i ==> byte_views(v@)[j] != x@,
        decreases v@.len() - i,
    {
        if eq_bytes(&v[i], x) {
            assert(byte_views(v@)[i as int] == x@);
            return true;
        }
        i = i + 1;
    }
    proof {
        assert(forall|j: int| 0 <= j < byte_views(v@).len() ==> byte_views(v@)[j] != x@);
    }
    false
}

/// Copies the bytes of `s` from `a` to the end.
pub fn copy_from(s: &Vec<u8>, a: usize) -> (r: Vec<u8>)
    requires
        a <= s@.len(),
    ensures
        r@ == s@.skip(a as int),
{
    let mut out: Vec<u8> = Vec::new();
    let mut i = a;
    while i < s.len()
        invariant
            a <= i <= s@.len(),
            out@ == s@.subrange(a as int, i as int),
        decreases s@.len() - i,
    {
        out.push(s[i]);
        proof {
            assert(out@ =~= s@.subrange(a as int, i + 1));
        }
        i = i + 1;
    }
    proof {
        assert(out@ =~= s@.skip(a as int));
    }
    out
}

/// The basename of a forward-slash path: everything after the last
/// slash.
pub open spec fn spec_basename(p: Seq<u8>) -> Seq<u8> {
    p.skip(after_last(p, SLASH))
}

/// Copies the basename of a path.
pub fn basename(p: &Vec<u8>) -> (r: Vec<u8>)
    ensures
        r@ == spec_basename(p@),
{
    let start = after_last_byte(p, SLASH);
    proof {
        lemma_after_last(p@, SLASH);
    }
    copy_from(p, start)
}

/// The extension of a basename: the bytes after its last dot, provided
/// the dot is neither first nor absent.
pub open spec fn spec_extension(name: Seq<u8>) -> Seq<u8> {
    let d = after_last(name, DOT);
    if d >= 2 {
        name.skip(d)
    } else {
        Seq::empty()
    }
}

/// Copies the extension of a basename; empty when there is none or the
/// name starts with its only dot.
pub fn extension(name: &Vec<u8>) -> (r: Vec<u8>)
    ensures
        r@ == spec_extension(name@),
{
    let d = after_last_byte(name, DOT);
    proof {
        lemma_after_last(name@, DOT);
    }
    if d >= 2 {
        copy_from(name, d)
    } else {
        proof {
            assert(Seq::<u8>::empty() =~= spec_extension(name@));
        }
        Vec::new()
    }
}

} // verus!
