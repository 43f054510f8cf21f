//! The filename heuristic: decides whether a file name plausibly names a
//! license file, from its stem and extension alone.

use vstd::prelude::*;
use vstd::string::*;

verus! {

/// ASCII lowercasing of a single character; every character other than an
/// ASCII capital letter is left unchanged.
pub open spec fn lower_char(c: char) -> char {
    if 'A' <= c && c <= 'Z' {
        (c as int + 32) as char
    } else {
        c
    }
}

/// ASCII lowercasing of a character sequence.
pub open spec fn lower_seq(s: Seq<char>) -> Seq<char> {
    s.map_values(|c: char| lower_char(c))
}

/// The sequence `s` itself, or its ASCII lowercasing when `fold` is set.
pub open spec fn folded(s: Seq<char>, fold: bool) -> Seq<char> {
    if fold {
        lower_seq(s)
    } else {
        s
    }
}

/// `needle` occurs as a contiguous subsequence of `hay`.
pub open spec fn contains_seq(hay: Seq<char>, needle: Seq<char>) -> bool {
    exists|k: int|
        0 <= k && k + needle.len() <= hay.len() && #[trigger] hay.subrange(k, k + needle.len())
            == needle
}

fn lower_char_exec(c: char) -> (r: char)
    ensures
        r == lower_char(c),
{
    let n = c as u32;
    if 65 <= n && n <= 90 {
        ((n as u8) + 32) as char
    } else {
        c
    }
}

/// One character of `hay`, folded when `fold` is set.
fn read_char(hay: &str, j: usize, fold: bool) -> (r: char)
    requires
        j < hay@.len(),
    ensures
        r == folded(hay@, fold)[j as int],
{
    let c = hay.get_char(j);
    if fold {
        lower_char_exec(c)
    } else {
        c
    }
}

/// Whether `hay` (folded when `fold` is set) and `needle` match exactly at
/// offset `k`.
fn matches_at(hay: &str, needle: &str, k: usize, fold: bool) -> (r: bool)
    requires
        k + needle@.len() <= hay@.len(),
    ensures
        r == (folded(hay@, fold).subrange(k as int, k + needle@.len()) == needle@),
{
    let n = needle.unicode_len();
    let h = hay.unicode_len();
    let mut j: usize = 0;
    while j < n
        invariant
            0 <= j <= n,
            n == needle@.len(),
            h == hay@.len(),
            k + n <= h,
            forall|i: int| 0 <= i < j ==> folded(hay@, fold)[k + i] == needle@[i],
        decreases n - j,
    {
        if read_char(hay, k + j, fold) != needle.get_char(j) {
            assert(folded(hay@, fold).subrange(k as int, k + needle@.len()) != needle@) by {
                assert(folded(hay@, fold).subrange(k as int, k + needle@.len())[j as int]
                    == folded(hay@, fold)[k + j]);
            }
            return false;
        }
        j += 1;
    }
    assert(folded(hay@, fold).subrange(k as int, k + needle@.len()) =~= needle@);
    true
}

/// `needle` occurs somewhere in `hay` (folded when `fold` is set).
fn str_contains(hay: &str, needle: &str, fold: bool) -> (r: bool)
    ensures
        r == contains_seq(folded(hay@, fold), needle@),
{
    let n = needle.unicode_len();
    let h = hay.unicode_len();
    if n > h {
        return false;
    }
    let mut k: usize = 0;
    loop
        invariant
            0 <= k <= h - n,
            n == needle@.len(),
            h == hay@.len(),
            n <= h,
            forall|i: int|
                0 <= i < k ==> #[trigger] folded(hay@, fold).subrange(i, i + needle@.len())
                    != needle@,
        decreases h - n - k,
    {
        if matches_at(hay, needle, k, fold) {
            return true;
        }
        if k == h - n {
            assert(forall|i: int|
                0 <= i && i + needle@.len() <= folded(hay@, fold).len() ==> #[trigger] folded(
                    hay@,
                    fold,
                ).subrange(i, i + needle@.len()) != needle@);
            return false;
        }
        k += 1;
    }
}

/// `s` (folded when `fold` is set) equals `t`.
pub(crate) fn str_eq(s: &str, t: &str, fold: bool) -> (r: bool)
    ensures
        r == (folded(s@, fold) == t@),
{
    let n = s.unicode_len();
    if n != t.unicode_len() {
        return false;
    }
    let mut j: usize = 0;
    while j < n
        invariant
            0 <= j <= n,
            n == s@.len(),
            n == t@.len(),
            forall|i: int| 0 <= i < j ==> folded(s@, fold)[i] == t@[i],
        decreases n - j,
    {
        if read_char(s, j, fold) != t.get_char(j) {
            return false;
        }
        j += 1;
    }
    assert(folded(s@, fold) =~= t@);
    true
}

/// True iff the file stem contains one of the substrings that mark a
/// license file. The stem is expected to be lowercased already.
pub open spec fn spec_license_filename(f: Seq<char>) -> bool {
    contains_seq(f, "license"@) || contains_seq(f, "licence"@) || contains_seq(f, "notice"@)
        || contains_seq(f, "copying"@)
}

/// True iff the extension, expected to be lowercased already, is one that a
/// license file may carry.
pub open spec fn spec_license_ext(e: Seq<char>) -> bool {
    e.len() == 0 || e == "txt"@ || e == "md"@
}

/// Heuristic on a lowercased file stem: does it name a license file?
pub fn license_filename(filename: &str) -> (r: bool)
    ensures
        r == spec_license_filename(filename@),
{
    str_contains(filename, "license", false) || str_contains(filename, "licence", false)
        || str_contains(filename, "notice", false) || str_contains(filename, "copying", false)
}

/// Heuristic on a lowercased extension: may a license file carry it?
pub fn license_ext(ext: &str) -> (r: bool)
    ensures
        r == spec_license_ext(ext@),
{
    ext.unicode_len() == 0 || str_eq(ext, "txt", false) || str_eq(ext, "md", false)
}

/// The index of the dot that separates a file name's stem from its
/// extension: the last dot at an index above zero, or zero when there is
/// none. A name without a dot, or whose only dot leads it, has no
/// extension.
pub open spec fn split_pt(n: Seq<char>) -> int
    decreases n.len(),
{
    if n.len() <= 1 {
        0
    } else if n[n.len() - 1] == '.' {
        n.len() - 1
    } else {
        split_pt(n.drop_last())
    }
}

/// The file name's stem: everything before the separating dot, or the whole
/// name when there is no extension.
pub open spec fn stem_of(n: Seq<char>) -> Seq<char> {
    if split_pt(n) == 0 {
        n
    } else {
        n.subrange(0, split_pt(n))
    }
}

/// The file name's extension: everything after the separating dot, or empty
/// when there is no extension.
pub open spec fn ext_of(n: Seq<char>) -> Seq<char> {
    if split_pt(n) == 0 {
        Seq::empty()
    } else {
        n.subrange(split_pt(n) + 1, n.len() as int)
    }
}

proof fn lemma_split_pt_found(n: Seq<char>, k: int)
    requires
        1 <= k < n.len(),
        n[k] == '.',
        forall|j: int| k < j < n.len() ==> n[j] != '.',
    ensures
        split_pt(n) == k,
    decreases n.len(),
{
    if k == n.len() - 1 {
    } else {
        assert(n.drop_last() =~= n.subrange(0, n.len() - 1));
        lemma_split_pt_found(n.drop_last(), k);
    }
}

proof fn lemma_split_pt_none(n: Seq<char>)
    requires
        forall|j: int| 1 <= j < n.len() ==> n[j] != '.',
    ensures
        split_pt(n) == 0,
    decreases n.len(),
{
    if n.len() > 1 {
        lemma_split_pt_none(n.drop_last());
    }
}

/// The index of the stem/extension separator, computed by walking the name
/// backwards.
fn split_point(name: &str) -> (r: usize)
    ensures
        r == split_pt(name@),
        r == 0 || 1 <= r < name@.len(),
{
    let len = name.unicode_len();
    let mut k: usize = len;
    while k > 1
        invariant
            len == name@.len(),
            1 <= k <= len || (k == 0 && len == 0),
            forall|j: int| k <= j < len ==> name@[j] != '.',
        decreases k,
    {
        if name.get_char(k - 1) == '.' {
            proof {
                lemma_split_pt_found(name@, k - 1);
            }
            return k - 1;
        }
        k -= 1;
    }
    proof {
        lemma_split_pt_none(name@);
    }
    0
}

/// True iff the name, split into stem and extension and lowercased, passes
/// the license-file heuristic: the stem holds one of the marker substrings
/// and the extension is empty, `txt` or `md`.
pub open spec fn is_license_file(name: Seq<char>) -> bool {
    spec_license_filename(lower_seq(stem_of(name))) && spec_license_ext(lower_seq(ext_of(name)))
}

/// Applies the license-file heuristic to one file name.
pub fn license_file(name: &str) -> (r: bool)
    ensures
        r == is_license_file(name@),
{
    let len = name.unicode_len();
    let sp = split_point(name);
    let stem = if sp == 0 {
        name
    } else {
        name.substring_char(0, sp)
    };
    let stem_ok = str_contains(stem, "license", true) || str_contains(stem, "licence", true)
        || str_contains(stem, "notice", true) || str_contains(stem, "copying", true);
    if !stem_ok {
        return false;
    }
    if sp == 0 {
        assert(lower_seq(ext_of(name@)).len() == 0);
        true
    } else {
        let ext = name.substring_char(sp + 1, len);
        ext.unicode_len() == 0 || str_eq(ext, "txt", true) || str_eq(ext, "md", true)
    }
}

} // verus!
