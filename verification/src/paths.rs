//! Paths as plain strings: joining with the separator, and the view of a
//! list of strings as a sequence of character sequences.

use vstd::prelude::*;
use vstd::string::*;

verus! {

/// The views of a sequence of strings.
pub open spec fn str_views(s: Seq<String>) -> Seq<Seq<char>> {
    s.map_values(|x: String| x@)
}

/// A directory path joined with the name of one of its entries.
pub open spec fn join(prefix: Seq<char>, name: Seq<char>) -> Seq<char> {
    prefix + "/"@ + name
}

/// Joins a directory path and an entry name with the separator.
pub fn join_exec(prefix: &str, name: &str) -> (r: String)
    ensures
        r@ == join(prefix@, name@),
{
    let mut s = prefix.to_owned();
    s.append("/");
    s.append(name);
    s
}

/// Lexicographic order on character sequences, by code point.
pub open spec fn lex_leq(a: Seq<char>, b: Seq<char>) -> bool
    decreases a.len(),
{
    if a.len() == 0 {
        true
    } else if b.len() == 0 {
        false
    } else if a[0] != b[0] {
        (a[0] as int) < (b[0] as int)
    } else {
        lex_leq(a.drop_first(), b.drop_first())
    }
}

/// The lexicographic order is reflexive.
pub proof fn lemma_lex_refl(a: Seq<char>)
    ensures
        lex_leq(a, a),
    decreases a.len(),
{
    if a.len() > 0 {
        lemma_lex_refl(a.drop_first());
    }
}

/// The lexicographic order is total.
pub proof fn lemma_lex_total(a: Seq<char>, b: Seq<char>)
    ensures
        lex_leq(a, b) || lex_leq(b, a),
    decreases a.len(),
{
    if a.len() > 0 && b.len() > 0 && a[0] == b[0] {
        lemma_lex_total(a.drop_first(), b.drop_first());
    }
}

/// The lexicographic order is transitive.
pub proof fn lemma_lex_trans(a: Seq<char>, b: Seq<char>, c: Seq<char>)
    requires
        lex_leq(a, b),
        lex_leq(b, c),
    ensures
        lex_leq(a, c),
    decreases a.len(),
{
    if a.len() > 0 && b.len() > 0 && c.len() > 0 && a[0] == b[0] && b[0] == c[0] {
        lemma_lex_trans(a.drop_first(), b.drop_first(), c.drop_first());
    }
}

/// Compares two strings in the lexicographic order.
pub fn str_leq(a: &str, b: &str) -> (r: bool)
    ensures
        r == lex_leq(a@, b@),
{
    let an = a.unicode_len();
    let bn = b.unicode_len();
    let mut j: usize = 0;
    assert(a@.skip(0) =~= a@);
    assert(b@.skip(0) =~= b@);
    loop
        invariant
            0 <= j <= an,
            j <= bn,
            an == a@.len(),
            bn == b@.len(),
            lex_leq(a@, b@) == lex_leq(a@.skip(j as int), b@.skip(j as int)),
        decreases an - j,
    {
        if j == an {
            return true;
        }
        if j == bn {
            return false;
        }
        let ca = a.get_char(j);
        let cb = b.get_char(j);
        proof {
            assert(a@.skip(j as int)[0] == a@[j as int]);
            assert(b@.skip(j as int)[0] == b@[j as int]);
            assert(a@.skip(j as int).drop_first() =~= a@.skip(j + 1));
            assert(b@.skip(j as int).drop_first() =~= b@.skip(j + 1));
        }
        if ca != cb {
            return (ca as u32) < (cb as u32);
        }
        j += 1;
    }
}

/// `p` is a plain prefix of `s`.
pub open spec fn is_prefix(p: Seq<char>, s: Seq<char>) -> bool {
    p.len() <= s.len() && s.subrange(0, p.len() as int) == p
}

/// Tests whether `p` is a plain prefix of `s`.
pub fn str_is_prefix(p: &str, s: &str) -> (r: bool)
    ensures
        r == is_prefix(p@, s@),
{
    let pn = p.unicode_len();
    let sn = s.unicode_len();
    if pn > sn {
        return false;
    }
    let mut j: usize = 0;
    while j < pn
        invariant
            0 <= j <= pn,
            pn == p@.len(),
            sn == s@.len(),
            pn <= sn,
            forall|i: int| 0 <= i < j ==> s@[i] == p@[i],
        decreases pn - j,
    {
        if s.get_char(j) != p.get_char(j) {
            assert(s@.subrange(0, p@.len() as int) != p@) by {
                assert(s@.subrange(0, p@.len() as int)[j as int] == s@[j as int]);
            }
            return false;
        }
        j += 1;
    }
    assert(s@.subrange(0, p@.len() as int) =~= p@);
    true
}

/// A prefix of a prefix is a prefix.
pub proof fn lemma_is_prefix_trans(a: Seq<char>, b: Seq<char>, c: Seq<char>)
    requires
        is_prefix(a, b),
        is_prefix(b, c),
    ensures
        is_prefix(a, c),
{
    assert forall|i: int| 0 <= i < a.len() implies c[i] == a[i] by {
        assert(b.subrange(0, a.len() as int)[i] == b[i]);
        assert(c.subrange(0, b.len() as int)[i] == c[i]);
    }
    assert(c.subrange(0, a.len() as int) =~= a);
}

/// Two prefixes of one sequence form a chain.
pub proof fn lemma_prefix_chain(a: Seq<char>, b: Seq<char>, p: Seq<char>)
    requires
        is_prefix(a, p),
        is_prefix(b, p),
        a.len() <= b.len(),
    ensures
        is_prefix(a, b),
{
    assert forall|i: int| 0 <= i < a.len() implies b[i] == a[i] by {
        assert(p.subrange(0, a.len() as int)[i] == p[i]);
        assert(p.subrange(0, b.len() as int)[i] == p[i]);
    }
    assert(b.subrange(0, a.len() as int) =~= a);
}

/// A prefix stays one under anything appended on the right.
pub proof fn lemma_is_prefix_extend(a: Seq<char>, b: Seq<char>, c: Seq<char>)
    requires
        is_prefix(a, b),
    ensures
        is_prefix(a, b + c),
{
    assert forall|i: int| 0 <= i < a.len() implies (b + c)[i] == a[i] by {
        assert(b.subrange(0, a.len() as int)[i] == b[i]);
    }
    assert((b + c).subrange(0, a.len() as int) =~= a);
}

/// A path lies under a root directory: the root is a prefix, and the match
/// ends at a component boundary.
pub open spec fn path_starts_with(path: Seq<char>, root: Seq<char>) -> bool {
    is_prefix(root, path) && (path.len() == root.len() || path[root.len() as int] == '/' || (
    root.len() > 0 && root[root.len() - 1] == '/'))
}

/// Tests whether a path lies under a root directory.
pub fn starts_with(path: &str, root: &str) -> (r: bool)
    ensures
        r == path_starts_with(path@, root@),
{
    if !str_is_prefix(root, path) {
        return false;
    }
    let pn = path.unicode_len();
    let rn = root.unicode_len();
    if pn == rn {
        return true;
    }
    if path.get_char(rn) == '/' {
        return true;
    }
    rn > 0 && root.get_char(rn - 1) == '/'
}

/// The index of the last separator in a path, or minus one when there is
/// none.
pub open spec fn last_slash(p: Seq<char>) -> int
    decreases p.len(),
{
    if p.len() == 0 {
        -1
    } else if p[p.len() - 1] == '/' {
        p.len() - 1
    } else {
        last_slash(p.drop_last())
    }
}

/// The parent directory of a path: everything before the last separator,
/// the lone separator when the path is directly under the filesystem root,
/// and empty when the path has no separator at all.
pub open spec fn parent_of(p: Seq<char>) -> Seq<char> {
    if last_slash(p) < 0 {
        Seq::empty()
    } else if last_slash(p) == 0 {
        p.subrange(0, 1)
    } else {
        p.subrange(0, last_slash(p))
    }
}

proof fn lemma_last_slash_found(p: Seq<char>, k: int)
    requires
        0 <= k < p.len(),
        p[k] == '/',
        forall|j: int| k < j < p.len() ==> p[j] != '/',
    ensures
        last_slash(p) == k,
    decreases p.len(),
{
    if k < p.len() - 1 {
        assert(p.drop_last() =~= p.subrange(0, p.len() - 1));
        lemma_last_slash_found(p.drop_last(), k);
    }
}

proof fn lemma_last_slash_none(p: Seq<char>)
    requires
        forall|j: int| 0 <= j < p.len() ==> p[j] != '/',
    ensures
        last_slash(p) == -1,
    decreases p.len(),
{
    if p.len() > 0 {
        lemma_last_slash_none(p.drop_last());
    }
}

/// The parent directory of a path, as a fresh string.
pub fn parent_exec(p: &str) -> (r: String)
    ensures
        r@ == parent_of(p@),
{
    let len = p.unicode_len();
    let mut k: usize = len;
    while k > 0
        invariant
            0 <= k <= len,
            len == p@.len(),
            forall|j: int| k <= j < len ==> p@[j] != '/',
        decreases k,
    {
        if p.get_char(k - 1) == '/' {
            proof {
                lemma_last_slash_found(p@, k - 1);
            }
            if k == 1 {
                return p.substring_char(0, 1).to_owned();
            }
            return p.substring_char(0, k - 1).to_owned();
        }
        k -= 1;
    }
    proof {
        lemma_last_slash_none(p@);
    }
    String::new()
}

} // verus!
