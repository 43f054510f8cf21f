//! The license directory scanner: walks an in-memory directory tree
//! depth-first and collects the paths of the entries that pass the
//! license-file heuristic.

use vstd::prelude::*;
use vstd::string::*;

use crate::matcher::is_license_file;
use crate::matcher::license_file;
use crate::paths::is_prefix;
use crate::paths::join;
use crate::paths::join_exec;
use crate::paths::lemma_is_prefix_extend;
use crate::paths::lemma_is_prefix_trans;
use crate::paths::lemma_prefix_chain;
use crate::paths::str_views;

verus! {

/// One entry of a directory tree: a plain file, or a directory with its own
/// entries. The strings are bare entry names, without any separator.
pub enum FsEntry {
    File { name: String },
    Dir { name: String, entries: Vec<FsEntry> },
}

/// The paths that scanning one entry under `prefix` yields, in depth-first
/// order with a directory's entries visited in their given order.
pub open spec fn scan_entry(prefix: Seq<char>, e: FsEntry) -> Seq<Seq<char>>
    decreases e,
{
    match e {
        FsEntry::File { name } => if is_license_file(name@) {
            seq![join(prefix, name@)]
        } else {
            Seq::empty()
        },
        FsEntry::Dir { name, entries } => scan_entries(join(prefix, name@), entries@),
    }
}

/// The paths that scanning a list of sibling entries under `prefix` yields.
pub open spec fn scan_entries(prefix: Seq<char>, es: Seq<FsEntry>) -> Seq<Seq<char>>
    decreases es,
{
    if es.len() == 0 {
        Seq::empty()
    } else {
        scan_entry(prefix, es[0]) + scan_entries(prefix, es.drop_first())
    }
}

/// The paths that scanning a whole directory yields: empty when the
/// directory does not exist.
pub open spec fn scan_dir(root: Seq<char>, entries: Option<Seq<FsEntry>>) -> Seq<Seq<char>> {
    match entries {
        Option::None => Seq::empty(),
        Option::Some(es) => scan_entries(root, es),
    }
}

proof fn lemma_scan_entries_push(prefix: Seq<char>, es: Seq<FsEntry>, x: FsEntry)
    ensures
        scan_entries(prefix, es.push(x)) == scan_entries(prefix, es) + scan_entry(prefix, x),
    decreases es.len(),
{
    let whole = es.push(x);
    if es.len() == 0 {
        assert(whole[0] == x);
        assert(whole.drop_first() =~= Seq::<FsEntry>::empty());
        assert(scan_entries(prefix, Seq::<FsEntry>::empty()) == Seq::<Seq<char>>::empty());
        assert(scan_entries(prefix, whole) == scan_entry(prefix, x) + Seq::<Seq<char>>::empty());
        assert(scan_entry(prefix, x) + Seq::<Seq<char>>::empty() =~= Seq::<
            Seq<char>,
        >::empty() + scan_entry(prefix, x));
    } else {
        let tail = es.drop_first();
        lemma_scan_entries_push(prefix, tail, x);
        assert(whole[0] == es[0]);
        assert(whole.drop_first() =~= tail.push(x));
        assert(scan_entries(prefix, whole) == scan_entry(prefix, es[0]) + (scan_entries(
            prefix,
            tail,
        ) + scan_entry(prefix, x)));
        assert(scan_entry(prefix, es[0]) + (scan_entries(prefix, tail) + scan_entry(prefix, x))
            =~= (scan_entry(prefix, es[0]) + scan_entries(prefix, tail)) + scan_entry(prefix, x));
    }
}

proof fn lemma_scan_entries_take(prefix: Seq<char>, es: Seq<FsEntry>, i: int)
    requires
        0 <= i < es.len(),
    ensures
        scan_entries(prefix, es.take(i + 1)) == scan_entries(prefix, es.take(i)) + scan_entry(
            prefix,
            es[i],
        ),
{
    assert(es.take(i + 1) =~= es.take(i).push(es[i]));
    lemma_scan_entries_push(prefix, es.take(i), es[i]);
}

/// Scans one entry, appending every license-file path to `out`.
fn scan_entry_exec(prefix: &str, e: &FsEntry, out: &mut Vec<String>)
    ensures
        str_views(final(out)@) == str_views(old(out)@) + scan_entry(prefix@, *e),
    decreases *e,
{
    match e {
        FsEntry::File { name } => {
            if license_file(name.as_str()) {
                let p = join_exec(prefix, name.as_str());
                out.push(p);
                assert(str_views(out@) =~= str_views(old(out)@) + scan_entry(prefix@, *e));
            } else {
                assert(str_views(out@) =~= str_views(old(out)@) + scan_entry(prefix@, *e));
            }
        },
        FsEntry::Dir { name, entries } => {
            let child_prefix = join_exec(prefix, name.as_str());
            let ghost es = entries@;
            let mut i: usize = 0;
            assert(es.take(0) =~= Seq::<FsEntry>::empty());
            while i < entries.len()
                invariant
                    0 <= i <= entries.len(),
                    es == entries@,
                    child_prefix@ == join(prefix@, name@),
                    *e == (FsEntry::Dir { name: *name, entries: *entries }),
                    str_views(out@) == str_views(old(out)@) + scan_entries(
                        child_prefix@,
                        es.take(i as int),
                    ),
                decreases entries.len() - i,
            {
                proof {
                    assert(decreases_to!(*e => e->Dir_entries));
                    assert(e->Dir_entries == *entries);
                    assert(decreases_to!(*entries => entries@));
                    assert(decreases_to!(entries@ => entries@[i as int]));
                }
                scan_entry_exec(child_prefix.as_str(), &entries[i], out);
                proof {
                    lemma_scan_entries_take(child_prefix@, es, i as int);
                }
                i += 1;
            }
            assert(es.take(entries.len() as int) =~= es);
        },
    }
}

/// Scans a directory tree for license files, returning their full paths in
/// depth-first order. A missing directory yields an empty list.
pub fn find_license_files(root: &str, entries: &Option<Vec<FsEntry>>) -> (r: Vec<String>)
    ensures
        str_views(r@) == scan_dir(root@, match *entries {
            Option::None => Option::None,
            Option::Some(es) => Option::Some(es@),
        }),
{
    let mut out: Vec<String> = Vec::new();
    match entries {
        Option::None => {
            assert(str_views(out@) =~= Seq::<Seq<char>>::empty());
        },
        Option::Some(es) => {
            let ghost esv = es@;
            let mut i: usize = 0;
            assert(esv.take(0) =~= Seq::<FsEntry>::empty());
            assert(str_views(out@) =~= Seq::<Seq<char>>::empty() + scan_entries(
                root@,
                esv.take(0),
            ));
            while i < es.len()
                invariant
                    0 <= i <= es.len(),
                    esv == es@,
                    str_views(out@) == scan_entries(root@, esv.take(i as int)),
                decreases es.len() - i,
            {
                scan_entry_exec(root, &es[i], &mut out);
                proof {
                    lemma_scan_entries_take(root@, esv, i as int);
                }
                i += 1;
            }
            assert(esv.take(es.len() as int) =~= esv);
        },
    }
    out
}

/// Every path that scanning one entry yields lies under the prefix.
pub(crate) proof fn lemma_scan_entry_prefixed(prefix: Seq<char>, e: FsEntry)
    ensures
        forall|k: int|
            0 <= k < scan_entry(prefix, e).len() ==> is_prefix(
                prefix + "/"@,
                #[trigger] scan_entry(prefix, e)[k],
            ),
    decreases e,
{
    match e {
        FsEntry::File { name } => {
            if is_license_file(name@) {
                assert((prefix + "/"@ + name@).subrange(0, (prefix + "/"@).len() as int) =~= prefix
                    + "/"@);
            }
        },
        FsEntry::Dir { name, entries } => {
            let child = join(prefix, name@);
            assert(decreases_to!(e => e->Dir_entries));
            assert(e->Dir_entries == entries);
            assert(decreases_to!(entries => entries@));
            lemma_scan_entries_prefixed(child, entries@);
            assert((child + "/"@).subrange(0, (prefix + "/"@).len() as int) =~= prefix + "/"@);
            assert forall|k: int| 0 <= k < scan_entry(prefix, e).len() implies is_prefix(
                prefix + "/"@,
                #[trigger] scan_entry(prefix, e)[k],
            ) by {
                assert(scan_entries(child, entries@)[k] == scan_entry(prefix, e)[k]);
                lemma_is_prefix_trans(prefix + "/"@, child + "/"@, scan_entry(prefix, e)[k]);
            }
        },
    }
}

/// Every path that scanning sibling entries yields lies under the prefix.
pub(crate) proof fn lemma_scan_entries_prefixed(prefix: Seq<char>, es: Seq<FsEntry>)
    ensures
        forall|k: int|
            0 <= k < scan_entries(prefix, es).len() ==> is_prefix(
                prefix + "/"@,
                #[trigger] scan_entries(prefix, es)[k],
            ),
    decreases es,
{
    if es.len() > 0 {
        lemma_scan_entry_prefixed(prefix, es[0]);
        lemma_scan_entries_prefixed(prefix, es.drop_first());
        assert forall|k: int| 0 <= k < scan_entries(prefix, es).len() implies is_prefix(
            prefix + "/"@,
            #[trigger] scan_entries(prefix, es)[k],
        ) by {
            let head = scan_entry(prefix, es[0]);
            let tail = scan_entries(prefix, es.drop_first());
            if k < head.len() {
                assert(scan_entries(prefix, es)[k] == head[k]);
            } else {
                assert(scan_entries(prefix, es)[k] == tail[k - head.len()]);
            }
        }
    }
}

/// An entry name that a real directory can hold: free of the separator.
pub open spec fn name_ok(name: Seq<char>) -> bool {
    forall|i: int| 0 <= i < name.len() ==> name[i] != '/'
}

/// The bare name of an entry.
pub open spec fn entry_name(e: FsEntry) -> Seq<char> {
    match e {
        FsEntry::File { name } => name@,
        FsEntry::Dir { name, .. } => name@,
    }
}

/// A well-formed entry: its name is free of the separator, and a
/// directory's entries are well formed in turn.
pub open spec fn entry_wf(e: FsEntry) -> bool
    decreases e,
{
    match e {
        FsEntry::File { name } => name_ok(name@),
        FsEntry::Dir { name, entries } => name_ok(name@) && entries_wf(entries@),
    }
}

/// Well-formed sibling entries: each well formed, with pairwise distinct
/// names, as a real directory has them.
pub open spec fn entries_wf(es: Seq<FsEntry>) -> bool
    decreases es,
{
    if es.len() == 0 {
        true
    } else {
        entry_wf(es[0]) && entries_wf(es.drop_first()) && (forall|j: int|
            1 <= j < es.len() ==> entry_name(#[trigger] es[j]) != entry_name(es[0]))
    }
}

/// `p` is the path of `q` itself or of something below the directory `q`.
pub open spec fn extends_path(q: Seq<char>, p: Seq<char>) -> bool {
    p == q || is_prefix(q + "/"@, p)
}

proof fn lemma_join_not_prefix(prefix: Seq<char>, a: Seq<char>, b: Seq<char>)
    requires
        a.len() <= b.len(),
        name_ok(b),
        a != b,
    ensures
        !is_prefix(join(prefix, a) + "/"@, join(prefix, b) + "/"@),
{
    reveal_strlit("/");
    let ja = join(prefix, a) + "/"@;
    let jb = join(prefix, b) + "/"@;
    assert(ja.len() == prefix.len() + a.len() + 2);
    assert(jb.len() == prefix.len() + b.len() + 2);
    if is_prefix(ja, jb) {
        assert forall|i: int| 0 <= i < ja.len() implies jb[i] == ja[i] by {
            assert(jb.subrange(0, ja.len() as int)[i] == jb[i]);
        }
        assert forall|i: int| 0 <= i < a.len() implies ja[prefix.len() + 1 + i] == a[i] by {}
        assert forall|i: int| 0 <= i < b.len() implies jb[prefix.len() + 1 + i] == b[i] by {}
        if a.len() == b.len() {
            assert forall|i: int| 0 <= i < a.len() implies a[i] == b[i] by {
                assert(jb[prefix.len() + 1 + i] == ja[prefix.len() + 1 + i]);
            }
            assert(a =~= b);
        } else {
            let idx = prefix.len() + 1 + a.len();
            assert(ja[idx as int] == '/');
            assert(jb[idx as int] == b[a.len() as int]);
            assert(b[a.len() as int] != '/');
        }
    }
}

proof fn lemma_extends_ordered_disjoint(
    prefix: Seq<char>,
    a: Seq<char>,
    b: Seq<char>,
    p1: Seq<char>,
    p2: Seq<char>,
)
    requires
        a.len() <= b.len(),
        name_ok(a),
        name_ok(b),
        a != b,
        extends_path(join(prefix, a), p1),
        extends_path(join(prefix, b), p2),
    ensures
        p1 != p2,
{
    reveal_strlit("/");
    let ja = join(prefix, a);
    let jb = join(prefix, b);
    lemma_join_not_prefix(prefix, a, b);
    if p1 == p2 {
        let p = p1;
        if p == ja {
            if p == jb {
                assert(is_prefix(ja + "/"@, jb + "/"@)) by {
                    assert((jb + "/"@).subrange(0, (ja + "/"@).len() as int) =~= ja + "/"@);
                }
            } else {
                assert(is_prefix(jb + "/"@, ja));
                assert((jb + "/"@).len() <= ja.len());
            }
        } else {
            if p == jb {
                assert(is_prefix(ja + "/"@, jb));
                lemma_is_prefix_extend(ja + "/"@, jb, "/"@);
            } else {
                lemma_prefix_chain(ja + "/"@, jb + "/"@, p);
            }
        }
    }
}

/// Two sibling entries with distinct separator-free names own disjoint
/// paths: nothing lies under both.
proof fn lemma_extends_disjoint(
    prefix: Seq<char>,
    n1: Seq<char>,
    n2: Seq<char>,
    p1: Seq<char>,
    p2: Seq<char>,
)
    requires
        name_ok(n1),
        name_ok(n2),
        n1 != n2,
        extends_path(join(prefix, n1), p1),
        extends_path(join(prefix, n2), p2),
    ensures
        p1 != p2,
{
    if n1.len() <= n2.len() {
        lemma_extends_ordered_disjoint(prefix, n1, n2, p1, p2);
    } else {
        lemma_extends_ordered_disjoint(prefix, n2, n1, p2, p1);
    }
}

/// Scanning a well-formed entry yields pairwise distinct paths, each lying
/// at or under the entry's own path.
proof fn lemma_scan_entry_distinct(prefix: Seq<char>, e: FsEntry)
    requires
        entry_wf(e),
    ensures
        scan_entry(prefix, e).no_duplicates(),
        forall|k: int|
            0 <= k < scan_entry(prefix, e).len() ==> extends_path(
                join(prefix, entry_name(e)),
                #[trigger] scan_entry(prefix, e)[k],
            ),
    decreases e,
{
    match e {
        FsEntry::File { name } => {},
        FsEntry::Dir { name, entries } => {
            let child = join(prefix, name@);
            assert(decreases_to!(e => e->Dir_entries));
            assert(e->Dir_entries == entries);
            assert(decreases_to!(entries => entries@));
            lemma_scan_entries_distinct(child, entries@);
            lemma_scan_entries_prefixed(child, entries@);
            assert forall|k: int| 0 <= k < scan_entry(prefix, e).len() implies extends_path(
                join(prefix, entry_name(e)),
                #[trigger] scan_entry(prefix, e)[k],
            ) by {
                assert(scan_entries(child, entries@)[k] == scan_entry(prefix, e)[k]);
            }
        },
    }
}

/// Scanning well-formed sibling entries yields pairwise distinct paths,
/// each lying at or under some entry's own path.
proof fn lemma_scan_entries_distinct(prefix: Seq<char>, es: Seq<FsEntry>)
    requires
        entries_wf(es),
    ensures
        scan_entries(prefix, es).no_duplicates(),
        forall|k: int|
            0 <= k < scan_entries(prefix, es).len() ==> exists|j: int|
                0 <= j < es.len() && extends_path(
                    join(prefix, entry_name(#[trigger] es[j])),
                    #[trigger] scan_entries(prefix, es)[k],
                ),
    decreases es,
{
    if es.len() > 0 {
        let head = scan_entry(prefix, es[0]);
        let tail = scan_entries(prefix, es.drop_first());
        lemma_scan_entry_distinct(prefix, es[0]);
        lemma_scan_entries_distinct(prefix, es.drop_first());
        assert forall|k: int| 0 <= k < scan_entries(prefix, es).len() implies exists|j: int|
            0 <= j < es.len() && extends_path(
                join(prefix, entry_name(#[trigger] es[j])),
                #[trigger] scan_entries(prefix, es)[k],
            ) by {
            if k < head.len() {
                assert(scan_entries(prefix, es)[k] == head[k]);
                assert(extends_path(
                    join(prefix, entry_name(es[0])),
                    scan_entries(prefix, es)[k],
                ));
            } else {
                assert(scan_entries(prefix, es)[k] == tail[k - head.len()]);
                let j = choose|j: int|
                    0 <= j < es.drop_first().len() && extends_path(
                        join(prefix, entry_name(#[trigger] es.drop_first()[j])),
                        tail[k - head.len()],
                    );
                assert(es.drop_first()[j] == es[j + 1]);
                assert(extends_path(
                    join(prefix, entry_name(es[j + 1])),
                    scan_entries(prefix, es)[k],
                ));
            }
        }
        assert forall|k1: int, k2: int|
            0 <= k1 < head.len() && head.len() <= k2 < scan_entries(prefix, es).len() implies
            scan_entries(prefix, es)[k1] != scan_entries(prefix, es)[k2] by {
            let p1 = scan_entries(prefix, es)[k1];
            let p2 = scan_entries(prefix, es)[k2];
            assert(p1 == head[k1]);
            assert(p2 == tail[k2 - head.len()]);
            let j = choose|j: int|
                0 <= j < es.drop_first().len() && extends_path(
                    join(prefix, entry_name(#[trigger] es.drop_first()[j])),
                    tail[k2 - head.len()],
                );
            assert(es.drop_first()[j] == es[j + 1]);
            assert(entry_name(es[j + 1]) != entry_name(es[0]));
            lemma_entry_name_ok(es[0]);
            lemma_entries_wf_all(es.drop_first());
            lemma_entry_name_ok(es[j + 1]);
            lemma_extends_disjoint(prefix, entry_name(es[0]), entry_name(es[j + 1]), p1, p2);
        }
        assert forall|k1: int, k2: int|
            0 <= k1 < k2 < scan_entries(prefix, es).len() implies scan_entries(prefix, es)[k1]
            != scan_entries(prefix, es)[k2] by {
            if k2 < head.len() {
                assert(scan_entries(prefix, es)[k1] == head[k1]);
                assert(scan_entries(prefix, es)[k2] == head[k2]);
            } else if k1 >= head.len() {
                assert(scan_entries(prefix, es)[k1] == tail[k1 - head.len()]);
                assert(scan_entries(prefix, es)[k2] == tail[k2 - head.len()]);
            }
        }
    }
}

proof fn lemma_entry_name_ok(e: FsEntry)
    requires
        entry_wf(e),
    ensures
        name_ok(entry_name(e)),
{
    match e {
        FsEntry::File { name } => {},
        FsEntry::Dir { name, entries } => {},
    }
}

/// Every entry of a well-formed list is well formed.
proof fn lemma_entries_wf_all(es: Seq<FsEntry>)
    requires
        entries_wf(es),
    ensures
        forall|j: int| 0 <= j < es.len() ==> entry_wf(#[trigger] es[j]),
    decreases es,
{
    if es.len() > 0 {
        lemma_entries_wf_all(es.drop_first());
        assert forall|j: int| 0 <= j < es.len() implies entry_wf(#[trigger] es[j]) by {
            if j > 0 {
                assert(es.drop_first()[j - 1] == es[j]);
            }
        }
    }
}

/// Scanning a well-formed directory, as the filesystem serves one, yields
/// pairwise distinct paths: the scanner introduces no duplicates of its
/// own.
pub proof fn lemma_scan_dir_distinct(root: Seq<char>, entries: Option<Seq<FsEntry>>)
    requires
        match entries {
            Option::Some(es) => entries_wf(es),
            Option::None => true,
        },
    ensures
        scan_dir(root, entries).no_duplicates(),
{
    match entries {
        Option::Some(es) => {
            lemma_scan_entries_distinct(root, es);
        },
        Option::None => {},
    }
}

/// Scanning an empty or a nonexistent directory yields an empty list; the
/// scanner has no failure outcome at all.
pub proof fn lemma_scan_empty(root: Seq<char>, entries: Option<Seq<FsEntry>>)
    requires
        entries is None || entries->0.len() == 0,
    ensures
        scan_dir(root, entries) == Seq::<Seq<char>>::empty(),
{
}

} // verus!
