//! The package resolver: one resolved package per third-party dependency,
//! with its license files found by scanning, ordered lexicographically, and
//! the declared license-file hint appended when scanning missed it.

use vstd::multiset::Multiset;
use vstd::prelude::*;
use vstd::string::*;

use crate::matcher::str_eq;
use crate::metadata::opt_view;
use crate::metadata::Dependency;
use crate::paths::is_prefix;
use crate::paths::join;
use crate::paths::join_exec;
use crate::paths::lemma_lex_refl;
use crate::paths::lemma_lex_total;
use crate::paths::lemma_lex_trans;
use crate::paths::lex_leq;
use crate::paths::str_leq;
use crate::paths::str_views;
use crate::scan::entries_wf;
use crate::scan::find_license_files;
use crate::scan::lemma_scan_dir_distinct;
use crate::scan::lemma_scan_entries_prefixed;
use crate::scan::scan_dir;
use crate::scan::FsEntry;

verus! {

broadcast use vstd::seq_lib::group_to_multiset_ensures, vstd::multiset::group_multiset_axioms;

/// One license file of a package: its full path, and the same path relative
/// to the package's source directory, for display.
pub struct LicenseFile {
    pub path: String,
    pub relative_path: String,
}

/// The view of one license file: its two paths.
pub open spec fn file_view(f: LicenseFile) -> (Seq<char>, Seq<char>) {
    (f.path@, f.relative_path@)
}

/// The views of a list of license files.
pub open spec fn file_views(s: Seq<LicenseFile>) -> Seq<(Seq<char>, Seq<char>)> {
    s.map_values(|f: LicenseFile| file_view(f))
}

/// The full paths of a list of license files.
pub open spec fn path_views(s: Seq<LicenseFile>) -> Seq<Seq<char>> {
    s.map_values(|f: LicenseFile| f.path@)
}

/// The list is ordered lexicographically by full path.
pub open spec fn paths_sorted(s: Seq<LicenseFile>) -> bool {
    forall|i: int, j: int| 0 <= i < j < s.len() ==> lex_leq(s[i].path@, s[j].path@)
}

/// A license file reference is well formed for a root directory: the path
/// lies directly under the root, and the relative path is the remainder.
pub open spec fn file_wf_v(v: (Seq<char>, Seq<char>), root: Seq<char>) -> bool {
    v.0.len() >= root.len() + 1 && v.0.subrange(0, root.len() + 1 as int) == root + "/"@ && v.1
        == v.0.skip(root.len() + 1 as int)
}

/// Well-formedness of one license file reference.
pub open spec fn file_wf(f: LicenseFile, root: Seq<char>) -> bool {
    file_wf_v(file_view(f), root)
}

impl LicenseFile {
    /// A reference to a license file under `root`, displayed by the path
    /// relative to it.
    pub fn new(path: String, root: &str) -> (r: LicenseFile)
        requires
            path@.len() >= root@.len() + 1,
            path@.subrange(0, root@.len() + 1 as int) == root@ + "/"@,
        ensures
            r.path@ == path@,
            r.relative_path@ == path@.skip(root@.len() + 1 as int),
            file_wf(r, root@),
    {
        let len = path.as_str().unicode_len();
        let rl = root.unicode_len();
        proof {
            reveal_strlit("/");
            assert((root@ + "/"@).len() == root@.len() + 1);
        }
        let relative_path = path.as_str().substring_char(rl + 1, len).to_owned();
        proof {
            assert(path@.subrange(rl + 1, len as int) =~= path@.skip(rl + 1));
        }
        LicenseFile { path, relative_path }
    }
}

proof fn lemma_views_remove(s: Seq<LicenseFile>, m: int)
    requires
        0 <= m < s.len(),
    ensures
        file_views(s.remove(m)) == file_views(s).remove(m),
        path_views(s.remove(m)) == path_views(s).remove(m),
{
    assert(file_views(s.remove(m)) =~= file_views(s).remove(m));
    assert(path_views(s.remove(m)) =~= path_views(s).remove(m));
}

proof fn lemma_views_push(s: Seq<LicenseFile>, f: LicenseFile)
    ensures
        file_views(s.push(f)) == file_views(s).push(file_view(f)),
        path_views(s.push(f)) == path_views(s).push(f.path@),
{
    assert(file_views(s.push(f)) =~= file_views(s).push(file_view(f)));
    assert(path_views(s.push(f)) =~= path_views(s).push(f.path@));
}

/// Orders license files by full path, keeping the collection of (path,
/// relative path) pairs.
fn sort_files(files: Vec<LicenseFile>) -> (r: Vec<LicenseFile>)
    ensures
        file_views(r@).to_multiset() == file_views(files@).to_multiset(),
        path_views(r@).to_multiset() == path_views(files@).to_multiset(),
        paths_sorted(r@),
{
    let ghost orig = files@;
    let mut src = files;
    let mut out: Vec<LicenseFile> = Vec::new();
    proof {
        assert(file_views(out@) =~= Seq::<(Seq<char>, Seq<char>)>::empty());
        assert(path_views(out@) =~= Seq::<Seq<char>>::empty());
        assert(file_views(out@).to_multiset().add(file_views(src@).to_multiset()) =~= file_views(
            orig,
        ).to_multiset());
        assert(path_views(out@).to_multiset().add(path_views(src@).to_multiset()) =~= path_views(
            orig,
        ).to_multiset());
    }
    while src.len() > 0
        invariant
            file_views(out@).to_multiset().add(file_views(src@).to_multiset()) == file_views(
                orig,
            ).to_multiset(),
            path_views(out@).to_multiset().add(path_views(src@).to_multiset()) == path_views(
                orig,
            ).to_multiset(),
            paths_sorted(out@),
            forall|oi: int, sj: int|
                0 <= oi < out@.len() && 0 <= sj < src@.len() ==> lex_leq(
                    out@[oi].path@,
                    src@[sj].path@,
                ),
        decreases src@.len(),
    {
        let mut m: usize = 0;
        let mut k: usize = 1;
        proof {
            lemma_lex_refl(src@[0].path@);
        }
        while k < src.len()
            invariant
                0 <= m < k <= src@.len(),
                src@.len() > 0,
                forall|t: int| 0 <= t < k ==> lex_leq(src@[m as int].path@, src@[t].path@),
            decreases src@.len() - k,
        {
            if str_leq(src[k].path.as_str(), src[m].path.as_str()) {
                proof {
                    lemma_lex_refl(src@[k as int].path@);
                    assert forall|t: int| 0 <= t < k implies lex_leq(
                        src@[k as int].path@,
                        src@[t].path@,
                    ) by {
                        lemma_lex_trans(src@[k as int].path@, src@[m as int].path@, src@[t].path@);
                    }
                }
                m = k;
            } else {
                proof {
                    lemma_lex_total(src@[k as int].path@, src@[m as int].path@);
                }
            }
            k += 1;
        }
        let ghost src_before = src@;
        let ghost out_before = out@;
        let f = src.remove(m);
        out.push(f);
        proof {
            lemma_views_remove(src_before, m as int);
            lemma_views_push(out_before, src_before[m as int]);
            let fv = file_view(src_before[m as int]);
            let pv = src_before[m as int].path@;
            assert(file_views(src_before)[m as int] == fv);
            assert(path_views(src_before)[m as int] == pv);
            assert(file_views(src@).to_multiset() =~= file_views(src_before).to_multiset().remove(
                fv,
            ));
            assert(path_views(src@).to_multiset() =~= path_views(src_before).to_multiset().remove(
                pv,
            ));
            assert(file_views(out@).to_multiset() =~= file_views(out_before).to_multiset().insert(
                fv,
            ));
            assert(path_views(out@).to_multiset() =~= path_views(out_before).to_multiset().insert(
                pv,
            ));
            assert(file_views(src_before).to_multiset().count(fv) > 0);
            assert(path_views(src_before).to_multiset().count(pv) > 0);
            assert(file_views(out@).to_multiset().add(file_views(src@).to_multiset())
                =~= file_views(out_before).to_multiset().add(file_views(src_before).to_multiset()));
            assert(path_views(out@).to_multiset().add(path_views(src@).to_multiset())
                =~= path_views(out_before).to_multiset().add(path_views(src_before).to_multiset()));
            assert forall|oi: int, sj: int|
                0 <= oi < out@.len() && 0 <= sj < src@.len() implies lex_leq(
                out@[oi].path@,
                src@[sj].path@,
            ) by {
                assert(src@[sj] == src_before.remove(m as int)[sj]);
                if sj < m {
                    assert(src@[sj] == src_before[sj]);
                } else {
                    assert(src@[sj] == src_before[sj + 1]);
                }
            }
        }
    }
    proof {
        assert(file_views(src@).to_multiset() =~= Multiset::<(Seq<char>, Seq<char>)>::empty());
        assert(path_views(src@).to_multiset() =~= Multiset::<Seq<char>>::empty());
        assert(file_views(out@).to_multiset() =~= file_views(out@).to_multiset().add(
            file_views(src@).to_multiset(),
        ));
        assert(path_views(out@).to_multiset() =~= path_views(out@).to_multiset().add(
            path_views(src@).to_multiset(),
        ));
    }
    out
}

proof fn lemma_wf_transfer(a: Seq<LicenseFile>, b: Seq<LicenseFile>, root: Seq<char>)
    requires
        file_views(a).to_multiset() == file_views(b).to_multiset(),
        forall|i: int| 0 <= i < a.len() ==> file_wf(#[trigger] a[i], root),
    ensures
        forall|i: int| 0 <= i < b.len() ==> file_wf(#[trigger] b[i], root),
{
    assert forall|i: int| 0 <= i < b.len() implies file_wf(b[i], root) by {
        let v = file_view(b[i]);
        assert(file_views(b)[i] == v);
        assert(file_views(b).to_multiset().count(v) > 0);
        assert(file_views(a).contains(v));
        let j = choose|j: int| 0 <= j < file_views(a).len() && file_views(a)[j] == v;
        assert(file_wf(a[j], root));
    }
}

/// The view of an optional directory listing.
pub open spec fn tree_view(entries: Option<Vec<FsEntry>>) -> Option<Seq<FsEntry>> {
    match entries {
        Option::Some(es) => Option::Some(es@),
        Option::None => Option::None,
    }
}

/// `files` is the scanned collection, ordered lexicographically by path.
pub open spec fn sorted_perm_of(files: Seq<LicenseFile>, scanned: Seq<Seq<char>>) -> bool {
    path_views(files).to_multiset() == scanned.to_multiset() && paths_sorted(files)
}

/// The license-file list of one resolved package: the scanned paths sorted
/// lexicographically, with the declared hint appended at the end only when
/// scanning did not already find it, and every reference well formed for
/// the package's source directory.
pub open spec fn resolved_files(
    scanned: Seq<Seq<char>>,
    hint: Option<Seq<char>>,
    root: Seq<char>,
    files: Seq<LicenseFile>,
) -> bool {
    (forall|i: int| 0 <= i < files.len() ==> file_wf(#[trigger] files[i], root)) && match hint {
        Option::None => sorted_perm_of(files, scanned),
        Option::Some(h) => {
            let hp = join(root, h);
            if scanned.contains(hp) {
                sorted_perm_of(files, scanned)
            } else {
                files.len() >= 1 && files.last().path@ == hp && files.last().relative_path@ == h
                    && sorted_perm_of(files.drop_last(), scanned)
            }
        },
    }
}

/// One resolved third-party package, ready for the report.
pub struct Package {
    pub name: String,
    pub version: String,
    pub url: Option<String>,
    pub license: Option<String>,
    pub license_files: Vec<LicenseFile>,
    pub multiple_versions: bool,
}

/// The package's name with its version.
pub open spec fn spec_full_name(p: Package) -> Seq<char> {
    p.name@ + " v"@ + p.version@
}

/// The name alone, or the full name when several versions coexist.
pub open spec fn spec_display_name(p: Package) -> Seq<char> {
    if p.multiple_versions {
        spec_full_name(p)
    } else {
        p.name@
    }
}

impl Package {
    /// The package's name with its version.
    pub fn full_name(&self) -> (r: String)
        ensures
            r@ == spec_full_name(*self),
    {
        self.name.clone().concat(" v").concat(self.version.as_str())
    }

    /// What the report calls the package: the name alone, or the full name
    /// when several versions coexist.
    pub fn display_name(&self) -> (r: String)
        ensures
            r@ == spec_display_name(*self),
    {
        if self.multiple_versions {
            self.full_name()
        } else {
            self.name.clone()
        }
    }
}

/// A resolved package carries the dependency's fields and its resolved
/// license-file list.
pub open spec fn package_resolved(
    dep: Dependency,
    entries: Option<Seq<FsEntry>>,
    p: Package,
) -> bool {
    p.name@ == dep.name@ && p.version@ == dep.version@ && opt_view(p.url) == opt_view(dep.url)
        && opt_view(p.license) == opt_view(dep.license) && resolved_files(
        scan_dir(dep.source_dir@, entries),
        opt_view(dep.license_file),
        dep.source_dir@,
        p.license_files@,
    )
}

fn clone_opt(o: &Option<String>) -> (r: Option<String>)
    ensures
        opt_view(r) == opt_view(*o),
{
    match o {
        Option::Some(s) => Option::Some(s.clone()),
        Option::None => Option::None,
    }
}

/// Resolves one dependency: scans its source directory, orders the finds,
/// and appends the declared hint when it is new.
pub fn resolve_package(
    dep: &Dependency,
    entries: &Option<Vec<FsEntry>>,
    multiple_versions: bool,
) -> (r: Package)
    ensures
        package_resolved(*dep, tree_view(*entries), r),
        r.multiple_versions == multiple_versions,
{
    let root = dep.source_dir.as_str();
    let found = find_license_files(root, entries);
    let ghost scanned = scan_dir(root@, tree_view(*entries));
    proof {
        reveal_strlit("/");
        match entries {
            Option::Some(es) => {
                lemma_scan_entries_prefixed(root@, es@);
            },
            Option::None => {},
        }
        assert(forall|k: int|
            0 <= k < scanned.len() ==> is_prefix(root@ + "/"@, #[trigger] scanned[k]));
    }
    let mut files: Vec<LicenseFile> = Vec::new();
    let mut i: usize = 0;
    proof {
        assert(path_views(files@) =~= scanned.take(0));
    }
    while i < found.len()
        invariant
            0 <= i <= found@.len(),
            str_views(found@) == scanned,
            root@ == dep.source_dir@,
            forall|k: int| 0 <= k < scanned.len() ==> is_prefix(root@ + "/"@, #[trigger] scanned[k]),
            path_views(files@) == scanned.take(i as int),
            forall|k: int| 0 <= k < files@.len() ==> file_wf(#[trigger] files@[k], root@),
        decreases found@.len() - i,
    {
        let p = found[i].clone();
        proof {
            reveal_strlit("/");
            assert(str_views(found@)[i as int] == found@[i as int]@);
            assert(p@ == scanned[i as int]);
            assert((root@ + "/"@).len() == root@.len() + 1);
            assert(p@.subrange(0, root@.len() + 1 as int) == root@ + "/"@);
        }
        let lf = LicenseFile::new(p, root);
        let ghost pre = files@;
        files.push(lf);
        proof {
            lemma_views_push(pre, files@.last());
            assert(path_views(files@) =~= scanned.take(i + 1));
        }
        i += 1;
    }
    proof {
        assert(scanned.take(found@.len() as int) =~= scanned);
    }
    let ghost pre_sort = files@;
    let mut files = sort_files(files);
    proof {
        lemma_wf_transfer(pre_sort, files@, root@);
    }
    let ghost base = files@;
    match &dep.license_file {
        Option::None => {},
        Option::Some(h) => {
            let hp = join_exec(root, h.as_str());
            let mut present = false;
            let mut t: usize = 0;
            while t < files.len()
                invariant
                    0 <= t <= files@.len(),
                    files@ == base,
                    hp@ == join(root@, h@),
                    present == exists|j: int| 0 <= j < t && (#[trigger] files@[j].path@) == hp@,
                decreases files@.len() - t,
            {
                if str_eq(files[t].path.as_str(), hp.as_str(), false) {
                    present = true;
                }
                t += 1;
            }
            proof {
                if present {
                    let j = choose|j: int|
                        0 <= j < files@.len() && (#[trigger] files@[j].path@) == hp@;
                    assert(path_views(base)[j] == hp@);
                    assert(path_views(base).to_multiset().count(hp@) > 0);
                    assert(scanned.to_multiset().count(hp@) > 0);
                    assert(scanned.contains(hp@));
                } else {
                    if scanned.contains(hp@) {
                        assert(scanned.to_multiset().count(hp@) > 0);
                        assert(path_views(base).to_multiset().count(hp@) > 0);
                        assert(path_views(base).contains(hp@));
                        let j = choose|j: int|
                            0 <= j < path_views(base).len() && path_views(base)[j] == hp@;
                        assert(files@[j].path@ == hp@);
                        assert(false);
                    }
                }
            }
            if !present {
                proof {
                    reveal_strlit("/");
                    assert(hp@.subrange(0, root@.len() + 1 as int) =~= root@ + "/"@);
                }
                let lf = LicenseFile::new(hp, root);
                let ghost pre = files@;
                files.push(lf);
                proof {
                    assert(files@.drop_last() =~= base);
                    assert(files@.last().relative_path@ =~= h@) by {
                        assert((root@ + "/"@ + h@).skip(root@.len() + 1 as int) =~= h@);
                    }
                }
            }
        },
    }
    Package {
        name: dep.name.clone(),
        version: dep.version.clone(),
        url: clone_opt(&dep.url),
        license: clone_opt(&dep.license),
        license_files: files,
        multiple_versions,
    }
}

fn has_dup_name(deps: &Vec<Dependency>, i: usize) -> (r: bool)
    requires
        i < deps@.len(),
    ensures
        r == exists|j: int|
            0 <= j < deps@.len() && j != i as int && (#[trigger] deps@[j].name@)
                == deps@[i as int].name@,
{
    let mut found = false;
    let mut j: usize = 0;
    while j < deps.len()
        invariant
            0 <= j <= deps@.len(),
            i < deps@.len(),
            found == exists|t: int|
                0 <= t < j && t != i as int && (#[trigger] deps@[t].name@) == deps@[i as int].name@,
        decreases deps@.len() - j,
    {
        if j != i && str_eq(deps[j].name.as_str(), deps[i].name.as_str(), false) {
            found = true;
        }
        j += 1;
    }
    found
}

/// Resolves every dependency, in the given order, and marks each package
/// whose name another package shares.
pub fn find_packages(deps: &Vec<Dependency>, trees: &Vec<Option<Vec<FsEntry>>>) -> (r: Vec<
    Package,
>)
    requires
        deps@.len() == trees@.len(),
    ensures
        r@.len() == deps@.len(),
        forall|i: int|
            0 <= i < r@.len() ==> package_resolved(deps@[i], tree_view(trees@[i]), #[trigger] r@[i]),
        forall|i: int|
            0 <= i < r@.len() ==> (#[trigger] r@[i].multiple_versions) == exists|j: int|
                0 <= j < deps@.len() && j != i && (#[trigger] deps@[j].name@) == deps@[i].name@,
{
    let mut out: Vec<Package> = Vec::new();
    let mut i: usize = 0;
    while i < deps.len()
        invariant
            0 <= i <= deps@.len(),
            deps@.len() == trees@.len(),
            out@.len() == i,
            forall|k: int|
                0 <= k < i ==> package_resolved(deps@[k], tree_view(trees@[k]), #[trigger] out@[k]),
            forall|k: int|
                0 <= k < i ==> (#[trigger] out@[k].multiple_versions) == exists|j: int|
                    0 <= j < deps@.len() && j != k && (#[trigger] deps@[j].name@) == deps@[k].name@,
        decreases deps@.len() - i,
    {
        let mv = has_dup_name(deps, i);
        let p = resolve_package(&deps[i], &trees[i], mv);
        out.push(p);
        i += 1;
    }
    out
}

/// When the scanner's finds are pairwise distinct, a resolved package's
/// file list holds no duplicate path: a hint already found by scanning is
/// not added again, and one found nowhere is the single appended entry.
pub proof fn lemma_no_duplicate_paths(
    scanned: Seq<Seq<char>>,
    hint: Option<Seq<char>>,
    root: Seq<char>,
    files: Seq<LicenseFile>,
)
    requires
        resolved_files(scanned, hint, root, files),
        scanned.no_duplicates(),
    ensures
        forall|i: int, j: int|
            0 <= i < j < files.len() ==> (#[trigger] files[i].path@) != (#[trigger] files[j].path@),
{
    scanned.lemma_multiset_has_no_duplicates();
    let sorted_part = match hint {
        Option::Some(h) => if !scanned.contains(join(root, h)) {
            files.drop_last()
        } else {
            files
        },
        Option::None => files,
    };
    assert(path_views(sorted_part).to_multiset() == scanned.to_multiset());
    assert forall|i: int, j: int| 0 <= i < j < sorted_part.len() implies (
    #[trigger] sorted_part[i].path@) != (#[trigger] sorted_part[j].path@) by {
        if sorted_part[i].path@ == sorted_part[j].path@ {
            let v = sorted_part[i].path@;
            assert(path_views(sorted_part)[i] == v);
            assert(path_views(sorted_part)[j] == v);
            let shorter = path_views(sorted_part).remove(j);
            assert(shorter[i] == v);
            assert(shorter.to_multiset() =~= path_views(sorted_part).to_multiset().remove(v));
            assert(shorter.to_multiset().count(v) > 0);
            assert(path_views(sorted_part).to_multiset().count(v) >= 2);
            assert(scanned.to_multiset().contains(v));
            assert(false);
        }
    }
    match hint {
        Option::None => {},
        Option::Some(h) => {
            let hp = join(root, h);
            if !scanned.contains(hp) {
                assert forall|i: int, j: int| 0 <= i < j < files.len() implies (
                #[trigger] files[i].path@) != (#[trigger] files[j].path@) by {
                    if j < files.len() - 1 {
                        assert(sorted_part[i] == files[i]);
                        assert(sorted_part[j] == files[j]);
                    } else {
                        assert(files[j].path@ == hp);
                        assert(sorted_part[i] == files[i]);
                        if files[i].path@ == hp {
                            assert(path_views(sorted_part)[i] == hp);
                            assert(path_views(sorted_part).to_multiset().count(hp) > 0);
                            assert(scanned.to_multiset().count(hp) > 0);
                            assert(scanned.contains(hp));
                            assert(false);
                        }
                    }
                }
            }
        },
    }
}

/// The multiple-versions mark is computed from the full set: two resolved
/// packages that share a name always carry the same mark.
pub proof fn lemma_multiple_versions_consistent(
    deps: Seq<Dependency>,
    r: Seq<Package>,
    i: int,
    k: int,
)
    requires
        r.len() == deps.len(),
        forall|t: int| 0 <= t < r.len() ==> (#[trigger] r[t].name@) == deps[t].name@,
        forall|t: int|
            0 <= t < r.len() ==> ((#[trigger] r[t].multiple_versions) == exists|j: int|
                0 <= j < deps.len() && j != t && (#[trigger] deps[j].name@) == deps[t].name@),
        0 <= i < r.len(),
        0 <= k < r.len(),
        r[i].name@ == r[k].name@,
    ensures
        r[i].multiple_versions == r[k].multiple_versions,
{
    if i != k {
        assert(deps[k].name@ == deps[i].name@);
        assert(r[i].multiple_versions);
        assert(r[k].multiple_versions);
    }
}

/// A package resolved from a well-formed directory tree, as the filesystem
/// serves one, lists every license file once: a declared hint that
/// scanning already found is never added a second time.
pub proof fn lemma_package_files_distinct(
    dep: Dependency,
    entries: Option<Seq<FsEntry>>,
    p: Package,
)
    requires
        package_resolved(dep, entries, p),
        match entries {
            Option::Some(es) => entries_wf(es),
            Option::None => true,
        },
    ensures
        forall|i: int, j: int|
            0 <= i < j < p.license_files@.len() ==> (#[trigger] p.license_files@[i].path@) != (
            #[trigger] p.license_files@[j].path@),
{
    lemma_scan_dir_distinct(dep.source_dir@, entries);
    lemma_no_duplicate_paths(
        scan_dir(dep.source_dir@, entries),
        opt_view(dep.license_file),
        dep.source_dir@,
        p.license_files@,
    );
}

} // verus!
