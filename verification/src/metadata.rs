//! The metadata adapter's data: a plain model of the package manager's
//! structured response, the extraction of one dependency descriptor per
//! third-party package, and the exclusion of workspace members.

use vstd::prelude::*;
use vstd::string::*;

use crate::matcher::str_eq;
use crate::paths::parent_exec;
use crate::paths::parent_of;
use crate::paths::path_starts_with;
use crate::paths::starts_with;

verus! {

/// A structured value of the package manager's response: the usual tree of
/// nulls, booleans, numbers, strings, arrays and key/value objects. Numbers
/// are carried in their printed form; this tool never reads one.
pub enum JsonValue {
    Null,
    Bool(bool),
    Num(String),
    Str(String),
    Arr(Vec<JsonValue>),
    Obj(Vec<(String, JsonValue)>),
}

/// The index of the first pair with the given key, or minus one.
pub open spec fn obj_index(pairs: Seq<(String, JsonValue)>, key: Seq<char>) -> int
    decreases pairs.len(),
{
    if pairs.len() == 0 {
        -1
    } else if pairs[0].0@ == key {
        0
    } else {
        let rest = obj_index(pairs.drop_first(), key);
        if rest < 0 {
            -1
        } else {
            rest + 1
        }
    }
}

/// The value under the given key: the first match in an object, nothing in
/// every other case.
pub open spec fn json_get(v: JsonValue, key: Seq<char>) -> Option<JsonValue> {
    match v {
        JsonValue::Obj(pairs) => if obj_index(pairs@, key) >= 0 {
            Option::Some(pairs@[obj_index(pairs@, key)].1)
        } else {
            Option::None
        },
        _ => Option::None,
    }
}

/// The string under the given key, when the key is there and holds one.
pub open spec fn json_str(v: JsonValue, key: Seq<char>) -> Option<Seq<char>> {
    match json_get(v, key) {
        Option::Some(JsonValue::Str(s)) => Option::Some(s@),
        _ => Option::None,
    }
}

proof fn lemma_obj_index_found(pairs: Seq<(String, JsonValue)>, key: Seq<char>, i: int)
    requires
        0 <= i < pairs.len(),
        pairs[i].0@ == key,
        forall|j: int| 0 <= j < i ==> pairs[j].0@ != key,
    ensures
        obj_index(pairs, key) == i,
    decreases pairs.len(),
{
    if i > 0 {
        lemma_obj_index_found(pairs.drop_first(), key, i - 1);
    }
}

proof fn lemma_obj_index_none(pairs: Seq<(String, JsonValue)>, key: Seq<char>)
    requires
        forall|j: int| 0 <= j < pairs.len() ==> pairs[j].0@ != key,
    ensures
        obj_index(pairs, key) == -1,
    decreases pairs.len(),
{
    if pairs.len() > 0 {
        lemma_obj_index_none(pairs.drop_first(), key);
    }
}

impl JsonValue {
    /// Looks a key up in an object; anything else holds no keys.
    pub fn get<'a>(&'a self, key: &str) -> (r: Option<&'a JsonValue>)
        ensures
            match r {
                Option::Some(x) => json_get(*self, key@) == Option::Some(*x),
                Option::None => json_get(*self, key@) is None,
            },
    {
        match self {
            JsonValue::Obj(pairs) => {
                let mut i: usize = 0;
                while i < pairs.len()
                    invariant
                        0 <= i <= pairs@.len(),
                        *self is Obj,
                        (*self)->Obj_0 == *pairs,
                        forall|j: int| 0 <= j < i ==> pairs@[j].0@ != key@,
                    decreases pairs@.len() - i,
                {
                    if str_eq(pairs[i].0.as_str(), key, false) {
                        proof {
                            lemma_obj_index_found(pairs@, key@, i as int);
                        }
                        return Option::Some(&pairs[i].1);
                    }
                    i += 1;
                }
                proof {
                    lemma_obj_index_none(pairs@, key@);
                }
                Option::None
            },
            _ => Option::None,
        }
    }

    /// Looks a key up and keeps the value only when it is a string.
    pub fn get_str<'a>(&'a self, key: &str) -> (r: Option<&'a str>)
        ensures
            match r {
                Option::Some(s) => json_str(*self, key@) == Option::Some(s@),
                Option::None => json_str(*self, key@) is None,
            },
    {
        match self.get(key) {
            Option::Some(JsonValue::Str(s)) => Option::Some(s.as_str()),
            _ => Option::None,
        }
    }
}

/// One third-party dependency, as the resolver consumes it: plain values
/// read out of the package manager's response.
pub struct Dependency {
    pub name: String,
    pub version: String,
    pub source_dir: String,
    pub license: Option<String>,
    pub license_file: Option<String>,
    pub url: Option<String>,
}

/// The view of a dependency descriptor.
pub ghost struct DepView {
    pub name: Seq<char>,
    pub version: Seq<char>,
    pub source_dir: Seq<char>,
    pub license: Option<Seq<char>>,
    pub license_file: Option<Seq<char>>,
    pub url: Option<Seq<char>>,
}

/// The view of an optional string.
pub open spec fn opt_view(o: Option<String>) -> Option<Seq<char>> {
    match o {
        Option::Some(s) => Option::Some(s@),
        Option::None => Option::None,
    }
}

/// The view of one dependency descriptor.
pub open spec fn dep_view(d: Dependency) -> DepView {
    DepView {
        name: d.name@,
        version: d.version@,
        source_dir: d.source_dir@,
        license: opt_view(d.license),
        license_file: opt_view(d.license_file),
        url: opt_view(d.url),
    }
}

/// A required key of the response was missing or held no string.
#[derive(Debug)]
pub enum MetaError {
    MissingWorkspaceRoot,
    MissingPackages,
    MissingManifestPath,
    MissingName,
    MissingVersion,
}

/// A package entry that belongs to the querying workspace itself.
pub open spec fn is_workspace_member(pkg: JsonValue, ws: Seq<char>) -> bool {
    match json_str(pkg, "manifest_path"@) {
        Option::Some(mp) => path_starts_with(mp, ws),
        Option::None => false,
    }
}

/// The descriptor that one package entry yields: nothing for a workspace
/// member, an error when a required field is missing, and otherwise the
/// dependency with its source directory, the manifest's parent.
pub open spec fn extract_dep(pkg: JsonValue, ws: Seq<char>) -> Result<Option<DepView>, MetaError> {
    match json_str(pkg, "manifest_path"@) {
        Option::None => Result::Err(MetaError::MissingManifestPath),
        Option::Some(mp) => if path_starts_with(mp, ws) {
            Result::Ok(Option::None)
        } else {
            match json_str(pkg, "name"@) {
                Option::None => Result::Err(MetaError::MissingName),
                Option::Some(n) => match json_str(pkg, "version"@) {
                    Option::None => Result::Err(MetaError::MissingVersion),
                    Option::Some(v) => Result::Ok(
                        Option::Some(
                            DepView {
                                name: n,
                                version: v,
                                source_dir: parent_of(mp),
                                license: json_str(pkg, "license"@),
                                license_file: json_str(pkg, "license_file"@),
                                url: match json_str(pkg, "homepage"@) {
                                    Option::Some(h) => Option::Some(h),
                                    Option::None => json_str(pkg, "repository"@),
                                },
                            },
                        ),
                    ),
                },
            }
        },
    }
}

/// The descriptors that a list of package entries yields, in order, with
/// the first missing required field fatal to the whole extraction.
pub open spec fn extract_deps(pkgs: Seq<JsonValue>, ws: Seq<char>) -> Result<
    Seq<DepView>,
    MetaError,
>
    decreases pkgs.len(),
{
    if pkgs.len() == 0 {
        Result::Ok(Seq::empty())
    } else {
        match extract_dep(pkgs[0], ws) {
            Result::Err(e) => Result::Err(e),
            Result::Ok(head) => match extract_deps(pkgs.drop_first(), ws) {
                Result::Err(e) => Result::Err(e),
                Result::Ok(rest) => Result::Ok(
                    match head {
                        Option::Some(d) => seq![d] + rest,
                        Option::None => rest,
                    },
                ),
            },
        }
    }
}

/// What the whole response yields: the workspace root and the third-party
/// descriptors, or the first fatal parse error.
pub open spec fn extract_metadata_spec(v: JsonValue) -> Result<
    (Seq<char>, Seq<DepView>),
    MetaError,
> {
    match json_str(v, "workspace_root"@) {
        Option::None => Result::Err(MetaError::MissingWorkspaceRoot),
        Option::Some(ws) => match json_get(v, "packages"@) {
            Option::Some(JsonValue::Arr(pkgs)) => match extract_deps(pkgs@, ws) {
                Result::Ok(ds) => Result::Ok((ws, ds)),
                Result::Err(e) => Result::Err(e),
            },
            _ => Result::Err(MetaError::MissingPackages),
        },
    }
}

proof fn lemma_extract_deps_push(pkgs: Seq<JsonValue>, ws: Seq<char>, x: JsonValue)
    ensures
        extract_deps(pkgs.push(x), ws) == (match extract_deps(pkgs, ws) {
            Result::Err(e) => Result::Err(e),
            Result::Ok(ds) => match extract_dep(x, ws) {
                Result::Err(e) => Result::Err(e),
                Result::Ok(Option::Some(d)) => Result::Ok(ds.push(d)),
                Result::Ok(Option::None) => Result::Ok(ds),
            },
        }),
    decreases pkgs.len(),
{
    let whole = pkgs.push(x);
    if pkgs.len() == 0 {
        assert(whole[0] == x);
        assert(whole.drop_first() =~= Seq::<JsonValue>::empty());
        assert(extract_deps(Seq::<JsonValue>::empty(), ws) == Result::<Seq<DepView>, MetaError>::Ok(
            Seq::empty(),
        ));
        match extract_dep(x, ws) {
            Result::Err(e) => {},
            Result::Ok(Option::Some(d)) => {
                assert(seq![d] + Seq::<DepView>::empty() =~= Seq::<DepView>::empty().push(d));
            },
            Result::Ok(Option::None) => {},
        }
    } else {
        let tail = pkgs.drop_first();
        lemma_extract_deps_push(tail, ws, x);
        assert(whole[0] == pkgs[0]);
        assert(whole.drop_first() =~= tail.push(x));
        match extract_dep(pkgs[0], ws) {
            Result::Err(e) => {},
            Result::Ok(head) => {
                match (extract_deps(tail, ws), extract_dep(x, ws)) {
                    (Result::Ok(ds), Result::Ok(Option::Some(d))) => {
                        match head {
                            Option::Some(h) => {
                                assert(seq![h] + ds.push(d) =~= (seq![h] + ds).push(d));
                            },
                            Option::None => {},
                        }
                    },
                    _ => {},
                }
            },
        }
    }
}

proof fn lemma_extract_deps_prefix_err(pkgs: Seq<JsonValue>, ws: Seq<char>, k: int)
    requires
        0 <= k <= pkgs.len(),
        extract_deps(pkgs.take(k), ws) is Err,
    ensures
        extract_deps(pkgs, ws) == extract_deps(pkgs.take(k), ws),
    decreases pkgs.len(),
{
    assert(k > 0);
    let front = pkgs.take(k);
    assert(front[0] == pkgs[0]);
    match extract_dep(pkgs[0], ws) {
        Result::Err(e) => {},
        Result::Ok(head) => {
            assert(front.drop_first() =~= pkgs.drop_first().take(k - 1));
            assert(extract_deps(front.drop_first(), ws) is Err);
            lemma_extract_deps_prefix_err(pkgs.drop_first(), ws, k - 1);
        },
    }
}

/// Reads the package manager's response into dependency descriptors,
/// excluding workspace members and failing on the first missing required
/// field.
pub fn extract_metadata(v: &JsonValue) -> (r: Result<Vec<Dependency>, MetaError>)
    ensures
        match (r, extract_metadata_spec(*v)) {
            (Result::Ok(deps), Result::Ok(m)) => deps@.map_values(|d: Dependency| dep_view(d))
                == m.1,
            (Result::Err(e), Result::Err(e2)) => e == e2,
            _ => false,
        },
{
    let ws = match v.get_str("workspace_root") {
        Option::Some(s) => s,
        Option::None => {
            return Result::Err(MetaError::MissingWorkspaceRoot);
        },
    };
    let pkgs = match v.get("packages") {
        Option::Some(p) => match p {
            JsonValue::Arr(a) => {
                proof {
                    assert(*p == JsonValue::Arr(*a));
                }
                a
            },
            _ => {
                return Result::Err(MetaError::MissingPackages);
            },
        },
        Option::None => {
            return Result::Err(MetaError::MissingPackages);
        },
    };
    let ghost pv = pkgs@;
    let ghost wsv = ws@;
    proof {
        assert(json_str(*v, "workspace_root"@) == Option::Some(wsv));
        assert(json_get(*v, "packages"@) == Option::Some(JsonValue::Arr(*pkgs)));
    }
    let mut deps: Vec<Dependency> = Vec::new();
    let mut i: usize = 0;
    assert(pv.take(0) =~= Seq::<JsonValue>::empty());
    assert(Seq::<Dependency>::empty().map_values(|d: Dependency| dep_view(d)) =~= Seq::<
        DepView,
    >::empty());
    while i < pkgs.len()
        invariant
            0 <= i <= pkgs@.len(),
            pv == pkgs@,
            wsv == ws@,
            json_str(*v, "workspace_root"@) == Option::Some(wsv),
            json_get(*v, "packages"@) == Option::Some(JsonValue::Arr(*pkgs)),
            extract_deps(pv.take(i as int), wsv) == Result::<Seq<DepView>, MetaError>::Ok(
                deps@.map_values(|d: Dependency| dep_view(d)),
            ),
        decreases pkgs@.len() - i,
    {
        let pkg = &pkgs[i];
        proof {
            assert(pv.take(i + 1) =~= pv.take(i as int).push(pv[i as int]));
            lemma_extract_deps_push(pv.take(i as int), wsv, pv[i as int]);
        }
        let mp = match pkg.get_str("manifest_path") {
            Option::Some(s) => s,
            Option::None => {
                proof {
                    lemma_extract_deps_prefix_err(pv, wsv, i + 1);
                }
                return Result::Err(MetaError::MissingManifestPath);
            },
        };
        if !starts_with(mp, ws) {
            let name = match pkg.get_str("name") {
                Option::Some(s) => s.to_owned(),
                Option::None => {
                    proof {
                        lemma_extract_deps_prefix_err(pv, wsv, i + 1);
                    }
                    return Result::Err(MetaError::MissingName);
                },
            };
            let version = match pkg.get_str("version") {
                Option::Some(s) => s.to_owned(),
                Option::None => {
                    proof {
                        lemma_extract_deps_prefix_err(pv, wsv, i + 1);
                    }
                    return Result::Err(MetaError::MissingVersion);
                },
            };
            let source_dir = parent_exec(mp);
            let license = match pkg.get_str("license") {
                Option::Some(s) => Option::Some(s.to_owned()),
                Option::None => Option::None,
            };
            let license_file = match pkg.get_str("license_file") {
                Option::Some(s) => Option::Some(s.to_owned()),
                Option::None => Option::None,
            };
            let url = match pkg.get_str("homepage") {
                Option::Some(s) => Option::Some(s.to_owned()),
                Option::None => match pkg.get_str("repository") {
                    Option::Some(s) => Option::Some(s.to_owned()),
                    Option::None => Option::None,
                },
            };
            let ghost prev = deps@;
            let dep = Dependency { name, version, source_dir, license, license_file, url };
            deps.push(dep);
            proof {
                let f = |d: Dependency| dep_view(d);
                assert(deps@.map_values(f) =~= prev.map_values(f).push(dep_view(deps@.last())));
            }
        }
        i += 1;
    }
    assert(pv.take(pkgs@.len() as int) =~= pv);
    Result::Ok(deps)
}

/// A workspace member, inserted anywhere among the package entries, leaves
/// the extracted dependencies unchanged: members never reach the resolved
/// output.
pub proof fn lemma_workspace_member_invisible(
    pkgs: Seq<JsonValue>,
    i: int,
    member: JsonValue,
    ws: Seq<char>,
)
    requires
        0 <= i <= pkgs.len(),
        is_workspace_member(member, ws),
    ensures
        extract_deps(pkgs.insert(i, member), ws) == extract_deps(pkgs, ws),
    decreases pkgs.len(),
{
    let whole = pkgs.insert(i, member);
    if i == 0 {
        assert(whole[0] == member);
        assert(whole.drop_first() =~= pkgs);
        assert(extract_dep(member, ws) == Result::<Option<DepView>, MetaError>::Ok(Option::None));
    } else {
        assert(whole[0] == pkgs[0]);
        assert(whole.drop_first() =~= pkgs.drop_first().insert(i - 1, member));
        lemma_workspace_member_invisible(pkgs.drop_first(), i - 1, member, ws);
    }
}

} // verus!
