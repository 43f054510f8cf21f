//! The report assembler: the summary block, one section per license file,
//! the warnings, and the decision between a rendered report and a fatal
//! outcome.

use vstd::prelude::*;
use vstd::string::*;

use crate::metadata::opt_view;
use crate::resolve::spec_display_name;
use crate::resolve::spec_full_name;
use crate::resolve::Package;
use crate::paths::str_views;
use crate::seq_util::concat_map;
use crate::seq_util::lemma_concat_map_take;

verus! {

/// The two colors that messages on the error stream carry.
pub enum Color {
    Red,
    Yellow,
}

/// The ANSI escape prefix of a color.
pub open spec fn color_prefix(c: Color) -> Seq<char> {
    match c {
        Color::Red => "\u{1b}[31m"@,
        Color::Yellow => "\u{1b}[33m"@,
    }
}

/// Wraps a message in the escape codes of a color and the reset code.
pub fn colorize(message: String, color: Color) -> (r: String)
    ensures
        r@ == color_prefix(color) + message@ + "\u{1b}[0m"@,
{
    let prefix = match color {
        Color::Red => "\u{1b}[31m",
        Color::Yellow => "\u{1b}[33m",
    };
    prefix.to_owned().concat(message.as_str()).concat("\u{1b}[0m")
}

/// The delimiter line above and below a section header.
pub open spec fn spec_delim() -> Seq<char> {
    "================================================================================"@
}

/// A section header: the delimiter, the header text, the delimiter.
pub open spec fn spec_header_block(h: Seq<char>) -> Seq<char> {
    spec_delim() + "\n"@ + h + "\n"@ + spec_delim()
}

/// Renders one section header.
pub fn header_block(header: &str) -> (r: String)
    ensures
        r@ == spec_header_block(header@),
{
    let delim = "================================================================================";
    delim.to_owned().concat("\n").concat(header).concat("\n").concat(delim)
}

/// The summary lines of one package: a separating blank line, the display
/// identifier, then the URL and the declared license where present.
pub open spec fn spec_package_summary(p: Package) -> Seq<Seq<char>> {
    seq![Seq::empty(), spec_display_name(p)] + (match opt_view(p.url) {
        Option::Some(u) => seq![u],
        Option::None => Seq::empty(),
    }) + (match opt_view(p.license) {
        Option::Some(l) => seq![l],
        Option::None => Seq::empty(),
    })
}

/// The whole summary: its header block, then every package's lines in
/// input order.
pub open spec fn spec_summary(pkgs: Seq<Package>) -> Seq<Seq<char>> {
    seq![spec_header_block("Summary"@)] + concat_map(pkgs, |p: Package| spec_package_summary(p))
}

fn push_package_summary(out: &mut Vec<String>, p: &Package)
    ensures
        str_views(final(out)@) == str_views(old(out)@) + spec_package_summary(*p),
{
    let ghost s0 = out@;
    out.push(String::new());
    proof {
        assert(str_views(out@) =~= str_views(s0).push(out@.last()@));
    }
    let ghost s1 = out@;
    out.push(p.display_name());
    proof {
        assert(str_views(out@) =~= str_views(s1).push(out@.last()@));
    }
    let ghost s2 = out@;
    match &p.url {
        Option::Some(u) => {
            out.push(u.clone());
            proof {
                assert(str_views(out@) =~= str_views(s2).push(out@.last()@));
            }
        },
        Option::None => {},
    }
    let ghost s3 = out@;
    match &p.license {
        Option::Some(l) => {
            out.push(l.clone());
            proof {
                assert(str_views(out@) =~= str_views(s3).push(out@.last()@));
            }
        },
        Option::None => {},
    }
    proof {
        assert(str_views(out@) =~= str_views(s0) + spec_package_summary(*p));
    }
}

/// Renders the summary as one line per entry.
pub fn render_summary(packages: &Vec<Package>) -> (r: Vec<String>)
    ensures
        str_views(r@) == spec_summary(packages@),
{
    let ghost f = |p: Package| spec_package_summary(p);
    let mut out: Vec<String> = Vec::new();
    out.push(header_block("Summary"));
    proof {
        assert(concat_map(packages@.take(0), f) =~= Seq::<Seq<char>>::empty());
        assert(str_views(out@) =~= seq![spec_header_block("Summary"@)] + concat_map(
            packages@.take(0),
            f,
        ));
    }
    let mut i: usize = 0;
    while i < packages.len()
        invariant
            0 <= i <= packages@.len(),
            str_views(out@) == seq![spec_header_block("Summary"@)] + concat_map(
                packages@.take(i as int),
                f,
            ),
            f == (|p: Package| spec_package_summary(p)),
        decreases packages@.len() - i,
    {
        push_package_summary(&mut out, &packages[i]);
        proof {
            lemma_concat_map_take(packages@, i as int, f);
            assert(f(packages@[i as int]) == spec_package_summary(packages@[i as int]));
            assert(str_views(out@) =~= seq![spec_header_block("Summary"@)] + concat_map(
                packages@.take(i + 1),
                f,
            ));
        }
        i += 1;
    }
    proof {
        assert(packages@.take(packages@.len() as int) =~= packages@);
    }
    out
}

/// One section of the report: its header text, and the path of the file
/// whose raw content follows it.
pub struct Section {
    pub title: String,
    pub path: String,
}

/// The views of a list of sections.
pub open spec fn section_views(s: Seq<Section>) -> Seq<(Seq<char>, Seq<char>)> {
    s.map_values(|x: Section| (x.title@, x.path@))
}

/// The sections of one package: one per license file, in the file list's
/// order, titled by the display name and the relative path.
pub open spec fn spec_package_sections(p: Package) -> Seq<(Seq<char>, Seq<char>)> {
    p.license_files@.map_values(
        |f: crate::resolve::LicenseFile| (spec_display_name(p) + " "@ + f.relative_path@, f.path@),
    )
}

/// Every package's sections, in input order.
pub open spec fn spec_sections(pkgs: Seq<Package>) -> Seq<(Seq<char>, Seq<char>)> {
    concat_map(pkgs, |p: Package| spec_package_sections(p))
}

/// Renders every license-file section, in report order.
pub fn render_sections(packages: &Vec<Package>) -> (r: Vec<Section>)
    ensures
        section_views(r@) == spec_sections(packages@),
{
    let ghost f = |p: Package| spec_package_sections(p);
    let mut out: Vec<Section> = Vec::new();
    proof {
        assert(concat_map(packages@.take(0), f) =~= Seq::<(Seq<char>, Seq<char>)>::empty());
        assert(section_views(out@) =~= concat_map(packages@.take(0), f));
    }
    let mut i: usize = 0;
    while i < packages.len()
        invariant
            0 <= i <= packages@.len(),
            section_views(out@) == concat_map(packages@.take(i as int), f),
            f == (|p: Package| spec_package_sections(p)),
        decreases packages@.len() - i,
    {
        let p = &packages[i];
        let dn = p.display_name();
        let mut j: usize = 0;
        proof {
            assert(spec_package_sections(*p).take(0) =~= Seq::<(Seq<char>, Seq<char>)>::empty());
            assert(section_views(out@) =~= concat_map(packages@.take(i as int), f)
                + spec_package_sections(*p).take(0));
        }
        while j < p.license_files.len()
            invariant
                0 <= j <= p.license_files@.len(),
                dn@ == spec_display_name(*p),
                section_views(out@) == concat_map(packages@.take(i as int), f)
                    + spec_package_sections(*p).take(j as int),
                f == (|p: Package| spec_package_sections(p)),
                i < packages@.len(),
                *p == packages@[i as int],
            decreases p.license_files@.len() - j,
        {
            let file = &p.license_files[j];
            let title = dn.clone().concat(" ").concat(file.relative_path.as_str());
            let path = file.path.clone();
            let ghost s0 = out@;
            out.push(Section { title, path });
            proof {
                assert(section_views(out@) =~= section_views(s0).push(
                    (out@.last().title@, out@.last().path@),
                ));
                assert(spec_package_sections(*p)[j as int] == (out@.last().title@,
                out@.last().path@));
                assert(spec_package_sections(*p).take(j + 1) =~= spec_package_sections(*p).take(
                    j as int,
                ).push(spec_package_sections(*p)[j as int]));
                assert(section_views(out@) =~= concat_map(packages@.take(i as int), f)
                    + spec_package_sections(*p).take(j + 1));
            }
            j += 1;
        }
        proof {
            assert(spec_package_sections(*p).take(p.license_files@.len() as int)
                =~= spec_package_sections(*p));
            lemma_concat_map_take(packages@, i as int, f);
        }
        i += 1;
    }
    proof {
        assert(packages@.take(packages@.len() as int) =~= packages@);
    }
    out
}

/// The two fatal outcomes that the resolution itself can decide.
#[derive(Debug)]
pub enum RunError {
    NoDependencies,
    MissingLicenseFiles,
}

/// The warning for a package without a declared license string.
pub open spec fn spec_no_license_warning(p: Package) -> Seq<char> {
    "No license field: "@ + spec_full_name(p)
}

/// The warning for a package without a single license file, with its URL
/// appended when asked for.
pub open spec fn spec_no_files_warning(p: Package, show_url: bool) -> Seq<char> {
    "No license files found: "@ + spec_full_name(p) + (if show_url {
        match opt_view(p.url) {
            Option::Some(u) => " ("@ + u + ")"@,
            Option::None => Seq::<char>::empty(),
        }
    } else {
        Seq::<char>::empty()
    })
}

/// One warning per package without a license string, in input order.
pub open spec fn spec_license_warnings(pkgs: Seq<Package>) -> Seq<Seq<char>> {
    concat_map(
        pkgs,
        |p: Package|
            if opt_view(p.license) is None {
                seq![spec_no_license_warning(p)]
            } else {
                Seq::<Seq<char>>::empty()
            },
    )
}

/// One warning per package without license files, in input order.
pub open spec fn spec_file_warnings(pkgs: Seq<Package>, show_url: bool) -> Seq<Seq<char>> {
    concat_map(
        pkgs,
        |p: Package|
            if p.license_files@.len() == 0 {
                seq![spec_no_files_warning(p, show_url)]
            } else {
                Seq::<Seq<char>>::empty()
            },
    )
}

/// Every warning of a run: the missing-license warnings, then the
/// missing-file warnings.
pub open spec fn spec_warnings(pkgs: Seq<Package>, show_url: bool) -> Seq<Seq<char>> {
    spec_license_warnings(pkgs) + spec_file_warnings(pkgs, show_url)
}

/// Some package has no license file at all.
pub open spec fn any_missing_files(pkgs: Seq<Package>) -> bool {
    exists|i: int| 0 <= i < pkgs.len() && (#[trigger] pkgs[i].license_files@).len() == 0
}

/// The rendered report: the summary lines, then one section per license
/// file.
pub struct Report {
    pub summary: Vec<String>,
    pub sections: Vec<Section>,
}

/// What one run decides: the warnings to print, and either the report or
/// the fatal outcome.
pub struct RunOutcome {
    pub warnings: Vec<String>,
    pub result: Result<Report, RunError>,
}

/// Decides a run over the resolved packages: fails on an empty set, warns
/// about missing license strings and missing license files, fails in the
/// strict mode when any file is missing, and otherwise renders the report.
pub fn run(packages: &Vec<Package>, require_files: bool, show_url: bool) -> (r: RunOutcome)
    ensures
        packages@.len() == 0 ==> (r.result matches Result::Err(RunError::NoDependencies)
            && r.warnings@.len() == 0),
        packages@.len() > 0 ==> str_views(r.warnings@) == spec_warnings(packages@, show_url),
        packages@.len() > 0 && require_files && any_missing_files(packages@) ==> r.result matches
            Result::Err(RunError::MissingLicenseFiles),
        packages@.len() > 0 && !(require_files && any_missing_files(packages@)) ==> (r.result
            matches Result::Ok(rep) && str_views(rep.summary@) == spec_summary(packages@)
            && section_views(rep.sections@) == spec_sections(packages@)),
{
    if packages.len() == 0 {
        return RunOutcome {
            warnings: Vec::new(),
            result: Result::Err(RunError::NoDependencies),
        };
    }
    let ghost lf = |p: Package|
        if opt_view(p.license) is None {
            seq![spec_no_license_warning(p)]
        } else {
            Seq::<Seq<char>>::empty()
        };
    let ghost ff = |p: Package|
        if p.license_files@.len() == 0 {
            seq![spec_no_files_warning(p, show_url)]
        } else {
            Seq::<Seq<char>>::empty()
        };
    let mut warnings: Vec<String> = Vec::new();
    proof {
        assert(concat_map(packages@.take(0), lf) =~= Seq::<Seq<char>>::empty());
        assert(str_views(warnings@) =~= concat_map(packages@.take(0), lf));
    }
    let mut i: usize = 0;
    while i < packages.len()
        invariant
            0 <= i <= packages@.len(),
            str_views(warnings@) == concat_map(packages@.take(i as int), lf),
            lf == (|p: Package|
                if opt_view(p.license) is None {
                    seq![spec_no_license_warning(p)]
                } else {
                    Seq::<Seq<char>>::empty()
                }),
        decreases packages@.len() - i,
    {
        let p = &packages[i];
        proof {
            lemma_concat_map_take(packages@, i as int, lf);
        }
        match &p.license {
            Option::None => {
                let ghost s0 = warnings@;
                let full = p.full_name();
                warnings.push("No license field: ".to_owned().concat(full.as_str()));
                proof {
                    assert(str_views(warnings@) =~= str_views(s0).push(warnings@.last()@));
                    assert(warnings@.last()@ == spec_no_license_warning(packages@[i as int]));
                    assert(str_views(warnings@) =~= concat_map(packages@.take(i + 1), lf));
                }
            },
            Option::Some(_) => {
                proof {
                    assert(concat_map(packages@.take(i + 1), lf) =~= concat_map(
                        packages@.take(i as int),
                        lf,
                    ));
                }
            },
        }
        i += 1;
    }
    proof {
        assert(packages@.take(packages@.len() as int) =~= packages@);
    }
    let mut missing = false;
    proof {
        assert(concat_map(packages@.take(0), ff) =~= Seq::<Seq<char>>::empty());
        assert(str_views(warnings@) =~= spec_license_warnings(packages@) + concat_map(
            packages@.take(0),
            ff,
        ));
    }
    let mut i: usize = 0;
    while i < packages.len()
        invariant
            0 <= i <= packages@.len(),
            str_views(warnings@) == spec_license_warnings(packages@) + concat_map(
                packages@.take(i as int),
                ff,
            ),
            missing == exists|k: int|
                0 <= k < i && (#[trigger] packages@[k].license_files@).len() == 0,
            ff == (|p: Package|
                if p.license_files@.len() == 0 {
                    seq![spec_no_files_warning(p, show_url)]
                } else {
                    Seq::<Seq<char>>::empty()
                }),
        decreases packages@.len() - i,
    {
        let p = &packages[i];
        proof {
            lemma_concat_map_take(packages@, i as int, ff);
        }
        if p.license_files.len() == 0 {
            let ghost s0 = warnings@;
            let full = p.full_name();
            let mut msg = "No license files found: ".to_owned().concat(full.as_str());
            if show_url {
                match &p.url {
                    Option::Some(u) => {
                        msg = msg.concat(" (").concat(u.as_str()).concat(")");
                    },
                    Option::None => {},
                }
            }
            proof {
                assert(msg@ =~= spec_no_files_warning(packages@[i as int], show_url));
            }
            warnings.push(msg);
            missing = true;
            proof {
                assert(str_views(warnings@) =~= str_views(s0).push(warnings@.last()@));
                assert(str_views(warnings@) =~= spec_license_warnings(packages@) + concat_map(
                    packages@.take(i + 1),
                    ff,
                ));
            }
        } else {
            proof {
                assert(concat_map(packages@.take(i + 1), ff) =~= concat_map(
                    packages@.take(i as int),
                    ff,
                ));
            }
        }
        i += 1;
    }
    proof {
        assert(packages@.take(packages@.len() as int) =~= packages@);
    }
    if require_files && missing {
        return RunOutcome { warnings, result: Result::Err(RunError::MissingLicenseFiles) };
    }
    let summary = render_summary(packages);
    let sections = render_sections(packages);
    RunOutcome { warnings, result: Result::Ok(Report { summary, sections }) }
}

} // verus!
