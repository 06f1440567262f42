//! Braid: does this Soroban contract's storage design allow it to run in
//! parallel?
//!
//! Protocol 23 (CAP-0063) executes Soroban transactions in parallel, grouping
//! them into sequential clusters by their declared footprints. Two
//! transactions that share a ledger entry, where at least one writes it,
//! cannot run at the same time. Because footprints are declared rather than
//! discovered at runtime, whether a contract can parallelise is a static
//! property of how it derives its storage keys, and something a tool can
//! check before the contract is deployed.
use vstd::prelude::*;

pub mod analyze;
pub mod laws;
pub mod model;
pub mod parse;
pub mod render_html;
pub mod render_text;
pub mod rust_parser;
pub mod syntax;
pub mod text;

pub use analyze::analyze;
pub use model::{
    Access, ConflictEdge, Durability, Finding, KeyClass, Report, Severity, SourceLine,
    StorageAccess, Summary, SCHEMA_VERSION,
};

use analyze::{analysis, classified, count_findings, count_severity, finding_views, is_edge};
use model::{severity_named, ConflictEdgeView, FindingView, ReportView, SourceLineView};
use parse::{contract_crate, error_views, files_fit, parsed_sources, scan_of, scan_views, views_fit};
use syntax::SourceFile;
use text::{lowered, owned, same, views};

verus! {

/// Scan a list of source files and report on them, with the files that
/// could not be read or parsed and why.
pub fn analyze_path(target: &str, files: &Vec<SourceFile>) -> (r: (Report, Vec<(String, String)>))
    requires
        files_fit(files@),
    ensures
        r.0@ == analysis(target@, scan_of(files@)),
        forall|e: ConflictEdgeView| #[trigger]
            r.0@.conflict_edges.contains(e) <==> is_edge(classified(scan_of(files@).functions), e),
        error_views(r.1@) == scan_of(files@).parse_errors,
{
    let scan = parse::scan(files);
    let report = analyze(target, &scan);
    (report, scan.parse_errors)
}

/// Parse and scan source texts as read (a path, and the text or why it
/// could not be read), and report on them, with the files that could not be
/// read or parsed and why. There is no result when a column is too large to
/// report.
pub fn analyze_sources(target: &str, files: &Vec<(String, Result<String, String>)>) -> (r: Option<
    (Report, Vec<(String, String)>),
>)
    ensures
        r is Some <==> views_fit(parsed_sources(files@)),
        r matches Some(p) ==> {
            let scan = scan_views(parsed_sources(files@), contract_crate(parsed_sources(files@)));
            &&& p.0@ == analysis(target@, scan)
            &&& error_views(p.1@) == scan.parse_errors
        },
{
    match parse::scan_sources(files) {
        Some(scan) => {
            let report = analyze(target, &scan);
            Some((report, scan.parse_errors))
        },
        None => None,
    }
}

/// The lines recorded for `file`: those of its first entry, or none.
pub open spec fn lines_for(sources: Seq<(Seq<char>, Seq<Seq<char>>)>, file: Seq<char>) -> Seq<
    Seq<char>,
>
    decreases sources.len(),
{
    if sources.len() == 0 {
        Seq::empty()
    } else if sources[0].0 == file {
        sources[0].1
    } else {
        lines_for(sources.drop_first(), file)
    }
}

/// The source lines within `radius` of `line` (1-based), clipped to the
/// file, the line itself marked.
pub open spec fn context_for(lines: Seq<Seq<char>>, line: usize, radius: usize) -> Seq<
    SourceLineView,
> {
    let start: int = if line - radius >= 1 {
        line - radius
    } else {
        1
    };
    let end: int = if line + radius <= lines.len() {
        line + radius
    } else {
        lines.len() as int
    };
    Seq::new(
        if end >= start {
            (end - start + 1) as nat
        } else {
            0
        },
        |k: int|
            SourceLineView {
                number: (start + k) as usize,
                text: lines[start + k - 1],
                hit: start + k == line,
            },
    )
}

/// A finding with the source around it attached, when its file has lines.
pub open spec fn with_context(
    f: FindingView,
    sources: Seq<(Seq<char>, Seq<Seq<char>>)>,
    radius: usize,
) -> FindingView {
    let lines = lines_for(sources, f.access.file);
    if lines.len() == 0 {
        f
    } else {
        FindingView { context: context_for(lines, f.access.line, radius), ..f }
    }
}

pub open spec fn source_views(v: Seq<(String, Vec<String>)>) -> Seq<(Seq<char>, Seq<Seq<char>>)> {
    v.map_values(|s: (String, Vec<String>)| (s.0@, views(s.1@)))
}

pub(crate) fn find_lines(sources: &Vec<(String, Vec<String>)>, file: &String) -> (r: Option<usize>)
    ensures
        match r {
            Some(k) => k < sources.len() && lines_for(source_views(sources@), file@) == source_views(
                sources@,
            )[k as int].1,
            None => lines_for(source_views(sources@), file@) == Seq::<Seq<char>>::empty(),
        },
{
    let ghost sv = source_views(sources@);
    let mut k: usize = 0;
    assert(sv.skip(0) =~= sv);
    while k < sources.len()
        invariant
            0 <= k <= sources.len(),
            sv == source_views(sources@),
            lines_for(sv, file@) == lines_for(sv.skip(k as int), file@),
        decreases sources.len() - k,
    {
        proof {
            assert(sv.skip(k as int).drop_first() =~= sv.skip(k + 1));
            assert(sv.skip(k as int)[0] == sv[k as int]);
        }
        if sources[k].0 == *file {
            return Some(k);
        }
        k += 1;
    }
    None
}

/// The context lines of a finding on `line` of a file with `lines`.
fn context_lines(lines: &Vec<String>, line: usize, radius: usize) -> (r: Vec<SourceLine>)
    requires
        line + radius <= usize::MAX,
    ensures
        r@.map_values(|l: SourceLine| l@) == context_for(views(lines@), line, radius),
{
    let ghost want = context_for(views(lines@), line, radius);
    let start: usize = if line >= radius && line - radius >= 1 {
        line - radius
    } else {
        1
    };
    let end: usize = if line + radius <= lines.len() {
        line + radius
    } else {
        lines.len()
    };
    let mut r: Vec<SourceLine> = Vec::new();
    if end < start {
        assert(want.len() == 0);
        assert(r@.map_values(|l: SourceLine| l@) =~= want);
        return r;
    }
    let count: usize = end - start + 1;
    assert(want.len() == count);
    let mut k: usize = 0;
    while k < count
        invariant
            1 <= start <= end,
            end <= lines.len(),
            count == end - start + 1,
            want == context_for(views(lines@), line, radius),
            want.len() == count,
            0 <= k <= count,
            forall|j: int|
                0 <= j < count ==> (#[trigger] want[j]) == (SourceLineView {
                    number: (start + j) as usize,
                    text: views(lines@)[start + j - 1],
                    hit: start + j == line,
                }),
            r@.map_values(|l: SourceLine| l@) == want.take(k as int),
        decreases count - k,
    {
        let n = start + k;
        let s = SourceLine { number: n, text: lines[n - 1].clone(), hit: n == line };
        let ghost sv = s@;
        let ghost prev = r@;
        proof {
            assert(views(lines@)[n - 1] == lines@[n - 1]@);
            assert(sv == want[k as int]);
        }
        r.push(s);
        proof {
            assert(r@.map_values(|l: SourceLine| l@) =~= prev.map_values(|l: SourceLine| l@).push(
                sv,
            ));
            assert(want.take((k + 1) as int) =~= want.take(k as int).push(sv));
        }
        k += 1;
    }
    assert(want.take(count as int) =~= want);
    r
}

/// Attach source context to every finding, from the lines of each file.
///
/// Kept out of `analyze` so the core reads no files: the caller reads each
/// file once and hands its lines over; a file it could not read has none,
/// and its findings keep the context they had.
pub fn attach_source(report: &mut Report, radius: usize, sources: &Vec<(String, Vec<String>)>)
    requires
        forall|i: int|
            0 <= i < old(report).findings@.len() ==> (#[trigger] old(
                report,
            ).findings@[i]).access.line + radius <= usize::MAX,
    ensures
        final(report)@ == (ReportView {
            findings: old(report)@.findings.map_values(
                |f: FindingView| with_context(f, source_views(sources@), radius),
            ),
            ..old(report)@
        }),
{
    let ghost start = report@;
    let ghost sv = source_views(sources@);
    let ghost want = start.findings.map_values(|g: FindingView| with_context(g, sv, radius));
    let mut i: usize = 0;
    assert(want.take(0) + start.findings.skip(0) =~= start.findings);
    while i < report.findings.len()
        invariant
            0 <= i <= report.findings.len(),
            sv == source_views(sources@),
            want == start.findings.map_values(|g: FindingView| with_context(g, sv, radius)),
            report.findings.len() == start.findings.len(),
            forall|j: int|
                0 <= j < start.findings.len() ==> (#[trigger] start.findings[j]).access.line + radius
                    <= usize::MAX,
            report@.findings == want.take(i as int) + start.findings.skip(i as int),
            report.schema_version == start.schema_version,
            report.target@ == start.target,
            report.summary == start.summary,
            report@.conflict_edges == start.conflict_edges,
            report@.parallel_safe_entry_points == start.parallel_safe_entry_points,
            report@.self_conflicting_entry_points == start.self_conflicting_entry_points,
        decreases report.findings.len() - i,
    {
        let ghost before = report.findings@;
        let ghost bv = report@.findings;
        proof {
            assert(report@.findings[i as int] == before[i as int]@);
            assert(report@.findings[i as int] == start.findings[i as int]);
        }
        let mut f = report.findings.remove(i);
        proof {
            assert(f == before[i as int]);
        }
        match find_lines(sources, &f.access.file) {
            Some(k) => {
                let lines = &sources[k].1;
                proof {
                    assert(sv[k as int].1 == views(lines@));
                }
                if lines.len() > 0 {
                    f.context = context_lines(lines, f.access.line, radius);
                }
            },
            None => {},
        }
        let ghost fv = f@;
        proof {
            assert(fv == want[i as int]);
        }
        report.findings.insert(i, f);
        proof {
            assert(report.findings@ =~= before.update(i as int, report.findings@[i as int]));
            assert(report@.findings =~= bv.update(i as int, fv));
            assert(report@.findings =~= want.take((i + 1) as int) + start.findings.skip(
                (i + 1) as int,
            ));
        }
        i += 1;
    }
    proof {
        assert(want.take(i as int) + start.findings.skip(i as int) =~= want);
    }
}

/// Recount the summary's severities from the findings the report holds.
pub fn recount(report: &mut Report)
    ensures
        final(report)@ == (ReportView {
            summary: Summary {
                critical: count_severity(old(report)@.findings, Severity::Critical) as usize,
                warning: count_severity(old(report)@.findings, Severity::Warning) as usize,
                info: count_severity(old(report)@.findings, Severity::Info) as usize,
                ..old(report)@.summary
            },
            ..old(report)@
        }),
{
    proof {
        assert(report@.findings =~= finding_views(report.findings@));
    }
    report.summary.critical = count_findings(&report.findings, Severity::Critical);
    report.summary.warning = count_findings(&report.findings, Severity::Warning);
    report.summary.info = count_findings(&report.findings, Severity::Info);
}

/// The findings that call for action: all but the info ones, in order.
pub open spec fn actionable(fs: Seq<FindingView>) -> Seq<FindingView>
    decreases fs.len(),
{
    if fs.len() == 0 {
        fs
    } else if fs.last().severity != Severity::Info {
        actionable(fs.drop_last()).push(fs.last())
    } else {
        actionable(fs.drop_last())
    }
}

/// Drop the info findings, which never require action, and recount.
pub fn hide_info(report: &mut Report)
    ensures
        final(report)@ == (ReportView {
            findings: actionable(old(report)@.findings),
            summary: Summary {
                critical: count_severity(actionable(old(report)@.findings), Severity::Critical)
                    as usize,
                warning: count_severity(actionable(old(report)@.findings), Severity::Warning)
                    as usize,
                info: count_severity(actionable(old(report)@.findings), Severity::Info) as usize,
                ..old(report)@.summary
            },
            ..old(report)@
        }),
{
    let ghost orig = report@.findings;
    let mut rest: Vec<Finding> = Vec::new();
    std::mem::swap(&mut rest, &mut report.findings);
    proof {
        assert(finding_views(rest@) =~= orig);
    }
    let ghost n = rest.len();
    let mut kept: Vec<Finding> = Vec::new();
    while rest.len() > 0
        invariant
            rest.len() <= n,
            orig.len() == n,
            finding_views(rest@) == orig.skip(n - rest.len()),
            finding_views(kept@) == actionable(orig.take(n - rest.len())),
        decreases rest.len(),
    {
        let ghost k = n - rest.len();
        let ghost r0 = rest@;
        proof {
            assert(finding_views(r0)[0] == r0[0]@);
        }
        let f = rest.remove(0);
        proof {
            assert(f == r0[0]);
            assert(f@ == orig[k]);
            assert(orig.take(k + 1).drop_last() =~= orig.take(k));
            assert(orig.take(k + 1).last() == f@);
            assert(rest@ =~= r0.skip(1));
            assert(finding_views(rest@) =~= finding_views(r0).skip(1));
            assert(orig.skip(k).skip(1) =~= orig.skip(k + 1));
            assert(finding_views(rest@) =~= orig.skip(k + 1));
        }
        if f.severity != Severity::Info {
            let ghost prev = kept@;
            let ghost fv = f@;
            kept.push(f);
            assert(finding_views(kept@) =~= finding_views(prev).push(fv));
        }
    }
    proof {
        assert(orig.take(n as int) =~= orig);
    }
    report.findings = kept;
    recount(report);
}

/// Why a `--fail-on` value was refused.
pub open spec fn unknown_severity(s: Seq<char>) -> Seq<char> {
    "unknown severity `"@ + s + "` \u{2014} use critical, warning, info, or none"@
}

/// The threshold a `--fail-on` value asks for: none when it is absent or
/// `none`, else the severity it names, ignoring case.
pub open spec fn threshold_of(fail_on: Option<Seq<char>>) -> Result<Option<Severity>, Seq<char>> {
    match fail_on {
        None => Ok(None),
        Some(s) => if s == "none"@ {
            Ok(None)
        } else {
            match severity_named(lowered(s)) {
                Some(v) => Ok(Some(v)),
                None => Err(unknown_severity(s)),
            }
        },
    }
}

/// Read the `--fail-on` threshold: absent or `none` never fails a run.
pub fn fail_on_threshold(fail_on: Option<&str>) -> (r: Result<Option<Severity>, String>)
    ensures
        match r {
            Ok(t) => threshold_of(
                match fail_on {
                    Some(s) => Some(s@),
                    None => None,
                },
            ) == Ok::<Option<Severity>, Seq<char>>(t),
            Err(m) => threshold_of(
                match fail_on {
                    Some(s) => Some(s@),
                    None => None,
                },
            ) == Err::<Option<Severity>, Seq<char>>(m@),
        },
{
    match fail_on {
        None => Ok(None),
        Some(s) => {
            if same(s, "none") {
                return Ok(None);
            }
            match Severity::parse(s) {
                Some(v) => Ok(Some(v)),
                None => {
                    let mut m = owned("unknown severity `");
                    m.append(s);
                    m.append("` \u{2014} use critical, warning, info, or none");
                    Err(m)
                },
            }
        },
    }
}

} // verus!
