//! Self-contained interactive HTML report.
//!
//! No network, no build step, no server: one file you can open, attach to a
//! pull request, or publish as a CI artifact. Source context is inlined at
//! render time so the report stays readable after the working tree moves on.
use vstd::prelude::*;
use crate::model::{
    ConflictEdgeView, Finding, FindingView, KeyClass, KeyClassView, Report, ReportView, Severity,
};
use crate::text::{decimal, decimal_string, join, replace, replaced, seq_join, views};
use crate::{find_lines, lines_for, source_views};

verus! {

/// The document head up to the title text.
pub const HEAD_TITLE: &'static str = r##"<!doctype html>
<html lang="en">
<head>
<meta charset="utf-8">
<meta name="viewport" content="width=device-width, initial-scale=1">
<title>Braid — "##;

/// The rest of the head, the style sheet and the header up to the target.
pub const HEAD_STYLE: &'static str = r##"</title>
<style>
:root {
  --paper:#eceef1; --surface:#f7f8fa; --surface-2:#e3e6ea;
  --ink:#181b21; --ink-2:#4a515c; --ink-3:#767d8a;
  --rule:#cdd2d9; --rule-soft:#dde1e6;
  --crit:#a8451a; --warn:#8a6a1e; --info:#3d5a7a; --pass:#2f6552;
  --mono:"SF Mono",SFMono-Regular,ui-monospace,Menlo,Consolas,monospace;
  --sans:system-ui,-apple-system,"Segoe UI",Helvetica,Arial,sans-serif;
}
@media (prefers-color-scheme: dark) {
  :root:not([data-theme="light"]) {
    --paper:#101317; --surface:#171b21; --surface-2:#1f242b;
    --ink:#e8eaee; --ink-2:#a9b1bc; --ink-3:#7d8593;
    --rule:#2c323a; --rule-soft:#242a31;
    --crit:#e08453; --warn:#cfa445; --info:#7ea6d0; --pass:#6fb99b;
  }
}
* { box-sizing:border-box }
body { margin:0; background:var(--paper); color:var(--ink); font-family:var(--sans);
        font-size:15px; line-height:1.6; -webkit-font-smoothing:antialiased }
.wrap { max-width:1000px; margin:0 auto; padding:0 24px }
header { background:var(--surface); border-bottom:1px solid var(--rule); padding:28px 0 24px }
h1 { margin:0; font-size:13px; letter-spacing:.16em; text-transform:uppercase; color:var(--ink-3); font-weight:600 }
.target { font-family:var(--mono); font-size:22px; margin:6px 0 0; word-break:break-all }
.meta { color:var(--ink-3); font-size:13px; margin-top:6px }
.counts { display:flex; gap:8px; flex-wrap:wrap; margin-top:18px }
.chip { font-family:var(--mono); font-size:12px; padding:6px 12px; border:1px solid var(--rule);
         border-radius:2px; background:var(--paper); cursor:pointer; color:var(--ink-2) }
.chip[aria-pressed="true"] { border-color:currentColor; font-weight:600 }
.chip.critical[aria-pressed="true"] { color:var(--crit) }
.chip.warning[aria-pressed="true"]  { color:var(--warn) }
.chip.info[aria-pressed="true"]     { color:var(--info) }
main { padding:28px 0 60px }
.finding { border-left:3px solid var(--rule); background:var(--surface); margin-bottom:2px; padding:16px 20px }
.finding.critical { border-left-color:var(--crit) }
.finding.warning  { border-left-color:var(--warn) }
.finding.info     { border-left-color:var(--info) }
.fhead { display:flex; gap:12px; align-items:baseline; flex-wrap:wrap }
.sev { font-family:var(--mono); font-size:10.5px; letter-spacing:.11em; text-transform:uppercase; font-weight:600 }
.critical .sev { color:var(--crit) } .warning .sev { color:var(--warn) } .info .sev { color:var(--info) }
.loc { font-family:var(--mono); font-size:12.5px; color:var(--ink-2) }
.fn { font-family:var(--mono); font-size:12.5px; color:var(--ink-3) }
.summary { margin:8px 0 0 }
.tags { display:flex; gap:6px; flex-wrap:wrap; margin-top:10px }
.tag { font-family:var(--mono); font-size:10.5px; padding:2px 8px; border:1px solid var(--rule);
        border-radius:2px; color:var(--ink-3) }
pre { background:var(--surface-2); border-radius:2px; padding:12px 0; margin:12px 0 0;
       overflow-x:auto; font-family:var(--mono); font-size:12.5px; line-height:1.55 }
pre .ln { display:block; padding:0 16px; white-space:pre }
pre .ln .no { color:var(--ink-3); user-select:none; display:inline-block; width:3.5em; text-align:right; margin-right:1.2em }
pre .ln.hit { background:color-mix(in srgb, var(--crit) 14%, transparent) }
details { margin-top:12px }
summary { cursor:pointer; font-size:13px; color:var(--ink-2); font-family:var(--mono) }
details pre { background:transparent; border:1px solid var(--rule); padding:12px 16px; white-space:pre-wrap }
h2 { font-size:12px; letter-spacing:.14em; text-transform:uppercase; color:var(--ink-3);
      margin:40px 0 12px; font-weight:600 }
table { border-collapse:collapse; width:100%; font-size:13.5px }
th { text-align:left; font-size:10.5px; letter-spacing:.12em; text-transform:uppercase;
      color:var(--ink-3); font-weight:500; padding:0 14px 8px 0; border-bottom:1px solid var(--rule) }
td { padding:9px 14px 9px 0; border-bottom:1px solid var(--rule-soft); vertical-align:top }
td.m { font-family:var(--mono); font-size:12.5px }
.pass { color:var(--pass); font-weight:600 }
.empty { background:var(--surface); border-left:3px solid var(--pass); padding:20px }
.hidden { display:none !important }
footer { color:var(--ink-3); font-size:12.5px; padding:0 0 40px }
</style>
</head>
<body>
<header><div class="wrap">
  <h1>Braid · parallel-execution conflicts</h1>
  <p class="target">"##;

/// Between the target and the file count.
pub const HEAD_META: &'static str = r##"</p>
  <p class="meta">"##;

/// After the file count.
pub const HEAD_FILES: &'static str = r##" file(s) · "##;

/// After the function count.
pub const HEAD_FUNCTIONS: &'static str = r##" function(s) · "##;

/// After the entry point count.
pub const HEAD_ENTRY_POINTS: &'static str = r##" entry point(s) · "##;

/// After the storage access count, up to the critical count.
pub const HEAD_ACCESSES: &'static str = r##" storage access(es) · CAP-0063</p>
  <div class="counts">
    <button class="chip critical" aria-pressed="true" data-sev="critical">"##;

/// After the critical count.
pub const HEAD_CRITICAL: &'static str = r##" critical</button>
    <button class="chip warning"  aria-pressed="true" data-sev="warning">"##;

/// After the warning count.
pub const HEAD_WARNING: &'static str = r##" warning</button>
    <button class="chip info"     aria-pressed="true" data-sev="info">"##;

/// After the info count: the end of the header.
pub const HEAD_INFO: &'static str = r##" info</button>
  </div>
</div></header>
<main><div class="wrap">
"##;

/// What a report without findings says.
pub const EMPTY: &'static str = r##"<div class="empty"><p class="pass">No conflicts found.</p>
<p>Every mutable ledger entry this contract touches is keyed by a value the caller
supplies, and none of them live in instance storage. Under CAP-0063 these entry
points cluster independently, so they can execute in parallel.</p></div>"##;

/// The heading and header row of the table of conflicting pairs.
pub const EDGES_HEAD: &'static str = r##"<h2>Entry points that cannot run in parallel</h2>
<table><thead><tr><th>Entry point</th><th>Entry point</th><th>Why</th></tr></thead><tbody>"##;

/// The end of the page: footer and the severity filter script.
pub const FOOT: &'static str = r##"</div></main>
<footer><div class="wrap">
Braid analyses storage-key derivation only. It does not audit security or measure
resource cost. Reads never conflict; only a shared entry with at least one writer does.
</div></footer>
<script>
const chips = document.querySelectorAll('.chip');
function apply() {
  const on = new Set([...chips].filter(c => c.getAttribute('aria-pressed') === 'true')
                                .map(c => c.dataset.sev));
  document.querySelectorAll('.finding').forEach(el => {
    el.classList.toggle('hidden', !on.has(el.dataset.sev));
  });
}
chips.forEach(c => c.addEventListener('click', () => {
  c.setAttribute('aria-pressed', c.getAttribute('aria-pressed') === 'true' ? 'false' : 'true');
  apply();
}));
apply();
</script>
</body>
</html>
"##;


/// `s` with `&`, `<`, `>` and `"` written as HTML entities.
pub open spec fn escaped(s: Seq<char>) -> Seq<char> {
    replaced(
        replaced(replaced(replaced(s, "&"@, "&amp;"@), "<"@, "&lt;"@), ">"@, "&gt;"@),
        "\""@,
        "&quot;"@,
    )
}

/// Escape text for HTML element content and attribute values.
pub fn esc(s: &str) -> (r: String)
    ensures
        r@ == escaped(s@),
{
    proof {
        reveal_strlit("&");
        reveal_strlit("<");
        reveal_strlit(">");
        reveal_strlit("\"");
    }
    let a = replace(s, "&", "&amp;");
    let b = replace(a.as_str(), "<", "&lt;");
    let c = replace(b.as_str(), ">", "&gt;");
    replace(c.as_str(), "\"", "&quot;")
}

/// The CSS class a severity is drawn with.
pub fn a_sev(s: Severity) -> (r: &'static str)
    ensures
        r@ == s.name(),
{
    match s {
        Severity::Critical => "critical",
        Severity::Warning => "warning",
        Severity::Info => "info",
    }
}

/// The extra tag a sequence-derived key shows: the counter it comes from.
pub open spec fn counter_tag(c: KeyClassView) -> Seq<char> {
    match c {
        KeyClassView::SequenceDerived { counter } => "<span class=\"tag\">counter: "@ + escaped(
            counter,
        ) + "</span>"@,
        _ => Seq::empty(),
    }
}

/// The tag that says whether the access sits in an entry point.
pub open spec fn role_tag(entry_point: bool) -> Seq<char> {
    if entry_point {
        "<span class=\"tag\">entry point</span>"@
    } else {
        "<span class=\"tag\">internal</span>"@
    }
}

/// The opening of a finding's article: severity, location and function.
#[verifier::opaque]
pub open spec fn article_open(f: FindingView) -> Seq<char> {
    let a = f.access;
    let sev = f.severity.name();
    "<article class=\"finding "@ + sev + "\" data-sev=\""@ + sev
        + "\">\n<div class=\"fhead\"><span class=\"sev\">"@ + sev
        + "</span>\n<span class=\"loc\">"@ + escaped(a.file) + ":"@ + decimal(a.line as nat) + ":"@
        + decimal(a.column as nat) + "</span>\n<span class=\"fn\">in "@ + escaped(a.function)
        + "()</span></div>"@
}

/// The summary and the tags of a finding.
#[verifier::opaque]
pub open spec fn article_tags(f: FindingView) -> Seq<char> {
    let a = f.access;
    "\n<p class=\"summary\">"@ + escaped(f.summary)
        + "</p>\n<div class=\"tags\"><span class=\"tag\">"@ + a.durability.name() + " "@
        + a.access.name() + "</span><span class=\"tag\">"@ + a.class.label() + "</span>"@
        + counter_tag(a.class) + role_tag(a.entry_point) + "</div>"@
}

/// The opening of a finding's article: severity, location, function,
/// summary and tags.
pub open spec fn article_head(f: FindingView) -> Seq<char> {
    article_open(f) + article_tags(f)
}

/// Line `n` (1-based) of a source listing, marked when it is the hit.
pub open spec fn snippet_row(lines: Seq<Seq<char>>, line: usize, n: int) -> Seq<char> {
    "<span class=\"ln"@ + (if n == line {
        " hit"@
    } else {
        Seq::empty()
    }) + "\"><span class=\"no\">"@ + decimal(n as nat) + "</span>"@ + escaped(lines[n - 1])
        + "</span>"@
}

/// The `k` rows of a listing from line `start` on.
pub open spec fn snippet_rows(lines: Seq<Seq<char>>, line: usize, start: int, k: int) -> Seq<char>
    decreases k,
{
    if k <= 0 {
        Seq::empty()
    } else {
        snippet_rows(lines, line, start, k - 1) + snippet_row(lines, line, start + k - 1)
    }
}

/// The first listed line: three above the hit, but not before line 1.
pub open spec fn snippet_start(line: usize) -> int {
    if line >= 4 {
        line - 3
    } else {
        1
    }
}

/// The last listed line: two below the hit, but not past the file's end.
pub open spec fn snippet_end(line: usize, len: nat) -> int {
    if line + 2 <= len {
        line + 2
    } else {
        len as int
    }
}

/// The listing around a finding, when its file has lines.
pub open spec fn snippet(lines: Seq<Seq<char>>, line: usize) -> Seq<char> {
    if lines.len() == 0 {
        Seq::empty()
    } else {
        let start = snippet_start(line);
        "<pre>"@ + snippet_rows(lines, line, start, snippet_end(line, lines.len()) - start + 1)
            + "</pre>"@
    }
}

/// The other entry points on the same entry, when there are any.
#[verifier::opaque]
pub open spec fn article_also(f: FindingView) -> Seq<char> {
    if f.also_touched_by.len() > 0 {
        "<p class=\"meta\">Same ledger entry is also touched by: <span class=\"loc\">"@ + escaped(
            seq_join(f.also_touched_by, ", "@),
        ) + "</span></p>"@
    } else {
        Seq::empty()
    }
}

/// The remediation, folded away, for findings above info.
#[verifier::opaque]
pub open spec fn article_fix(f: FindingView) -> Seq<char> {
    if f.severity.level() > Severity::Info.level() {
        "<details><summary>How to fix this</summary><pre>"@ + escaped(f.remediation)
            + "</pre></details>"@
    } else {
        Seq::empty()
    }
}

/// One finding as an article, with the source lines of its file.
pub open spec fn article(f: FindingView, sources: Seq<(Seq<char>, Seq<Seq<char>>)>) -> Seq<char> {
    article_head(f) + snippet(lines_for(sources, f.access.file), f.access.line) + article_also(f)
        + article_fix(f) + "</article>"@
}

/// The articles of `fs[..n]`.
pub open spec fn articles(
    fs: Seq<FindingView>,
    sources: Seq<(Seq<char>, Seq<Seq<char>>)>,
    n: int,
) -> Seq<char>
    decreases n,
{
    if n <= 0 {
        Seq::empty()
    } else {
        articles(fs, sources, n - 1) + article(fs[n - 1], sources)
    }
}

/// The table rows of the conflicting pairs.
pub open spec fn edge_rows(es: Seq<ConflictEdgeView>) -> Seq<char>
    decreases es.len(),
{
    if es.len() == 0 {
        Seq::empty()
    } else {
        let e = es.last();
        edge_rows(es.drop_last()) + "<tr><td class=\"m\">"@ + escaped(e.a)
            + "</td><td class=\"m\">"@ + escaped(e.b) + "</td><td>"@ + escaped(e.reason)
            + "</td></tr>"@
    }
}

/// The table of conflicting pairs, when there are any.
#[verifier::opaque]
pub open spec fn edges_html(r: ReportView) -> Seq<char> {
    if r.conflict_edges.len() > 0 {
        EDGES_HEAD@ + edge_rows(r.conflict_edges) + "</tbody></table>"@
    } else {
        Seq::empty()
    }
}

/// The parallel-safe entry points, when there are any.
#[verifier::opaque]
pub open spec fn safe_html(r: ReportView) -> Seq<char> {
    if r.parallel_safe_entry_points.len() > 0 {
        "<h2>Parallel-safe entry points</h2><p class=\"loc pass\">"@ + escaped(
            seq_join(r.parallel_safe_entry_points, ", "@),
        ) + "</p>"@
    } else {
        Seq::empty()
    }
}

/// The document head and the page header with the scan counts.
#[verifier::opaque]
pub open spec fn head_html(r: ReportView) -> Seq<char> {
    let s = r.summary;
    HEAD_TITLE@ + escaped(r.target) + HEAD_STYLE@ + escaped(r.target) + HEAD_META@ + decimal(
        s.files_scanned as nat,
    ) + HEAD_FILES@ + decimal(s.functions_scanned as nat) + HEAD_FUNCTIONS@ + decimal(
        s.entry_points as nat,
    ) + HEAD_ENTRY_POINTS@ + decimal(s.accesses_found as nat) + HEAD_ACCESSES@ + decimal(
        s.critical as nat,
    ) + HEAD_CRITICAL@ + decimal(s.warning as nat) + HEAD_WARNING@ + decimal(s.info as nat)
        + HEAD_INFO@
}

/// The HTML report, with source listings from `sources`.
pub open spec fn html_report(r: ReportView, sources: Seq<(Seq<char>, Seq<Seq<char>>)>) -> Seq<
    char,
> {
    head_html(r) + (if r.findings.len() == 0 {
        EMPTY@
    } else {
        Seq::empty()
    }) + articles(r.findings, sources, r.findings.len() as int) + edges_html(r) + safe_html(r)
        + FOOT@
}

fn append_head(o: &mut String, report: &Report)
    ensures
        final(o)@ == old(o)@ + head_html(report@),
{
    reveal(head_html);
    let s = &report.summary;
    let t = esc(report.target.as_str());
    let d1 = decimal_string(s.files_scanned);
    let d2 = decimal_string(s.functions_scanned);
    let d3 = decimal_string(s.entry_points);
    let d4 = decimal_string(s.accesses_found);
    let d5 = decimal_string(s.critical);
    let d6 = decimal_string(s.warning);
    let d7 = decimal_string(s.info);
    let ghost o0 = o@;
    o.append(HEAD_TITLE);
    o.append(t.as_str());
    o.append(HEAD_STYLE);
    o.append(t.as_str());
    o.append(HEAD_META);
    o.append(d1.as_str());
    o.append(HEAD_FILES);
    o.append(d2.as_str());
    o.append(HEAD_FUNCTIONS);
    o.append(d3.as_str());
    o.append(HEAD_ENTRY_POINTS);
    o.append(d4.as_str());
    o.append(HEAD_ACCESSES);
    o.append(d5.as_str());
    o.append(HEAD_CRITICAL);
    o.append(d6.as_str());
    o.append(HEAD_WARNING);
    o.append(d7.as_str());
    o.append(HEAD_INFO);
    assert(o@ =~= o0 + (HEAD_TITLE@ + t@ + HEAD_STYLE@ + t@ + HEAD_META@ + d1@ + HEAD_FILES@ + d2@
        + HEAD_FUNCTIONS@ + d3@ + HEAD_ENTRY_POINTS@ + d4@ + HEAD_ACCESSES@ + d5@ + HEAD_CRITICAL@
        + d6@ + HEAD_WARNING@ + d7@ + HEAD_INFO@));
}

fn append_article_open(o: &mut String, f: &Finding)
    ensures
        final(o)@ == old(o)@ + article_open(f@),
{
    reveal(article_open);
    let a = &f.access;
    let sev = a_sev(f.severity);
    let file = esc(a.file.as_str());
    let line = decimal_string(a.line);
    let col = decimal_string(a.column);
    let func = esc(a.function.as_str());
    let ghost o0 = o@;
    o.append("<article class=\"finding ");
    o.append(sev);
    o.append("\" data-sev=\"");
    o.append(sev);
    o.append("\">\n<div class=\"fhead\"><span class=\"sev\">");
    o.append(sev);
    o.append("</span>\n<span class=\"loc\">");
    o.append(file.as_str());
    o.append(":");
    o.append(line.as_str());
    o.append(":");
    o.append(col.as_str());
    o.append("</span>\n<span class=\"fn\">in ");
    o.append(func.as_str());
    o.append("()</span></div>");
    assert(o@ =~= o0 + article_open(f@));
}

fn counter_tag_text(c: &KeyClass) -> (r: String)
    ensures
        r@ == counter_tag(c@),
{
    let mut r = String::new();
    match c {
        KeyClass::SequenceDerived { counter } => {
            r.append("<span class=\"tag\">counter: ");
            r.append(esc(counter.as_str()).as_str());
            r.append("</span>");
        },
        _ => {},
    }
    r
}

fn append_article_tags(o: &mut String, f: &Finding)
    ensures
        final(o)@ == old(o)@ + article_tags(f@),
{
    reveal(article_tags);
    let a = &f.access;
    let summary = esc(f.summary.as_str());
    let extra = counter_tag_text(&a.class);
    let ep = if a.entry_point {
        "<span class=\"tag\">entry point</span>"
    } else {
        "<span class=\"tag\">internal</span>"
    };
    let ghost o0 = o@;
    o.append("\n<p class=\"summary\">");
    o.append(summary.as_str());
    o.append("</p>\n<div class=\"tags\"><span class=\"tag\">");
    o.append(a.durability.as_str());
    o.append(" ");
    o.append(a.access.as_str());
    o.append("</span><span class=\"tag\">");
    o.append(a.class.label());
    o.append("</span>");
    o.append(extra.as_str());
    o.append(ep);
    o.append("</div>");
    assert(o@ =~= o0 + ("\n<p class=\"summary\">"@ + summary@
        + "</p>\n<div class=\"tags\"><span class=\"tag\">"@ + a.durability.name() + " "@
        + a.access.name() + "</span><span class=\"tag\">"@ + a.class@.label() + "</span>"@
        + extra@ + ep@ + "</div>"@));
}

fn append_snippet(o: &mut String, lines: &Vec<String>, line: usize)
    requires
        lines.len() > 0,
    ensures
        final(o)@ == old(o)@ + snippet(views(lines@), line),
{
    let ghost lv = views(lines@);
    let len = lines.len();
    let start: usize = if line >= 4 {
        line - 3
    } else {
        1
    };
    let end: usize = if len >= 2 && line <= len - 2 {
        line + 2
    } else {
        len
    };
    assert(start == snippet_start(line));
    assert(end == snippet_end(line, lv.len()));
    let ghost o0 = o@;
    o.append("<pre>");
    let count: usize = if end >= start {
        end - start + 1
    } else {
        0
    };
    assert(count as int == if snippet_end(line, lv.len()) - snippet_start(line) + 1 > 0 {
        snippet_end(line, lv.len()) - snippet_start(line) + 1
    } else {
        0
    });
    let mut k: usize = 0;
    while k < count
        invariant
            1 <= start,
            count > 0 ==> start + count - 1 <= lines.len(),
            0 <= k <= count,
            lv == views(lines@),
            o@ == o0 + "<pre>"@ + snippet_rows(lv, line, start as int, k as int),
        decreases count - k,
    {
        let n = start + k;
        let ghost before = o@;
        o.append("<span class=\"ln");
        if n == line {
            o.append(" hit");
        }
        o.append("\"><span class=\"no\">");
        o.append(decimal_string(n).as_str());
        o.append("</span>");
        o.append(esc(lines[n - 1].as_str()).as_str());
        o.append("</span>");
        proof {
            assert(lv[n - 1] == lines@[n - 1]@);
            assert(o@ =~= before + snippet_row(lv, line, n as int));
        }
        k += 1;
    }
    o.append("</pre>");
    proof {
        if count == 0 {
            assert(snippet_rows(lv, line, start as int, snippet_end(line, lv.len()) - start + 1)
                == Seq::<char>::empty());
        }
        assert(o@ =~= o0 + snippet(lv, line));
    }
}

fn append_article(o: &mut String, f: &Finding, sources: &Vec<(String, Vec<String>)>)
    ensures
        final(o)@ == old(o)@ + article(f@, source_views(sources@)),
{
    let ghost o0 = o@;
    let ghost lines = lines_for(source_views(sources@), f@.access.file);
    append_article_open(o, f);
    append_article_tags(o, f);
    let ghost o1 = o@;
    match find_lines(sources, &f.access.file) {
        Some(k) => {
            let ls = &sources[k].1;
            proof {
                assert(source_views(sources@)[k as int].1 == views(ls@));
            }
            if ls.len() > 0 {
                append_snippet(o, ls, f.access.line);
            }
        },
        None => {},
    }
    assert(o@ =~= o1 + snippet(lines, f@.access.line));
    let ghost o2 = o@;
    if f.also_touched_by.len() > 0 {
        let j = esc(join(&f.also_touched_by, ", ").as_str());
        o.append("<p class=\"meta\">Same ledger entry is also touched by: <span class=\"loc\">");
        o.append(j.as_str());
        o.append("</span></p>");
    }
    assert(o@ =~= o2 + article_also(f@)) by {
        reveal(article_also);
    }
    let ghost o3 = o@;
    if f.severity.rank() > Severity::Info.rank() {
        let r = esc(f.remediation.as_str());
        o.append("<details><summary>How to fix this</summary><pre>");
        o.append(r.as_str());
        o.append("</pre></details>");
    }
    assert(o@ =~= o3 + article_fix(f@)) by {
        reveal(article_fix);
    }
    o.append("</article>");
    assert(o@ =~= o0 + article(f@, source_views(sources@)));
}

fn append_edges(o: &mut String, report: &Report)
    ensures
        final(o)@ == old(o)@ + edges_html(report@),
{
    reveal(edges_html);
    let ghost o0 = o@;
    if report.conflict_edges.len() == 0 {
        assert(o@ =~= o0 + edges_html(report@));
        return;
    }
    o.append(EDGES_HEAD);
    let ghost ev = report@.conflict_edges;
    let ghost start = o@;
    let mut i: usize = 0;
    while i < report.conflict_edges.len()
        invariant
            0 <= i <= report.conflict_edges.len(),
            ev == report@.conflict_edges,
            ev.len() == report.conflict_edges.len(),
            o@ == start + edge_rows(ev.take(i as int)),
        decreases report.conflict_edges.len() - i,
    {
        let e = &report.conflict_edges[i];
        o.append("<tr><td class=\"m\">");
        o.append(esc(e.a.as_str()).as_str());
        o.append("</td><td class=\"m\">");
        o.append(esc(e.b.as_str()).as_str());
        o.append("</td><td>");
        o.append(esc(e.reason.as_str()).as_str());
        o.append("</td></tr>");
        proof {
            let t = ev.take((i + 1) as int);
            assert(t.drop_last() =~= ev.take(i as int));
            assert(t.last() == e@);
            assert(o@ =~= start + edge_rows(t));
        }
        i += 1;
    }
    assert(ev.take(ev.len() as int) =~= ev);
    o.append("</tbody></table>");
    assert(o@ =~= o0 + edges_html(report@));
}

fn append_safe(o: &mut String, report: &Report)
    ensures
        final(o)@ == old(o)@ + safe_html(report@),
{
    reveal(safe_html);
    let ghost o0 = o@;
    if report.parallel_safe_entry_points.len() > 0 {
        let j = esc(join(&report.parallel_safe_entry_points, ", ").as_str());
        o.append("<h2>Parallel-safe entry points</h2><p class=\"loc pass\">");
        o.append(j.as_str());
        o.append("</p>");
    }
    assert(o@ =~= o0 + safe_html(report@));
}

/// Render the HTML report. `sources` holds the lines of the files the
/// findings point into; a file missing from it, or with no lines, gets no
/// listing.
pub fn render(report: &Report, sources: &Vec<(String, Vec<String>)>) -> (o: String)
    ensures
        o@ == html_report(report@, source_views(sources@)),
{
    let ghost sv = source_views(sources@);
    let mut o = String::new();
    append_head(&mut o, report);
    let ghost head = o@;
    if report.findings.len() == 0 {
        o.append(EMPTY);
    }
    let ghost before = o@;
    let ghost fv = report@.findings;
    let mut i: usize = 0;
    assert(o@ =~= before + articles(fv, sv, 0));
    while i < report.findings.len()
        invariant
            0 <= i <= report.findings.len(),
            fv == report@.findings,
            fv.len() == report.findings.len(),
            sv == source_views(sources@),
            o@ == before + articles(fv, sv, i as int),
        decreases report.findings.len() - i,
    {
        append_article(&mut o, &report.findings[i], sources);
        proof {
            assert(fv[i as int] == report.findings@[i as int]@);
            assert(o@ =~= before + articles(fv, sv, (i + 1) as int));
        }
        i += 1;
    }
    let ghost mid = o@;
    append_edges(&mut o, report);
    append_safe(&mut o, report);
    o.append(FOOT);
    proof {
        let e: Seq<char> = if fv.len() == 0 {
            EMPTY@
        } else {
            Seq::empty()
        };
        assert(before =~= head + e);
        assert(o@ =~= html_report(report@, sv));
    }
    o
}

} // verus!
