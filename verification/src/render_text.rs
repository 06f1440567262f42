//! Terminal report.
//!
//! Findings are listed most severe first, and every actionable one names the
//! fix, not just the problem.
use vstd::prelude::*;
use crate::model::{
    ConflictEdge, ConflictEdgeView, Finding, FindingView, KeyClass, KeyClassView, Report,
    ReportView, Severity,
};
use crate::text::{decimal, decimal_string, join, owned, seq_join};

verus! {

/// Text in an ANSI style when colour is on.
pub open spec fn paint(on: bool, code: Seq<char>, s: Seq<char>) -> Seq<char> {
    if on {
        "\x1b["@ + code + "m"@ + s + "\x1b[0m"@
    } else {
        s
    }
}

/// The padded, coloured severity tag a finding line opens with.
pub open spec fn severity_tag(on: bool, s: Severity) -> Seq<char> {
    match s {
        Severity::Critical => paint(on, "1;31"@, "critical"@),
        Severity::Warning => paint(on, "1;33"@, "warning "@),
        Severity::Info => paint(on, "36"@, "info    "@),
    }
}

struct Palette {
    on: bool,
}

impl Palette {
    fn p(&self, code: &str, s: &str) -> (r: String)
        ensures
            r@ == paint(self.on, code@, s@),
    {
        if self.on {
            let mut r = owned("\x1b[");
            r.append(code);
            r.append("m");
            r.append(s);
            r.append("\x1b[0m");
            r
        } else {
            owned(s)
        }
    }

    fn bold(&self, s: &str) -> (r: String)
        ensures
            r@ == paint(self.on, "1"@, s@),
    {
        self.p("1", s)
    }

    fn dim(&self, s: &str) -> (r: String)
        ensures
            r@ == paint(self.on, "2"@, s@),
    {
        self.p("2", s)
    }

    fn sev(&self, s: Severity) -> (r: String)
        ensures
            r@ == severity_tag(self.on, s),
    {
        match s {
            Severity::Critical => self.p("1;31", "critical"),
            Severity::Warning => self.p("1;33", "warning "),
            Severity::Info => self.p("36", "info    "),
        }
    }
}

/// The position of the first line feed in `s`, or its length.
pub open spec fn first_newline(s: Seq<char>) -> int
    decreases s.len(),
{
    if s.len() == 0 {
        0
    } else if s[0] == '\n' {
        0
    } else {
        1 + first_newline(s.drop_first())
    }
}

/// A line ended by a line feed loses one carriage return before it.
pub open spec fn strip_cr(l: Seq<char>) -> Seq<char> {
    if l.len() > 0 && l.last() == '\r' {
        l.drop_last()
    } else {
        l
    }
}

/// The lines of a text, as `str::lines` splits it: at each line feed, one
/// carriage return before it dropped, with no empty line after a final line
/// feed.
pub open spec fn lines_of(s: Seq<char>) -> Seq<Seq<char>>
    decreases s.len(),
{
    if s.len() == 0 {
        Seq::empty()
    } else {
        let i = first_newline(s);
        proof {
            lemma_first_newline(s);
        }
        if i >= s.len() {
            seq![s]
        } else {
            seq![strip_cr(s.take(i))] + lines_of(s.skip(i + 1))
        }
    }
}

pub proof fn lemma_first_newline(s: Seq<char>)
    ensures
        0 <= first_newline(s) <= s.len(),
        forall|k: int| 0 <= k < first_newline(s) ==> s[k] != '\n',
        first_newline(s) < s.len() ==> s[first_newline(s)] == '\n',
    decreases s.len(),
{
    if s.len() > 0 && s[0] != '\n' {
        lemma_first_newline(s.drop_first());
        assert forall|k: int| 0 <= k < first_newline(s) implies s[k] != '\n' by {
            if k > 0 {
                assert(s[k] == s.drop_first()[k - 1]);
            }
        }
    }
}

/// The lines of `s`, each indented and dimmed, one per output line.
pub open spec fn indented_dim(on: bool, ls: Seq<Seq<char>>) -> Seq<char>
    decreases ls.len(),
{
    if ls.len() == 0 {
        Seq::empty()
    } else {
        indented_dim(on, ls.drop_last()) + "         "@ + paint(on, "2"@, ls.last()) + "\n"@
    }
}

/// The key class with its counter, as the third line of a finding shows it.
pub open spec fn class_note(c: KeyClassView) -> Seq<char> {
    match c {
        KeyClassView::SequenceDerived { counter } => c.label() + " (counter: "@ + counter + ")"@,
        _ => c.label(),
    }
}

/// The first line of a finding: severity, location and function.
#[verifier::opaque]
pub open spec fn finding_line1(on: bool, f: FindingView) -> Seq<char> {
    let a = f.access;
    severity_tag(on, f.severity) + " "@ + paint(
        on,
        "1"@,
        a.file + ":"@ + decimal(a.line as nat) + ":"@ + decimal(a.column as nat),
    ) + "  "@ + paint(on, "2"@, "in "@ + a.function + "()"@) + "\n"@
}

/// The second line: the summary.
#[verifier::opaque]
pub open spec fn finding_line2(f: FindingView) -> Seq<char> {
    "         "@ + f.summary + "\n"@
}

/// The third line: durability, access and key class.
#[verifier::opaque]
pub open spec fn finding_line3(on: bool, f: FindingView) -> Seq<char> {
    let a = f.access;
    "         "@ + paint(
        on,
        "2"@,
        a.durability.name() + " "@ + a.access.name() + " \u{b7} key class: "@ + class_note(a.class),
    ) + "\n"@
}

/// The other entry points on the same entry, when there are any.
#[verifier::opaque]
pub open spec fn finding_also(on: bool, f: FindingView) -> Seq<char> {
    if f.also_touched_by.len() > 0 {
        "         "@ + paint(
            on,
            "2"@,
            "same ledger entry is also touched by: "@ + seq_join(f.also_touched_by, ", "@),
        ) + "\n"@
    } else {
        Seq::empty()
    }
}

/// The remediation, for findings above info.
#[verifier::opaque]
pub open spec fn finding_fix(on: bool, f: FindingView) -> Seq<char> {
    if f.severity.level() > Severity::Info.level() {
        "\n"@ + indented_dim(on, lines_of(f.remediation))
    } else {
        Seq::empty()
    }
}

/// The text of one finding; `last` says no finding follows it.
pub open spec fn finding_text(on: bool, f: FindingView, last: bool) -> Seq<char> {
    finding_line1(on, f) + finding_line2(f) + finding_line3(on, f) + finding_also(on, f)
        + finding_fix(on, f) + (if last {
        Seq::empty()
    } else {
        "\n"@
    })
}

/// The findings `fs[..n]` of a list of `total`.
pub open spec fn findings_text(on: bool, fs: Seq<FindingView>, n: int) -> Seq<char>
    decreases n,
{
    if n <= 0 {
        Seq::empty()
    } else {
        findings_text(on, fs, n - 1) + finding_text(on, fs[n - 1], n >= fs.len())
    }
}

pub open spec fn edges_text(on: bool, es: Seq<ConflictEdgeView>) -> Seq<char>
    decreases es.len(),
{
    if es.len() == 0 {
        Seq::empty()
    } else {
        let e = es.last();
        edges_text(on, es.drop_last()) + "  "@ + e.a + " "@ + paint(on, "2"@, "<->"@) + " "@ + e.b
            + "   "@ + paint(on, "2"@, e.reason) + "\n"@
    }
}

/// The title and the scan counts.
pub open spec fn head_text(r: ReportView, on: bool) -> Seq<char> {
    let s = r.summary;
    "\n"@ + paint(on, "1"@, "braid \u{2014} "@ + r.target) + "\n"@ + paint(
        on,
        "2"@,
        decimal(s.files_scanned as nat) + " file(s), "@ + decimal(s.functions_scanned as nat)
            + " function(s), "@ + decimal(s.entry_points as nat) + " entry point(s), "@ + decimal(
            s.accesses_found as nat,
        ) + " storage access(es)"@,
    ) + "\n"@
}

/// What a report without findings says.
pub open spec fn pass_text(on: bool) -> Seq<char> {
    "\n  "@ + paint(on, "1;32"@, "PASS"@)
        + " no conflicts found \u{2014} every mutable entry is keyed by caller input\n"@ + "\n"@
}

/// The count of findings at each severity.
pub open spec fn counts_text(r: ReportView, on: bool) -> Seq<char> {
    let s = r.summary;
    "\n  "@ + paint(on, "1;31"@, decimal(s.critical as nat) + " critical"@) + "  "@ + paint(
        on,
        "1;33"@,
        decimal(s.warning as nat) + " warning"@,
    ) + "  "@ + paint(on, "36"@, decimal(s.info as nat) + " info"@) + "\n"@ + "\n"@
}

/// The pairs of entry points that cannot run in parallel, when there are any.
pub open spec fn edges_section(r: ReportView, on: bool) -> Seq<char> {
    if r.conflict_edges.len() > 0 {
        "\n"@ + paint(on, "1"@, "Entry points that cannot run in parallel"@) + "\n"@ + edges_text(
            on,
            r.conflict_edges,
        )
    } else {
        Seq::empty()
    }
}

/// The parallel-safe entry points, when there are any.
pub open spec fn safe_section(r: ReportView, on: bool) -> Seq<char> {
    if r.parallel_safe_entry_points.len() > 0 {
        "\n"@ + paint(on, "1;32"@, "Parallel-safe entry points:"@) + " "@ + seq_join(
            r.parallel_safe_entry_points,
            ", "@,
        ) + "\n"@
    } else {
        Seq::empty()
    }
}

/// The terminal report.
pub open spec fn text_report(r: ReportView, on: bool) -> Seq<char> {
    if r.findings.len() == 0 {
        head_text(r, on) + pass_text(on)
    } else {
        head_text(r, on) + counts_text(r, on) + findings_text(on, r.findings, r.findings.len() as int)
            + edges_section(r, on) + safe_section(r, on) + "\n"@
    }
}

/// The lines of `s`, each indented and dimmed.
fn append_remediation(c: &Palette, o: &mut String, s: &String)
    ensures
        final(o)@ == old(o)@ + indented_dim(c.on, lines_of(s@)),
{
    let v = crate::text::chars_of(s.as_str());
    let ghost start = old(o)@;
    let mut i: usize = 0;
    let ghost mut done: Seq<Seq<char>> = Seq::empty();
    assert(v@.skip(0) =~= v@);
    while i < v.len()
        invariant
            0 <= i <= v.len(),
            v@ == s@,
            lines_of(s@) == done + lines_of(v@.skip(i as int)),
            o@ == start + indented_dim(c.on, done),
        decreases v.len() - i,
    {
        let ghost rest = v@.skip(i as int);
        let mut j: usize = i;
        while j < v.len() && v[j] != '\n'
            invariant
                i <= j <= v.len(),
                forall|k: int| i <= k < j ==> v@[k] != '\n',
            decreases v.len() - j,
        {
            j += 1;
        }
        proof {
            lemma_first_newline(rest);
            assert forall|k: int| 0 <= k < j - i implies rest[k] != '\n' by {
                assert(rest[k] == v@[i + k]);
            }
            if j < v.len() {
                assert(rest[j - i] == '\n');
            }
            if first_newline(rest) < j - i {
                assert(rest[first_newline(rest)] == '\n');
            }
            assert(first_newline(rest) == j - i);
        }
        let mut end = j;
        if j < v.len() && end > i && v[end - 1] == '\r' {
            end = end - 1;
        }
        let mut line: Vec<char> = Vec::new();
        let mut k: usize = i;
        while k < end
            invariant
                i <= k <= end,
                end <= v.len(),
                line@ == v@.subrange(i as int, k as int),
            decreases end - k,
        {
            line.push(v[k]);
            k += 1;
            assert(line@ =~= v@.subrange(i as int, k as int));
        }
        let ls = crate::text::string_of(&line);
        o.append("         ");
        let d = c.dim(ls.as_str());
        o.append(d.as_str());
        o.append("\n");
        proof {
            let piece = if j < v.len() {
                strip_cr(rest.take(j - i))
            } else {
                rest
            };
            if j < v.len() {
                assert(rest.take(j - i) =~= v@.subrange(i as int, j as int));
                if end < j {
                    assert(piece =~= v@.subrange(i as int, end as int));
                } else {
                    assert(piece =~= v@.subrange(i as int, end as int));
                }
                assert(rest.skip(j - i + 1) =~= v@.skip(j + 1));
                assert(lines_of(rest) == seq![piece] + lines_of(v@.skip(j + 1)));
            } else {
                assert(rest =~= v@.subrange(i as int, end as int));
                assert(lines_of(rest) == seq![piece]);
                assert(v@.skip(v.len() as int) =~= Seq::<char>::empty());
            }
            let nd = done.push(piece);
            assert(nd.drop_last() =~= done);
            assert(o@ =~= start + indented_dim(c.on, nd));
            assert(done + (seq![piece] + lines_of(v@.skip(
                if j < v.len() { j + 1 } else { j as int },
            ))) =~= nd + lines_of(v@.skip(if j < v.len() { j + 1 } else { j as int })));
            done = nd;
        }
        if j < v.len() {
            i = j + 1;
        } else {
            i = j;
        }
    }
    proof {
        assert(v@.skip(i as int) =~= Seq::<char>::empty());
        assert(done + Seq::<Seq<char>>::empty() =~= done);
    }
}

fn class_text(c: &KeyClass) -> (r: String)
    ensures
        r@ == class_note(c@),
{
    let mut r = owned(c.label());
    match c {
        KeyClass::SequenceDerived { counter } => {
            r.append(" (counter: ");
            r.append(counter.as_str());
            r.append(")");
        },
        _ => {},
    }
    r
}

fn append_line1(c: &Palette, o: &mut String, f: &Finding)
    ensures
        final(o)@ == old(o)@ + finding_line1(c.on, f@),
{
    reveal(finding_line1);
    let a = &f.access;
    let mut loc = a.file.clone();
    loc.append(":");
    loc.append(decimal_string(a.line).as_str());
    loc.append(":");
    loc.append(decimal_string(a.column).as_str());
    let mut func = owned("in ");
    func.append(a.function.as_str());
    func.append("()");
    let t = c.sev(f.severity);
    let b = c.bold(loc.as_str());
    let d = c.dim(func.as_str());
    let ghost o0 = o@;
    o.append(t.as_str());
    o.append(" ");
    o.append(b.as_str());
    o.append("  ");
    o.append(d.as_str());
    o.append("\n");
    assert(o@ =~= o0 + (t@ + " "@ + b@ + "  "@ + d@ + "\n"@));
}

fn append_line3(c: &Palette, o: &mut String, f: &Finding)
    ensures
        final(o)@ == old(o)@ + finding_line3(c.on, f@),
{
    reveal(finding_line3);
    let a = &f.access;
    let mut kind = owned(a.durability.as_str());
    kind.append(" ");
    kind.append(a.access.as_str());
    kind.append(" \u{b7} key class: ");
    kind.append(class_text(&a.class).as_str());
    let d = c.dim(kind.as_str());
    let ghost o0 = o@;
    o.append("         ");
    o.append(d.as_str());
    o.append("\n");
    assert(o@ =~= o0 + ("         "@ + d@ + "\n"@));
}

fn append_also(c: &Palette, o: &mut String, f: &Finding)
    ensures
        final(o)@ == old(o)@ + finding_also(c.on, f@),
{
    reveal(finding_also);
    let ghost o0 = o@;
    if f.also_touched_by.len() > 0 {
        let mut also = owned("same ledger entry is also touched by: ");
        also.append(join(&f.also_touched_by, ", ").as_str());
        let d = c.dim(also.as_str());
        o.append("         ");
        o.append(d.as_str());
        o.append("\n");
        assert(o@ =~= o0 + ("         "@ + d@ + "\n"@));
    } else {
        assert(o@ =~= o0 + Seq::<char>::empty());
    }
}

fn append_finding(c: &Palette, o: &mut String, f: &Finding, last: bool)
    ensures
        final(o)@ == old(o)@ + finding_text(c.on, f@, last),
{
    let ghost o0 = o@;
    append_line1(c, o, f);
    let ghost o1 = o@;
    o.append("         ");
    o.append(f.summary.as_str());
    o.append("\n");
    assert(o@ =~= o1 + finding_line2(f@)) by {
        reveal(finding_line2);
    }
    append_line3(c, o, f);
    append_also(c, o, f);
    let ghost o4 = o@;
    if f.severity.rank() > Severity::Info.rank() {
        o.append("\n");
        append_remediation(c, o, &f.remediation);
        assert(o@ =~= o4 + finding_fix(c.on, f@)) by {
            reveal(finding_fix);
        }
    } else {
        assert(o@ =~= o4 + finding_fix(c.on, f@)) by {
            reveal(finding_fix);
        }
    }
    let ghost o5 = o@;
    if !last {
        o.append("\n");
    }
    proof {
        let tail: Seq<char> = if last {
            Seq::empty()
        } else {
            "\n"@
        };
        assert(o@ =~= o5 + tail);
        assert(o@ =~= o0 + finding_text(c.on, f@, last));
    }
}

fn append_edges(c: &Palette, o: &mut String, es: &Vec<ConflictEdge>)
    ensures
        final(o)@ == old(o)@ + edges_text(c.on, es@.map_values(|e: ConflictEdge| e@)),
{
    let ghost start = old(o)@;
    let ghost ev = es@.map_values(|e: ConflictEdge| e@);
    let mut i: usize = 0;
    while i < es.len()
        invariant
            0 <= i <= es.len(),
            ev == es@.map_values(|e: ConflictEdge| e@),
            o@ == start + edges_text(c.on, ev.take(i as int)),
        decreases es.len() - i,
    {
        let e = &es[i];
        o.append("  ");
        o.append(e.a.as_str());
        o.append(" ");
        o.append(c.dim("<->").as_str());
        o.append(" ");
        o.append(e.b.as_str());
        o.append("   ");
        o.append(c.dim(e.reason.as_str()).as_str());
        o.append("\n");
        proof {
            let t = ev.take((i + 1) as int);
            assert(t.drop_last() =~= ev.take(i as int));
            assert(t.last() == e@);
            assert(o@ =~= start + edges_text(c.on, t));
        }
        i += 1;
    }
    assert(ev.take(es.len() as int) =~= ev);
}

fn append_head(c: &Palette, o: &mut String, report: &Report)
    ensures
        final(o)@ == old(o)@ + head_text(report@, c.on),
{
    let s = &report.summary;
    let mut title = owned("braid \u{2014} ");
    title.append(report.target.as_str());
    let b = c.bold(title.as_str());
    let mut counts = decimal_string(s.files_scanned);
    counts.append(" file(s), ");
    counts.append(decimal_string(s.functions_scanned).as_str());
    counts.append(" function(s), ");
    counts.append(decimal_string(s.entry_points).as_str());
    counts.append(" entry point(s), ");
    counts.append(decimal_string(s.accesses_found).as_str());
    counts.append(" storage access(es)");
    let d = c.dim(counts.as_str());
    let ghost o0 = o@;
    o.append("\n");
    o.append(b.as_str());
    o.append("\n");
    o.append(d.as_str());
    o.append("\n");
    assert(o@ =~= o0 + ("\n"@ + b@ + "\n"@ + d@ + "\n"@));
}

fn append_counts(c: &Palette, o: &mut String, report: &Report)
    ensures
        final(o)@ == old(o)@ + counts_text(report@, c.on),
{
    let s = &report.summary;
    let mut crit = decimal_string(s.critical);
    crit.append(" critical");
    let mut warn = decimal_string(s.warning);
    warn.append(" warning");
    let mut info = decimal_string(s.info);
    info.append(" info");
    let pc = c.p("1;31", crit.as_str());
    let pw = c.p("1;33", warn.as_str());
    let pi = c.p("36", info.as_str());
    let ghost o0 = o@;
    o.append("\n  ");
    o.append(pc.as_str());
    o.append("  ");
    o.append(pw.as_str());
    o.append("  ");
    o.append(pi.as_str());
    o.append("\n");
    o.append("\n");
    assert(o@ =~= o0 + ("\n  "@ + pc@ + "  "@ + pw@ + "  "@ + pi@ + "\n"@ + "\n"@));
}

fn append_sections(c: &Palette, o: &mut String, report: &Report)
    ensures
        final(o)@ == old(o)@ + edges_section(report@, c.on) + safe_section(report@, c.on),
{
    let ghost o0 = o@;
    if report.conflict_edges.len() > 0 {
        let b = c.bold("Entry points that cannot run in parallel");
        o.append("\n");
        o.append(b.as_str());
        o.append("\n");
        append_edges(c, o, &report.conflict_edges);
        assert(o@ =~= o0 + edges_section(report@, c.on));
    } else {
        assert(o@ =~= o0 + edges_section(report@, c.on));
    }
    let ghost o1 = o@;
    if report.parallel_safe_entry_points.len() > 0 {
        let p = c.p("1;32", "Parallel-safe entry points:");
        let j = join(&report.parallel_safe_entry_points, ", ");
        o.append("\n");
        o.append(p.as_str());
        o.append(" ");
        o.append(j.as_str());
        o.append("\n");
        assert(o@ =~= o1 + safe_section(report@, c.on));
    } else {
        assert(o@ =~= o1 + safe_section(report@, c.on));
    }
}

/// Render the terminal report, in colour when `colour` is set.
pub fn render(report: &Report, colour: bool) -> (o: String)
    ensures
        o@ == text_report(report@, colour),
{
    let c = Palette { on: colour };
    let mut o = String::new();
    append_head(&c, &mut o, report);
    let ghost head = o@;
    if report.findings.len() == 0 {
        let p = c.p("1;32", "PASS");
        o.append("\n  ");
        o.append(p.as_str());
        o.append(" no conflicts found \u{2014} every mutable entry is keyed by caller input\n");
        o.append("\n");
        assert(o@ =~= head + pass_text(colour));
        assert(head =~= head_text(report@, colour));
        return o;
    }
    append_counts(&c, &mut o, report);
    let ghost before_findings = o@;
    let ghost fv = report@.findings;
    let mut i: usize = 0;
    assert(findings_text(colour, fv, 0) == Seq::<char>::empty());
    assert(o@ =~= before_findings + findings_text(colour, fv, 0));
    while i < report.findings.len()
        invariant
            0 <= i <= report.findings.len(),
            fv == report@.findings,
            fv.len() == report.findings.len(),
            o@ == before_findings + findings_text(colour, fv, i as int),
            c.on == colour,
        decreases report.findings.len() - i,
    {
        let last = i + 1 >= report.findings.len();
        let ghost oi = o@;
        append_finding(&c, &mut o, &report.findings[i], last);
        proof {
            assert(fv[i as int] == report.findings@[i as int]@);
            assert(o@ =~= before_findings + findings_text(colour, fv, (i + 1) as int));
        }
        i += 1;
    }
    let ghost after_findings = o@;
    append_sections(&c, &mut o, report);
    o.append("\n");
    proof {
        assert(o@ =~= head_text(report@, colour) + counts_text(report@, colour) + findings_text(
            colour,
            fv,
            fv.len() as int,
        ) + edges_section(report@, colour) + safe_section(report@, colour) + "\n"@);
    }
    o
}

} // verus!
