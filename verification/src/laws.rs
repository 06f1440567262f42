//! What holds of every analysis and every report, whatever the contract.
//!
//! Each law is a proof function: its parameters are the law's inputs, its
//! `ensures` the law itself, stated over the same spec functions that the
//! executable functions' contracts use.
use vstd::prelude::*;
use crate::analyze::{
    analysis, arg_outcome, candidates, classified, conflicted, counted, domain_of, edge_reason,
    finding_before, finding_for, first_sequence, first_unresolved, insert_finding, is_edge,
    key_class, parallel_safe, remediation_text, runs_once_name, self_conflicted, severity_of,
    sort_findings, summary_text, touches, writers, ArgOutcome, FIX_INSTANCE_STATIC,
    FIX_INSTANCE_SUBJECT, FIX_SEQUENCE, FIX_STATIC_WRITE, FIX_UNRESOLVABLE,
};
use crate::model::{
    exit_code_for, severity_named, worst_of, Access, ConflictEdgeView, Durability, FindingView,
    Severity, StorageAccessView,
};
use crate::actionable;
use crate::model::{KeyClassView, ReportView};
use crate::parse::{ArgOriginView, FunctionInfoView, RawAccessView, ScanResultView};
use crate::render_html::escaped;
use crate::analyze::{classified_in, classify_fn, entry_names, touchers};
use crate::parse::scan_views;
use crate::syntax::FileItem;
use crate::analyze::{class_of, count_severity, counter_key, counter_of_call, static_keys};
use crate::text::{insert_sorted, lemma_insert_sorted, lemma_sorted_names};
use crate::{context_for, threshold_of, unknown_severity};
use crate::text::{
    lemma_sorted_names_exist, lists, sorted_names, strictly_sorted, lemma_lt_asymmetric,
    lemma_lt_irreflexive, lemma_lt_total, lemma_lt_transitive, lowered, replaced, seq_lt,
};

verus! {

// ----- severity rules -------------------------------------------------------

/// A write in a function that runs only once (a constructor or an
/// initialiser) is never reported: it cannot race anything.
pub proof fn law_run_once_writes_are_not_reported(a: StorageAccessView)
    requires
        runs_once_name(a.function),
        a.access == Access::Write,
    ensures
        severity_of(a) is None,
{
}

/// A key derived from the caller's own input, outside instance storage,
/// names a different entry for each caller: it is never reported and never
/// counted as touching a shared entry.
pub proof fn law_subject_keys_are_parallel_safe(a: StorageAccessView, d: Seq<char>, writes_only: bool)
    requires
        a.class is SubjectDerived,
        a.durability != Durability::Instance,
    ensures
        severity_of(a) is None,
        !counted(a),
        !touches(a, d, writes_only),
{
}

/// Instance storage defeats a per-subject key: a write to instance storage
/// with a parameterised key, on a path users reach, is critical, because
/// all of instance storage is one ledger entry.
pub proof fn law_instance_storage_defeats_keyed_writes(a: StorageAccessView)
    requires
        a.durability == Durability::Instance,
        a.access == Access::Write,
        !(a.class is Static),
        a.entry_point,
        !a.admin_path,
        !runs_once_name(a.function),
    ensures
        severity_of(a) == Some(Severity::Critical),
{
}

/// A sequence-derived write is never taken for parallel-safe: however its
/// key looks, it is reported at least as a warning.
pub proof fn law_sequence_derived_writes_are_reported(a: StorageAccessView)
    requires
        a.class is SequenceDerived,
        a.access == Access::Write,
        !runs_once_name(a.function),
    ensures
        severity_of(a) is Some,
        severity_of(a)->0.level() >= Severity::Warning.level(),
{
}

/// A key Braid cannot follow is never assumed safe: a write through one is
/// reported.
pub proof fn law_unresolvable_writes_are_reported(a: StorageAccessView)
    requires
        a.class is Unresolvable,
        a.access == Access::Write,
        !runs_once_name(a.function),
    ensures
        severity_of(a) is Some,
        severity_of(a)->0.level() >= Severity::Warning.level(),
{
}

/// Reads never serialise anything: a read is reported at most as info,
/// never as something to act on.
pub proof fn law_reads_are_never_actionable(a: StorageAccessView)
    requires
        a.access == Access::Read,
    ensures
        severity_of(a) matches Some(s) ==> s == Severity::Info,
{
}

/// Temporary entries still take part in footprints, so they are not
/// exempt: an access is judged the same in temporary as in persistent
/// storage.
pub proof fn law_temporary_storage_is_not_exempt(a: StorageAccessView)
    requires
        a.durability == Durability::Temporary,
    ensures
        severity_of(a) == severity_of(StorageAccessView { durability: Durability::Persistent, ..a }),
{
}

// ----- key classes ----------------------------------------------------------

proof fn lemma_first_sequence(os: Seq<ArgOutcome>, k: int)
    requires
        0 <= k < os.len(),
        os[k] is Sequence,
    ensures
        first_sequence(os) is Some,
    decreases os.len(),
{
    if k < os.len() - 1 {
        lemma_first_sequence(os.drop_last(), k);
    }
}

proof fn lemma_first_unresolved(os: Seq<ArgOutcome>, k: int)
    requires
        0 <= k < os.len(),
        os[k] is Unresolved,
    ensures
        first_unresolved(os) is Some,
    decreases os.len(),
{
    if k < os.len() - 1 {
        lemma_first_unresolved(os.drop_last(), k);
    }
}

/// One argument minted from a shared counter makes the whole key
/// sequence-derived, whatever its other arguments are.
pub proof fn law_one_minted_argument_decides_the_key(
    fns: Seq<FunctionInfoView>,
    f: FunctionInfoView,
    raw: RawAccessView,
    k: int,
)
    requires
        0 <= k < raw.key_args.len(),
        arg_outcome(fns, f, raw.line, raw.key_args[k]) is Sequence,
    ensures
        key_class(fns, f, raw) is SequenceDerived,
{
    let os = raw.key_args.map_values(|a: ArgOriginView| arg_outcome(fns, f, raw.line, a));
    lemma_first_sequence(os, k);
}

/// A key with an argument Braid cannot attribute is never taken for a
/// caller-derived, parallel-safe key.
pub proof fn law_unattributed_arguments_are_never_safe(
    fns: Seq<FunctionInfoView>,
    f: FunctionInfoView,
    raw: RawAccessView,
    k: int,
)
    requires
        0 <= k < raw.key_args.len(),
        arg_outcome(fns, f, raw.line, raw.key_args[k]) is Unresolved,
    ensures
        !(key_class(fns, f, raw) is SubjectDerived),
{
    let os = raw.key_args.map_values(|a: ArgOriginView| arg_outcome(fns, f, raw.line, a));
    lemma_first_unresolved(os, k);
}

// ----- conflict edges -------------------------------------------------------

/// Reads alone never produce a conflict edge: on every edge, one of its two
/// entry points writes the shared entry, from a function that can run more
/// than once and with a key that different callers share.
pub proof fn law_reads_alone_never_conflict(cs: Seq<StorageAccessView>, e: ConflictEdgeView)
    requires
        is_edge(cs, e),
    ensures
        exists|k: int|
            0 <= k < cs.len() && (#[trigger] cs[k]).access == Access::Write && cs[k].entry_point
                && counted(cs[k]) && !runs_once_name(cs[k].function) && touches(
                cs[k],
                e.key_root,
                true,
            ) && (cs[k].function == e.a || cs[k].function == e.b),
{
    let w = writers(cs, e.key_root);
    let n = if w.contains(e.a) {
        e.a
    } else {
        e.b
    };
    assert(w.contains(n));
    let k = choose|k: int|
        0 <= k < cs.len() && touches(#[trigger] cs[k], e.key_root, true) && cs[k].function == n;
    assert(cs[k].access == Access::Write);
}

/// Two entry points that touch the same shared entry, from functions that
/// can run more than once, cannot run in parallel when one of them writes
/// it: the pair, in order, is a conflict edge on that entry.
pub proof fn law_shared_writes_conflict(cs: Seq<StorageAccessView>, i: int, j: int)
    requires
        0 <= i < cs.len(),
        0 <= j < cs.len(),
        cs[i].access == Access::Write,
        counted(cs[i]),
        counted(cs[j]),
        !runs_once_name(cs[i].function),
        !runs_once_name(cs[j].function),
        domain_of(cs[i].durability, cs[i].key_root) == domain_of(cs[j].durability, cs[j].key_root),
        cs[i].function != cs[j].function,
    ensures
        ({
            let d = domain_of(cs[i].durability, cs[i].key_root);
            let (a, b) = if seq_lt(cs[i].function, cs[j].function) {
                (cs[i].function, cs[j].function)
            } else {
                (cs[j].function, cs[i].function)
            };
            is_edge(cs, ConflictEdgeView { a, b, key_root: d, reason: edge_reason(cs, d) })
        }),
{
    let d = domain_of(cs[i].durability, cs[i].key_root);
    assert(touches(cs[i], d, false) && touches(cs[j], d, false) && touches(cs[i], d, true));
    assert(crate::analyze::touchers(cs, d).contains(cs[i].function));
    assert(crate::analyze::touchers(cs, d).contains(cs[j].function));
    assert(writers(cs, d).contains(cs[i].function));
    lemma_lt_total(cs[i].function, cs[j].function);
}

/// A function that runs only once is never at either end of a conflict
/// edge.
pub proof fn law_run_once_functions_never_conflict(cs: Seq<StorageAccessView>, e: ConflictEdgeView)
    requires
        is_edge(cs, e),
    ensures
        !runs_once_name(e.a),
        !runs_once_name(e.b),
{
    let t = crate::analyze::touchers(cs, e.key_root);
    assert(t.contains(e.a));
    assert(t.contains(e.b));
    let i = choose|i: int|
        0 <= i < cs.len() && touches(#[trigger] cs[i], e.key_root, false) && cs[i].function == e.a;
    let j = choose|j: int|
        0 <= j < cs.len() && touches(#[trigger] cs[j], e.key_root, false) && cs[j].function == e.b;
}

/// An entry point reported as parallel-safe is at neither end of any
/// conflict edge and is not the sole writer of any shared entry.
pub proof fn law_parallel_safe_means_no_conflict(
    cs: Seq<StorageAccessView>,
    n: Seq<char>,
    e: ConflictEdgeView,
    d: Seq<char>,
)
    requires
        parallel_safe(cs).contains(n),
    ensures
        is_edge(cs, e) ==> e.a != n && e.b != n,
        writers(cs, d) != set![n],
{
    if is_edge(cs, e) && (e.a == n || e.b == n) {
        assert(conflicted(cs).contains(n));
    }
    if writers(cs, d) == set![n] {
        assert(self_conflicted(cs).contains(n));
    }
}

// ----- findings -------------------------------------------------------------

proof fn lemma_candidate_member(cs: Seq<StorageAccessView>, part: Seq<StorageAccessView>, x: FindingView)
    requires
        candidates(cs, part).contains(x),
    ensures
        exists|k: int|
            0 <= k < part.len() && severity_of(#[trigger] part[k]) is Some && x == finding_for(
                cs,
                part[k],
            ),
    decreases part.len(),
{
    let prev = candidates(cs, part.drop_last());
    if severity_of(part.last()) is Some && x == finding_for(cs, part.last()) {
        assert(severity_of(part[part.len() - 1]) is Some);
    } else {
        if severity_of(part.last()) is Some {
            let c = prev.push(finding_for(cs, part.last()));
            let i = choose|i: int| 0 <= i < c.len() && c[i] == x;
            assert(i < prev.len());
            assert(prev[i] == x);
        }
        assert(prev.contains(x));
        lemma_candidate_member(cs, part.drop_last(), x);
        let k = choose|k: int|
            0 <= k < part.drop_last().len() && severity_of(#[trigger] part.drop_last()[k]) is Some
                && x == finding_for(cs, part.drop_last()[k]);
        assert(part[k] == part.drop_last()[k]);
    }
}

proof fn lemma_insert_member(s: Seq<FindingView>, x: FindingView, y: FindingView)
    requires
        insert_finding(s, x).contains(y),
    ensures
        y == x || s.contains(y),
    decreases s.len(),
{
    if s.len() > 0 && !finding_before(x, s[0]) {
        let r = insert_finding(s.drop_first(), x);
        let c = seq![s[0]] + r;
        let i = choose|i: int| 0 <= i < c.len() && c[i] == y;
        if i > 0 {
            assert(r[i - 1] == y);
            lemma_insert_member(s.drop_first(), x, y);
            if s.drop_first().contains(y) {
                let j = choose|j: int| 0 <= j < s.drop_first().len() && s.drop_first()[j] == y;
                assert(s[j + 1] == y);
            }
        } else {
            assert(s[0] == y);
        }
    } else if s.len() > 0 {
        let c = seq![x] + s;
        let i = choose|i: int| 0 <= i < c.len() && c[i] == y;
        if i > 0 {
            assert(s[i - 1] == y);
        }
    }
}

proof fn lemma_sort_member(s: Seq<FindingView>, y: FindingView)
    requires
        sort_findings(s).contains(y),
    ensures
        s.contains(y),
    decreases s.len(),
{
    if s.len() > 0 {
        lemma_insert_member(sort_findings(s.drop_last()), s.last(), y);
        if y != s.last() {
            lemma_sort_member(s.drop_last(), y);
            let j = choose|j: int| 0 <= j < s.drop_last().len() && s.drop_last()[j] == y;
            assert(s[j] == y);
        } else {
            assert(s[s.len() - 1] == y);
        }
    }
}

/// Every reported finding is what the rules give for one of the classified
/// accesses: its severity, summary and remediation are those of its access.
pub proof fn law_findings_follow_the_rules(target: Seq<char>, scan: ScanResultView, i: int)
    requires
        0 <= i < analysis(target, scan).findings.len(),
    ensures
        ({
            let f = analysis(target, scan).findings[i];
            &&& classified(scan.functions).contains(f.access)
            &&& severity_of(f.access) == Some(f.severity)
            &&& f.summary == summary_text(f.access)
            &&& f.remediation == remediation_text(f.access)
        }),
{
    let cs = classified(scan.functions);
    let fs = analysis(target, scan).findings;
    assert(fs.contains(fs[i]));
    lemma_sort_member(candidates(cs, cs), fs[i]);
    lemma_candidate_member(cs, cs, fs[i]);
}

/// No finding is a write in a function that runs only once.
pub proof fn law_run_once_writes_never_appear(target: Seq<char>, scan: ScanResultView, i: int)
    requires
        0 <= i < analysis(target, scan).findings.len(),
    ensures
        !(runs_once_name(analysis(target, scan).findings[i].access.function)
            && analysis(target, scan).findings[i].access.access == Access::Write),
{
    law_findings_follow_the_rules(target, scan, i);
}

/// No finding is about a key derived from the caller's own input outside
/// instance storage.
pub proof fn law_subject_keys_never_appear(target: Seq<char>, scan: ScanResultView, i: int)
    requires
        0 <= i < analysis(target, scan).findings.len(),
    ensures
        !(analysis(target, scan).findings[i].access.class is SubjectDerived
            && analysis(target, scan).findings[i].access.durability != Durability::Instance),
{
    law_findings_follow_the_rules(target, scan, i);
}

proof fn lemma_fix_texts_are_long()
    ensures
        FIX_INSTANCE_STATIC@.len() > 80,
        FIX_INSTANCE_SUBJECT@.len() > 80,
        FIX_SEQUENCE@.len() > 80,
        FIX_STATIC_WRITE@.len() > 80,
        FIX_UNRESOLVABLE@.len() > 80,
{
        reveal_strlit("\
This is a fixed key in instance storage, which is the right place for it \u{2014} but it
is written on a path users reach, so every such call serialises on the contract
instance entry. Either move the write off the hot path (set it once at
construction, or in an admin function), or move the value to its own persistent
entry if it genuinely changes during normal operation.");
        reveal_strlit("\
Move per-subject data out of instance storage into persistent storage:

    // before \u{2014} one ledger entry for the whole contract
    env.storage().instance().set(&DataKey::Balance(addr), &amount);

    // after \u{2014} one ledger entry per address
    env.storage().persistent().set(&DataKey::Balance(addr), &amount);

Keep instance storage for what genuinely is global and rarely written: the
admin address, immutable configuration, the contract's own TTL. Anything
written on a normal user path does not belong there.");
        reveal_strlit("\
Derive the identifier from data the caller already supplies, so no shared
counter is read or bumped:

    // before \u{2014} every caller reads and writes DataKey::Seq
    let id: u64 = env.storage().persistent().get(&DataKey::Seq).unwrap_or(0);
    env.storage().persistent().set(&DataKey::Seq, &(id + 1));
    env.storage().persistent().set(&DataKey::Job(id), &job);

    // after \u{2014} the id is a function of the caller's own input
    let id = env.crypto().sha256(&(owner, target, salt).to_xdr(&env));
    env.storage().persistent().set(&DataKey::Job(id), &job);

You lose dense sequential ids and gain the ability to run in parallel. If
callers need to enumerate their own entries, keep a per-caller index
(`DataKey::OwnerJobs(owner)`) rather than a global one.");
        reveal_strlit("\
Shard the entry by whoever writes it, so two callers no longer collide:

    // before \u{2014} one entry, every caller writes it
    let total: i128 = env.storage().persistent().get(&DataKey::Total).unwrap_or(0);
    env.storage().persistent().set(&DataKey::Total, &(total + amount));

    // after \u{2014} one entry per writer, summed on read
    let key = DataKey::TotalShard(caller.clone());
    let shard: i128 = env.storage().persistent().get(&key).unwrap_or(0);
    env.storage().persistent().set(&key, &(shard + amount));

If the aggregate must be readable in one call, keep the shards authoritative
and recompute lazily, or accept that the reader pays to fold them. Reads do
not conflict, so a read-heavy aggregate is much cheaper to shard than it looks.");
        reveal_strlit("\
Braid could not follow this key expression, so it makes no claim either way.
Check by hand whether the value in the key comes from caller input (safe) or
from shared contract state (not safe). If it is caller input, binding it
directly from the parameter rather than through intermediate locals will let
Braid classify it next time.");
}

/// Every actionable finding (above info) carries a real remediation: more
/// than eighty characters of guidance on what to change.
pub proof fn law_actionable_findings_carry_a_remediation(
    target: Seq<char>,
    scan: ScanResultView,
    i: int,
)
    requires
        0 <= i < analysis(target, scan).findings.len(),
        analysis(target, scan).findings[i].severity.level() > Severity::Info.level(),
    ensures
        analysis(target, scan).findings[i].remediation.len() > 80,
{
    law_findings_follow_the_rules(target, scan, i);
    lemma_fix_texts_are_long();
}

/// The findings in report order: none comes before one listed ahead of it.
pub open spec fn in_report_order(s: Seq<FindingView>) -> bool {
    forall|i: int, j: int| 0 <= i < j < s.len() ==> !finding_before(#[trigger] s[j], #[trigger] s[i])
}

proof fn lemma_before_irreflexive(x: FindingView)
    ensures
        !finding_before(x, x),
{
    lemma_lt_irreflexive(x.access.file);
}

proof fn lemma_before_transitive(x: FindingView, y: FindingView, z: FindingView)
    requires
        finding_before(x, y),
        finding_before(y, z),
    ensures
        finding_before(x, z),
{
    if x.severity.level() == y.severity.level() && y.severity.level() == z.severity.level() {
        if seq_lt(x.access.file, y.access.file) && seq_lt(y.access.file, z.access.file) {
            lemma_lt_transitive(x.access.file, y.access.file, z.access.file);
        }
    }
}

proof fn lemma_insert_in_order(s: Seq<FindingView>, x: FindingView)
    requires
        in_report_order(s),
    ensures
        in_report_order(insert_finding(s, x)),
    decreases s.len(),
{
    let r = insert_finding(s, x);
    if s.len() == 0 {
    } else if finding_before(x, s[0]) {
        assert forall|i: int, j: int| 0 <= i < j < r.len() implies !finding_before(
            #[trigger] r[j],
            #[trigger] r[i],
        ) by {
            if i == 0 {
                assert(r[j] == s[j - 1]);
                if finding_before(s[j - 1], x) {
                    lemma_before_transitive(s[j - 1], x, s[0]);
                    if j - 1 == 0 {
                        lemma_before_irreflexive(s[0]);
                    }
                }
            } else {
                assert(r[i] == s[i - 1] && r[j] == s[j - 1]);
            }
        }
    } else {
        let t = s.drop_first();
        assert(in_report_order(t)) by {
            assert forall|i: int, j: int| 0 <= i < j < t.len() implies !finding_before(
                #[trigger] t[j],
                #[trigger] t[i],
            ) by {
                assert(t[i] == s[i + 1] && t[j] == s[j + 1]);
            }
        }
        lemma_insert_in_order(t, x);
        let q = insert_finding(t, x);
        assert(r == seq![s[0]] + q);
        assert forall|i: int, j: int| 0 <= i < j < r.len() implies !finding_before(
            #[trigger] r[j],
            #[trigger] r[i],
        ) by {
            if i == 0 {
                assert(r[j] == q[j - 1]);
                assert(q.contains(q[j - 1]));
                lemma_insert_member(t, x, q[j - 1]);
                if q[j - 1] != x {
                    let m = choose|m: int| 0 <= m < t.len() && t[m] == q[j - 1];
                    assert(s[m + 1] == q[j - 1]);
                }
            } else {
                assert(r[i] == q[i - 1] && r[j] == q[j - 1]);
            }
        }
    }
}

proof fn lemma_sort_in_order(s: Seq<FindingView>)
    ensures
        in_report_order(sort_findings(s)),
    decreases s.len(),
{
    if s.len() > 0 {
        lemma_sort_in_order(s.drop_last());
        lemma_insert_in_order(sort_findings(s.drop_last()), s.last());
    }
}

/// Findings are listed in report order: most severe first, then by file,
/// then by line.
pub proof fn law_findings_in_report_order(target: Seq<char>, scan: ScanResultView, i: int, j: int)
    requires
        0 <= i < j < analysis(target, scan).findings.len(),
    ensures
        ({
            let fs = analysis(target, scan).findings;
            &&& fs[i].severity.level() >= fs[j].severity.level()
            &&& !finding_before(fs[j], fs[i])
        }),
{
    let cs = classified(scan.functions);
    lemma_sort_in_order(candidates(cs, cs));
}

// ----- exit codes -----------------------------------------------------------

/// The worst severity is the highest severity of any finding, and there is
/// one exactly when there is a finding.
pub proof fn law_worst_is_the_most_severe(fs: Seq<FindingView>)
    ensures
        worst_of(fs) is None <==> fs.len() == 0,
        worst_of(fs) matches Some(w) ==> (exists|i: int|
            0 <= i < fs.len() && (#[trigger] fs[i]).severity == w),
        worst_of(fs) matches Some(w) ==> (forall|i: int|
            0 <= i < fs.len() ==> (#[trigger] fs[i]).severity.level() <= w.level()),
    decreases fs.len(),
{
    if fs.len() > 0 {
        let p = fs.drop_last();
        law_worst_is_the_most_severe(p);
        assert forall|i: int| 0 <= i < p.len() implies #[trigger] p[i] == fs[i] by {}
        if let Some(w) = worst_of(p) {
            if w.level() > fs.last().severity.level() {
                let k = choose|k: int| 0 <= k < p.len() && (#[trigger] p[k]).severity == w;
                assert(fs[k].severity == w);
            } else {
                assert(fs[fs.len() - 1].severity == fs.last().severity);
            }
        } else {
            assert(fs[fs.len() - 1].severity == fs.last().severity);
        }
        assert forall|i: int| 0 <= i < fs.len() implies (#[trigger] fs[i]).severity.level()
            <= worst_of(fs)->0.level() by {
            if i < p.len() {
                assert(p[i] == fs[i]);
            }
        }
    }
}

/// Without a threshold the exit code is always 0, whatever was found.
pub proof fn law_no_threshold_never_fails(fs: Seq<FindingView>)
    ensures
        exit_code_for(worst_of(fs), None) == 0,
{
}

/// With a threshold, the exit code is 1 exactly when some finding is at or
/// above it, and 0 otherwise.
pub proof fn law_exit_code_is_the_threshold_test(fs: Seq<FindingView>, t: Severity)
    ensures
        exit_code_for(worst_of(fs), Some(t)) == 0 || exit_code_for(worst_of(fs), Some(t)) == 1,
        exit_code_for(worst_of(fs), Some(t)) == 1 <==> exists|i: int|
            0 <= i < fs.len() && (#[trigger] fs[i]).severity.level() >= t.level(),
{
    law_worst_is_the_most_severe(fs);
}

/// A lower threshold fails whenever a higher one does.
pub proof fn law_lower_thresholds_fail_sooner(fs: Seq<FindingView>, low: Severity, high: Severity)
    requires
        low.level() <= high.level(),
    ensures
        exit_code_for(worst_of(fs), Some(high)) == 1 ==> exit_code_for(worst_of(fs), Some(low))
            == 1,
{
}

proof fn lemma_actionable_member(fs: Seq<FindingView>, x: FindingView)
    ensures
        actionable(fs).contains(x) <==> fs.contains(x) && x.severity != Severity::Info,
    decreases fs.len(),
{
    if fs.len() > 0 {
        let p = fs.drop_last();
        lemma_actionable_member(p, x);
        assert(fs =~= p.push(fs.last()));
        if fs.contains(x) && x != fs.last() {
            let i = choose|i: int| 0 <= i < fs.len() && fs[i] == x;
            assert(i < p.len() && p[i] == x);
        }
        if p.contains(x) {
            let i = choose|i: int| 0 <= i < p.len() && p[i] == x;
            assert(fs[i] == x);
        }
        if fs.last().severity != Severity::Info {
            let a = actionable(p);
            if a.push(fs.last()).contains(x) && x != fs.last() {
                let i = choose|i: int| 0 <= i < a.push(fs.last()).len() && a.push(fs.last())[i] == x;
                assert(a[i] == x);
            }
            if a.contains(x) {
                let i = choose|i: int| 0 <= i < a.len() && a[i] == x;
                assert(a.push(fs.last())[i] == x);
            }
            assert(a.push(fs.last())[a.len() as int] == fs.last());
        }
        assert(fs[fs.len() - 1] == fs.last());
    }
}

/// Hiding the info findings (`--quiet`) leaves no info finding, and never
/// changes whether a run fails at a warning or critical threshold.
pub proof fn law_hiding_info_keeps_failures(fs: Seq<FindingView>, t: Severity, i: int)
    requires
        t != Severity::Info,
    ensures
        0 <= i < actionable(fs).len() ==> actionable(fs)[i].severity != Severity::Info,
        exit_code_for(worst_of(actionable(fs)), Some(t)) == exit_code_for(worst_of(fs), Some(t)),
{
    let a = actionable(fs);
    if 0 <= i < a.len() {
        assert(a.contains(a[i]));
        lemma_actionable_member(fs, a[i]);
    }
    law_exit_code_is_the_threshold_test(fs, t);
    law_exit_code_is_the_threshold_test(a, t);
    if exists|k: int| 0 <= k < fs.len() && (#[trigger] fs[k]).severity.level() >= t.level() {
        let k = choose|k: int| 0 <= k < fs.len() && (#[trigger] fs[k]).severity.level() >= t.level();
        assert(fs.contains(fs[k]));
        lemma_actionable_member(fs, fs[k]);
        let m = choose|m: int| 0 <= m < a.len() && a[m] == fs[k];
        assert(a[m].severity.level() >= t.level());
    }
    if exists|k: int| 0 <= k < a.len() && (#[trigger] a[k]).severity.level() >= t.level() {
        let k = choose|k: int| 0 <= k < a.len() && (#[trigger] a[k]).severity.level() >= t.level();
        assert(a.contains(a[k]));
        lemma_actionable_member(fs, a[k]);
        let m = choose|m: int| 0 <= m < fs.len() && fs[m] == a[k];
        assert(fs[m].severity.level() >= t.level());
    }
}

// ----- severity names -------------------------------------------------------

/// The name a severity is printed with parses back to that severity.
pub proof fn law_severity_names_parse_back(s: Severity)
    ensures
        severity_named(lowered(s.name())) == Some(s),
{
    reveal_strlit("info");
    reveal_strlit("warning");
    reveal_strlit("critical");
    reveal_strlit("warn");
    reveal_strlit("crit");
    assert(lowered("info"@) =~= "info"@);
    assert(lowered("warning"@) =~= "warning"@);
    assert(lowered("critical"@) =~= "critical"@);
}

/// An ASCII letter in upper case; other characters as they are.
pub open spec fn upper_char(c: char) -> char {
    if 'a' <= c && c <= 'z' {
        ((c as u32) - 32) as char
    } else {
        c
    }
}

/// A text with its ASCII letters in upper case.
pub open spec fn uppered(s: Seq<char>) -> Seq<char> {
    s.map_values(|c: char| upper_char(c))
}

/// Severity names are read without regard to case: a text in upper case
/// lowers to what the text itself lowers to, so the printed name of a
/// severity, in upper case, parses back to that severity.
pub proof fn law_severity_names_parse_in_upper_case(s: Severity, t: Seq<char>)
    ensures
        lowered(uppered(t)) == lowered(t),
        severity_named(lowered(uppered(t))) == severity_named(lowered(t)),
        severity_named(lowered(uppered(s.name()))) == Some(s),
{
    assert forall|k: int| 0 <= k < t.len() implies #[trigger] crate::text::lower_char(
        upper_char(t[k]),
    ) == crate::text::lower_char(t[k]) by {
        let c = t[k];
        if 'a' <= c && c <= 'z' {
            assert((((c as u32) - 32) as char) as u32 == (c as u32) - 32);
        }
    }
    assert(lowered(uppered(t)) =~= lowered(t));
    assert forall|k: int| 0 <= k < s.name().len() implies #[trigger] crate::text::lower_char(
        upper_char(s.name()[k]),
    ) == crate::text::lower_char(s.name()[k]) by {
        let c = s.name()[k];
        if 'a' <= c && c <= 'z' {
            assert((((c as u32) - 32) as char) as u32 == (c as u32) - 32);
        }
    }
    assert(lowered(uppered(s.name())) =~= lowered(s.name()));
    law_severity_names_parse_back(s);
}

// ----- HTML -----------------------------------------------------------------

/// Replacing every `c` by a text without `c` leaves no `c`, and adds no
/// character `d` that neither the text nor the replacement holds.
proof fn lemma_replaced_drops(s: Seq<char>, c: char, rep: Seq<char>, d: char)
    requires
        !rep.contains(c),
    ensures
        !replaced(s, seq![c], rep).contains(c),
        !s.contains(d) && !rep.contains(d) ==> !replaced(s, seq![c], rep).contains(d),
    decreases s.len(),
{
    if s.len() > 0 {
        let pat = seq![c];
        if s.take(1) == pat {
            lemma_replaced_drops(s.skip(1), c, rep, d);
            let t = replaced(s.skip(1), pat, rep);
            if !s.contains(d) {
                assert forall|k: int| 0 <= k < s.skip(1).len() implies s.skip(1)[k] != d by {
                    assert(s.skip(1)[k] == s[k + 1]);
                }
            }
            assert(replaced(s, pat, rep) == rep + t);
            if (rep + t).contains(c) {
                let k = choose|k: int| 0 <= k < (rep + t).len() && (rep + t)[k] == c;
                if k < rep.len() {
                    assert(rep[k] == c);
                } else {
                    assert(t[k - rep.len()] == c);
                }
            }
            if !s.contains(d) && !rep.contains(d) && (rep + t).contains(d) {
                let k = choose|k: int| 0 <= k < (rep + t).len() && (rep + t)[k] == d;
                if k < rep.len() {
                    assert(rep[k] == d);
                } else {
                    assert(t[k - rep.len()] == d);
                }
            }
        } else {
            assert(s[0] != c) by {
                if s[0] == c {
                    assert(s.take(1) =~= pat);
                }
            }
            lemma_replaced_drops(s.drop_first(), c, rep, d);
            let t = replaced(s.drop_first(), pat, rep);
            if !s.contains(d) {
                assert forall|k: int| 0 <= k < s.drop_first().len() implies s.drop_first()[k]
                    != d by {
                    assert(s.drop_first()[k] == s[k + 1]);
                }
            }
            assert(replaced(s, pat, rep) == seq![s[0]] + t);
            if (seq![s[0]] + t).contains(c) {
                let k = choose|k: int| 0 <= k < (seq![s[0]] + t).len() && (seq![s[0]] + t)[k] == c;
                if k > 0 {
                    assert(t[k - 1] == c);
                }
            }
            if !s.contains(d) && !rep.contains(d) && (seq![s[0]] + t).contains(d) {
                let k = choose|k: int| 0 <= k < (seq![s[0]] + t).len() && (seq![s[0]] + t)[k] == d;
                if k > 0 {
                    assert(t[k - 1] == d);
                } else {
                    assert(s[0] == d);
                }
            }
        }
    }
}

/// Escaped text, which is how the HTML report shows every piece of text
/// taken from a contract, holds no `<`, `>` or `"`: it cannot open a tag or
/// close an attribute.
pub proof fn law_escaped_text_holds_no_markup(s: Seq<char>)
    ensures
        !escaped(s).contains('<'),
        !escaped(s).contains('>'),
        !escaped(s).contains('"'),
{
    reveal_strlit("&");
    reveal_strlit("&amp;");
    reveal_strlit("<");
    reveal_strlit("&lt;");
    reveal_strlit(">");
    reveal_strlit("&gt;");
    reveal_strlit("\"");
    reveal_strlit("&quot;");
    assert("&"@ =~= seq!['&']);
    assert("<"@ =~= seq!['<']);
    assert(">"@ =~= seq!['>']);
    assert("\""@ =~= seq!['"']);
    let s1 = replaced(s, "&"@, "&amp;"@);
    let s2 = replaced(s1, "<"@, "&lt;"@);
    let s3 = replaced(s2, ">"@, "&gt;"@);
    assert(!"&lt;"@.contains('<') && !"&lt;"@.contains('>') && !"&lt;"@.contains('"')) by {
        assert("&lt;"@ =~= seq!['&', 'l', 't', ';']);
    }
    assert(!"&gt;"@.contains('<') && !"&gt;"@.contains('>') && !"&gt;"@.contains('"')) by {
        assert("&gt;"@ =~= seq!['&', 'g', 't', ';']);
    }
    assert(!"&quot;"@.contains('<') && !"&quot;"@.contains('>') && !"&quot;"@.contains('"')) by {
        assert("&quot;"@ =~= seq!['&', 'q', 'u', 'o', 't', ';']);
    }
    lemma_replaced_drops(s1, '<', "&lt;"@, '<');
    lemma_replaced_drops(s2, '>', "&gt;"@, '<');
    lemma_replaced_drops(s2, '>', "&gt;"@, '>');
    lemma_replaced_drops(s3, '"', "&quot;"@, '<');
    lemma_replaced_drops(s3, '"', "&quot;"@, '>');
    lemma_replaced_drops(s3, '"', "&quot;"@, '"');
}

// ----- the report's lists and counts ----------------------------------------

proof fn lemma_function_names_finite(cs: Seq<StorageAccessView>, set: Set<Seq<char>>)
    requires
        forall|n: Seq<char>| #[trigger]
            set.contains(n) ==> exists|i: int| 0 <= i < cs.len() && cs[i].function == n,
    ensures
        set.finite(),
{
    let fs = cs.map_values(|a: StorageAccessView| a.function);
    let all = fs.to_set();
    vstd::seq_lib::seq_to_set_is_finite::<Seq<char>>(fs);
    assert forall|n: Seq<char>| set.contains(n) implies all.contains(n) by {
        let i = choose|i: int| 0 <= i < cs.len() && cs[i].function == n;
        assert(fs[i] == n);
        assert(fs.contains(n));
    }
    assert(set.subset_of(all));
    vstd::set_lib::lemma_set_subset_finite(all, set);
}

proof fn lemma_touch_set_finite(cs: Seq<StorageAccessView>, d: Seq<char>, w: bool)
    ensures
        crate::analyze::touch_set(cs, d, w).finite(),
{
    lemma_function_names_finite(cs, crate::analyze::touch_set(cs, d, w));
}

/// Each finding's `also_touched_by` lists, in increasing order, the other
/// entry points that touch the same entry, none of which runs only once.
pub proof fn law_also_touched_by_lists_the_other_touchers(
    target: Seq<char>,
    scan: ScanResultView,
    i: int,
)
    requires
        0 <= i < analysis(target, scan).findings.len(),
    ensures
        ({
            let cs = classified(scan.functions);
            let f = analysis(target, scan).findings[i];
            let others = touchers(cs, domain_of(f.access.durability, f.access.key_root)).remove(
                f.access.function,
            );
            &&& strictly_sorted(f.also_touched_by)
            &&& lists(f.also_touched_by, others)
            &&& forall|k: int|
                0 <= k < f.also_touched_by.len() ==> !runs_once_name(
                    #[trigger] f.also_touched_by[k],
                ) && f.also_touched_by[k] != f.access.function
        }),
{
    let cs = classified(scan.functions);
    let fs = analysis(target, scan).findings;
    assert(fs.contains(fs[i]));
    lemma_sort_member(candidates(cs, cs), fs[i]);
    lemma_candidate_member(cs, cs, fs[i]);
    let k = choose|k: int|
        0 <= k < cs.len() && severity_of(#[trigger] cs[k]) is Some && fs[i] == finding_for(
            cs,
            cs[k],
        );
    let a = cs[k];
    let d = domain_of(a.durability, a.key_root);
    let others = touchers(cs, d).remove(a.function);
    lemma_touch_set_finite(cs, d, false);
    lemma_sorted_names_exist(others);
    let l = fs[i].also_touched_by;
    assert(l == sorted_names(others));
    assert forall|m: int| 0 <= m < l.len() implies !runs_once_name(#[trigger] l[m]) && l[m]
        != a.function by {
        assert(l.contains(l[m]));
        assert(others.contains(l[m]));
        let j = choose|j: int|
            0 <= j < cs.len() && touches(#[trigger] cs[j], d, false) && cs[j].function == l[m];
    }
}

/// The self-conflicting entry points are listed in increasing order, and
/// are exactly those that are the sole writer of some shared entry.
pub proof fn law_self_conflicting_are_the_sole_writers(target: Seq<char>, scan: ScanResultView)
    ensures
        ({
            let cs = classified(scan.functions);
            let l = analysis(target, scan).self_conflicting_entry_points;
            &&& strictly_sorted(l)
            &&& forall|n: Seq<char>|
                #[trigger] l.contains(n) <==> exists|d: Seq<char>| #[trigger] writers(cs, d)
                    == set![n]
        }),
{
    let cs = classified(scan.functions);
    let set = self_conflicted(cs);
    assert forall|n: Seq<char>| #[trigger] set.contains(n) implies exists|i: int|
        0 <= i < cs.len() && cs[i].function == n by {
        let d = choose|d: Seq<char>| #[trigger] writers(cs, d) == set![n];
        assert(writers(cs, d).contains(n));
    }
    lemma_function_names_finite(cs, set);
    lemma_sorted_names_exist(set);
}

/// The parallel-safe entry points are listed in increasing order, and are
/// exactly the entry points at neither end of a conflict edge that are the
/// sole writer of no shared entry.
pub proof fn law_parallel_safe_list(target: Seq<char>, scan: ScanResultView)
    ensures
        ({
            let cs = classified(scan.functions);
            let l = analysis(target, scan).parallel_safe_entry_points;
            &&& strictly_sorted(l)
            &&& forall|n: Seq<char>| #[trigger]
                l.contains(n) <==> entry_names(cs).contains(n) && !(exists|e: ConflictEdgeView|
                    #[trigger] is_edge(cs, e) && (e.a == n || e.b == n)) && !(exists|d: Seq<char>|
                    #[trigger] writers(cs, d) == set![n])
        }),
{
    let cs = classified(scan.functions);
    let set = parallel_safe(cs);
    assert forall|n: Seq<char>| #[trigger] set.contains(n) implies exists|i: int|
        0 <= i < cs.len() && cs[i].function == n by {
        assert(entry_names(cs).contains(n));
    }
    lemma_function_names_finite(cs, set);
    lemma_sorted_names_exist(set);
    let l = analysis(target, scan).parallel_safe_entry_points;
    assert forall|n: Seq<char>| #[trigger] l.contains(n) <==> set.contains(n) by {}
}

/// How many accesses the functions hold in all.
pub open spec fn total_accesses(fns: Seq<FunctionInfoView>) -> int
    decreases fns.len(),
{
    if fns.len() == 0 {
        0
    } else {
        total_accesses(fns.drop_last()) + fns.last().accesses.len()
    }
}

proof fn lemma_classified_len(fns: Seq<FunctionInfoView>, part: Seq<FunctionInfoView>)
    ensures
        classified_in(fns, part).len() == total_accesses(part),
    decreases part.len(),
{
    if part.len() > 0 {
        lemma_classified_len(fns, part.drop_last());
    }
}

/// The classified accesses are those of the scanned functions, each
/// function's accesses with its name, file and entry-point mark.
pub proof fn law_classified_accesses_come_from_functions(
    fns: Seq<FunctionInfoView>,
    part: Seq<FunctionInfoView>,
    a: StorageAccessView,
)
    ensures
        classified_in(fns, part).contains(a) <==> exists|i: int, j: int|
            0 <= i < part.len() && 0 <= j < part[i].accesses.len() && a == #[trigger] classify_fn(
                fns,
                part[i],
            )[j],
    decreases part.len(),
{
    if part.len() > 0 {
        let p = part.drop_last();
        let c0 = classified_in(fns, p);
        let c1 = classify_fn(fns, part.last());
        law_classified_accesses_come_from_functions(fns, p, a);
        assert(classified_in(fns, part) == c0 + c1);
        if (c0 + c1).contains(a) {
            let k = choose|k: int| 0 <= k < (c0 + c1).len() && (c0 + c1)[k] == a;
            if k < c0.len() {
                assert(c0.contains(a));
                let (i, j) = choose|i: int, j: int|
                    0 <= i < p.len() && 0 <= j < p[i].accesses.len() && a == #[trigger] classify_fn(
                        fns,
                        p[i],
                    )[j];
                assert(part[i] == p[i]);
            } else {
                assert(c1[k - c0.len()] == a);
                assert(part[part.len() - 1] == part.last());
            }
        }
        if exists|i: int, j: int|
            0 <= i < part.len() && 0 <= j < part[i].accesses.len() && a == #[trigger] classify_fn(
                fns,
                part[i],
            )[j] {
            let (i, j) = choose|i: int, j: int|
                0 <= i < part.len() && 0 <= j < part[i].accesses.len() && a == #[trigger] classify_fn(
                    fns,
                    part[i],
                )[j];
            if i < p.len() {
                assert(part[i] == p[i]);
                assert(c0.contains(a));
                let k = choose|k: int| 0 <= k < c0.len() && c0[k] == a;
                assert((c0 + c1)[k] == a);
            } else {
                assert((c0 + c1)[c0.len() + j] == a);
            }
        }
    }
}

/// The summary counts what was scanned: every function, every access, and
/// the entry points that access storage; the severity counts are those of
/// the findings.
pub proof fn law_summary_counts_the_scan(target: Seq<char>, scan: ScanResultView)
    requires
        total_accesses(scan.functions) <= usize::MAX,
    ensures
        ({
            let r = analysis(target, scan);
            let cs = classified(scan.functions);
            &&& r.schema_version == 1
            &&& r.target == target
            &&& r.summary.files_scanned == scan.files_scanned
            &&& r.summary.functions_scanned == scan.functions.len() as usize
            &&& r.summary.accesses_found == total_accesses(scan.functions)
            &&& r.summary.entry_points == entry_names(cs).len() as usize
            &&& r.summary.critical == crate::analyze::count_severity(r.findings, Severity::Critical)
                as usize
            &&& r.summary.warning == crate::analyze::count_severity(r.findings, Severity::Warning)
                as usize
            &&& r.summary.info == crate::analyze::count_severity(r.findings, Severity::Info)
                as usize
            &&& forall|n: Seq<char>| #[trigger]
                entry_names(cs).contains(n) <==> exists|i: int|
                    0 <= i < scan.functions.len() && (#[trigger] scan.functions[i]).entry_point
                        && scan.functions[i].name == n && scan.functions[i].accesses.len() > 0
        }),
{
    let fns = scan.functions;
    let cs = classified(fns);
    lemma_classified_len(fns, fns);
    let set = entry_names(cs);
    lemma_function_names_finite(cs, set);
    lemma_sorted_names_exist(set);
    let l = sorted_names(set);
    assert(l.no_duplicates()) by {
        assert forall|i: int, j: int| 0 <= i < l.len() && 0 <= j < l.len() && i != j implies l[i]
            != l[j] by {
            if i < j {
                lemma_lt_irreflexive(l[i]);
            } else {
                lemma_lt_irreflexive(l[j]);
            }
        }
    }
    l.unique_seq_to_set();
    assert(l.to_set() =~= set);
    assert forall|n: Seq<char>| #[trigger] set.contains(n) <==> exists|i: int|
        0 <= i < fns.len() && (#[trigger] fns[i]).entry_point && fns[i].name == n
            && fns[i].accesses.len() > 0 by {
        if set.contains(n) {
            let k = choose|k: int| 0 <= k < cs.len() && (#[trigger] cs[k]).entry_point && cs[k].function == n;
            assert(cs.contains(cs[k]));
            law_classified_accesses_come_from_functions(fns, fns, cs[k]);
            let (i, j) = choose|i: int, j: int|
                0 <= i < fns.len() && 0 <= j < fns[i].accesses.len() && cs[k] == #[trigger] classify_fn(
                    fns,
                    fns[i],
                )[j];
            assert(fns[i].entry_point && fns[i].name == n);
        }
        if exists|i: int|
            0 <= i < fns.len() && (#[trigger] fns[i]).entry_point && fns[i].name == n
                && fns[i].accesses.len() > 0 {
            let i = choose|i: int|
                0 <= i < fns.len() && (#[trigger] fns[i]).entry_point && fns[i].name == n
                    && fns[i].accesses.len() > 0;
            let a = classify_fn(fns, fns[i])[0];
            law_classified_accesses_come_from_functions(fns, fns, a);
            let k = choose|k: int| 0 <= k < cs.len() && cs[k] == a;
            assert(cs[k].entry_point && cs[k].function == n);
        }
    }
}

/// Every source file is either scanned or reported as not parsed.
pub proof fn law_every_file_is_scanned_or_reported(
    fs: Seq<(Seq<char>, Result<Seq<FileItem>, Seq<char>>)>,
    contract: bool,
)
    requires
        fs.len() <= usize::MAX,
    ensures
        scan_views(fs, contract).files_scanned + scan_views(fs, contract).parse_errors.len()
            == fs.len(),
    decreases fs.len(),
{
    if fs.len() > 0 {
        law_every_file_is_scanned_or_reported(fs.drop_last(), contract);
    }
}

// ----- findings as a whole ----------------------------------------------------

proof fn lemma_insert_multiset(s: Seq<FindingView>, x: FindingView)
    ensures
        insert_finding(s, x).to_multiset() =~= s.to_multiset().insert(x),
    decreases s.len(),
{
    broadcast use vstd::seq_lib::group_to_multiset_ensures;

    if s.len() == 0 {
        assert(seq![x] =~= Seq::<FindingView>::empty().push(x));
    } else if finding_before(x, s[0]) {
        vstd::seq_lib::lemma_multiset_commutative(seq![x], s);
        assert(seq![x] =~= Seq::<FindingView>::empty().push(x));
    } else {
        let t = s.drop_first();
        lemma_insert_multiset(t, x);
        vstd::seq_lib::lemma_multiset_commutative(seq![s[0]], insert_finding(t, x));
        vstd::seq_lib::lemma_multiset_commutative(seq![s[0]], t);
        assert(s =~= seq![s[0]] + t);
        assert(seq![s[0]] =~= Seq::<FindingView>::empty().push(s[0]));
    }
}

proof fn lemma_sort_multiset(s: Seq<FindingView>)
    ensures
        sort_findings(s).to_multiset() =~= s.to_multiset(),
    decreases s.len(),
{
    broadcast use vstd::seq_lib::group_to_multiset_ensures;

    if s.len() > 0 {
        lemma_sort_multiset(s.drop_last());
        lemma_insert_multiset(sort_findings(s.drop_last()), s.last());
        assert(s =~= s.drop_last().push(s.last()));
    }
}

/// The findings the rules give for the accesses that are worth reporting,
/// in the order of the accesses.
pub open spec fn reportable(cs: Seq<StorageAccessView>) -> Seq<FindingView> {
    cs.filter(worth_reporting()).map_values(finding_of(cs))
}

/// An access with a severity.
pub open spec fn worth_reporting() -> spec_fn(StorageAccessView) -> bool {
    |a: StorageAccessView| severity_of(a) is Some
}

/// The finding the rules give for an access of `cs`.
pub open spec fn finding_of(cs: Seq<StorageAccessView>) -> spec_fn(StorageAccessView) -> FindingView {
    |a: StorageAccessView| finding_for(cs, a)
}

/// A finding above info.
pub open spec fn not_info() -> spec_fn(FindingView) -> bool {
    |f: FindingView| f.severity != Severity::Info
}

proof fn lemma_candidates_filter(cs: Seq<StorageAccessView>, part: Seq<StorageAccessView>)
    ensures
        candidates(cs, part) == part.filter(worth_reporting()).map_values(finding_of(cs)),
    decreases part.len(),
{
    reveal(Seq::filter);
    let pred = worth_reporting();
    let f = finding_of(cs);
    if part.len() == 0 {
        assert(part.filter(pred) =~= Seq::<StorageAccessView>::empty());
        assert(part.filter(pred).map_values(f) =~= Seq::<FindingView>::empty());
    } else {
        lemma_candidates_filter(cs, part.drop_last());
        let sub = part.drop_last().filter(pred);
        if pred(part.last()) {
            assert(part.filter(pred) == sub.push(part.last()));
            assert(candidates(cs, part) == candidates(cs, part.drop_last()).push(f(part.last())));
            assert(sub.push(part.last()).map_values(f) =~= sub.map_values(f).push(f(part.last())));
        } else {
            assert(part.filter(pred) == sub);
        }
    }
}

/// The report's findings are the findings of all the accesses worth
/// reporting, each once: a permutation of them into report order.
pub proof fn law_findings_are_the_reportable_accesses(target: Seq<char>, scan: ScanResultView)
    ensures
        analysis(target, scan).findings.to_multiset() =~= reportable(
            classified(scan.functions),
        ).to_multiset(),
{
    let cs = classified(scan.functions);
    lemma_sort_multiset(candidates(cs, cs));
    lemma_candidates_filter(cs, cs);
}

/// The access a finding is about.
pub open spec fn access_of() -> spec_fn(FindingView) -> StorageAccessView {
    |f: FindingView| f.access
}

proof fn lemma_insert_accesses(s: Seq<FindingView>, x: FindingView)
    ensures
        insert_finding(s, x).map_values(access_of()).to_multiset() =~= s.map_values(
            access_of(),
        ).to_multiset().insert(x.access),
    decreases s.len(),
{
    broadcast use vstd::seq_lib::group_to_multiset_ensures;

    let g = access_of();
    if s.len() == 0 {
        assert(seq![x].map_values(g) =~= Seq::<StorageAccessView>::empty().push(x.access));
        assert(s.map_values(g) =~= Seq::<StorageAccessView>::empty());
    } else if finding_before(x, s[0]) {
        assert((seq![x] + s).map_values(g) =~= seq![x.access] + s.map_values(g));
        vstd::seq_lib::lemma_multiset_commutative(seq![x.access], s.map_values(g));
        assert(seq![x.access] =~= Seq::<StorageAccessView>::empty().push(x.access));
    } else {
        let t = s.drop_first();
        lemma_insert_accesses(t, x);
        let it = insert_finding(t, x);
        assert((seq![s[0]] + it).map_values(g) =~= seq![s[0].access] + it.map_values(g));
        vstd::seq_lib::lemma_multiset_commutative(seq![s[0].access], it.map_values(g));
        vstd::seq_lib::lemma_multiset_commutative(seq![s[0].access], t.map_values(g));
        assert(s.map_values(g) =~= seq![s[0].access] + t.map_values(g));
        assert(seq![s[0].access] =~= Seq::<StorageAccessView>::empty().push(s[0].access));
    }
}

proof fn lemma_sort_accesses(s: Seq<FindingView>)
    ensures
        sort_findings(s).map_values(access_of()).to_multiset() =~= s.map_values(
            access_of(),
        ).to_multiset(),
    decreases s.len(),
{
    broadcast use vstd::seq_lib::group_to_multiset_ensures;

    if s.len() > 0 {
        lemma_sort_accesses(s.drop_last());
        lemma_insert_accesses(sort_findings(s.drop_last()), s.last());
        assert(s.map_values(access_of()) =~= s.drop_last().map_values(access_of()).push(
            s.last().access,
        ));
    }
}

/// The accesses the report's findings are about are the classified
/// accesses that have a severity, each as often as it occurs there: the
/// findings reorder them and drop none.
pub proof fn law_reported_accesses_are_those_with_a_severity(target: Seq<char>, scan: ScanResultView)
    ensures
        analysis(target, scan).findings.map_values(access_of()).to_multiset() =~= classified(
            scan.functions,
        ).filter(worth_reporting()).to_multiset(),
        forall|i: int|
            0 <= i < analysis(target, scan).findings.len() ==> severity_of(
                (#[trigger] analysis(target, scan).findings[i]).access,
            ) == Some(analysis(target, scan).findings[i].severity),
{
    let cs = classified(scan.functions);
    let c = candidates(cs, cs);
    lemma_sort_accesses(c);
    lemma_candidates_filter(cs, cs);
    assert(c.map_values(access_of()) =~= cs.filter(worth_reporting()));
    assert forall|i: int| 0 <= i < analysis(target, scan).findings.len() implies severity_of(
        (#[trigger] analysis(target, scan).findings[i]).access,
    ) == Some(analysis(target, scan).findings[i].severity) by {
        law_findings_follow_the_rules(target, scan, i);
    }
}

// ----- key classes, exactly ---------------------------------------------------------

proof fn lemma_no_sequence(os: Seq<ArgOutcome>)
    ensures
        first_sequence(os) is None <==> forall|k: int| 0 <= k < os.len() ==> !(#[trigger] os[k] is Sequence),
    decreases os.len(),
{
    if os.len() > 0 {
        lemma_no_sequence(os.drop_last());
        if first_sequence(os) is None {
            assert forall|k: int| 0 <= k < os.len() implies !(#[trigger] os[k] is Sequence) by {
                if k < os.len() - 1 {
                    assert(os.drop_last()[k] == os[k]);
                }
            }
        } else {
            if first_sequence(os.drop_last()) is Some {
                let k = choose|k: int| 0 <= k < os.drop_last().len() && (#[trigger] os.drop_last()[k] is Sequence);
                assert(os[k] == os.drop_last()[k]);
            } else {
                assert(os[os.len() - 1] is Sequence);
            }
        }
    }
}

proof fn lemma_no_unresolved(os: Seq<ArgOutcome>)
    ensures
        first_unresolved(os) is None <==> forall|k: int| 0 <= k < os.len() ==> !(#[trigger] os[k] is Unresolved),
    decreases os.len(),
{
    if os.len() > 0 {
        lemma_no_unresolved(os.drop_last());
        if first_unresolved(os) is None {
            assert forall|k: int| 0 <= k < os.len() implies !(#[trigger] os[k] is Unresolved) by {
                if k < os.len() - 1 {
                    assert(os.drop_last()[k] == os[k]);
                }
            }
        } else {
            if first_unresolved(os.drop_last()) is Some {
                let k = choose|k: int| 0 <= k < os.drop_last().len() && (#[trigger] os.drop_last()[k] is Unresolved);
                assert(os[k] == os.drop_last()[k]);
            } else {
                assert(os[os.len() - 1] is Unresolved);
            }
        }
    }
}

/// A key is static exactly when it has no arguments, and keyed by the
/// caller exactly when it has arguments and every one of them is a
/// parameter of the function, the parameters then named in order.
pub proof fn law_static_and_subject_keys(fns: Seq<FunctionInfoView>, f: FunctionInfoView, raw: RawAccessView)
    ensures
        key_class(fns, f, raw) is Static <==> raw.key_args.len() == 0,
        key_class(fns, f, raw) is SubjectDerived <==> raw.key_args.len() > 0 && forall|k: int|
            0 <= k < raw.key_args.len() ==> (#[trigger] raw.key_args[k] matches ArgOriginView::Ident(
                n,
            ) && f.params.contains(n)),
        key_class(fns, f, raw) matches KeyClassView::SubjectDerived { param } ==> param
            == crate::text::seq_join(
            crate::analyze::subjects(
                raw.key_args.map_values(|a: ArgOriginView| arg_outcome(fns, f, raw.line, a)),
            ),
            ", "@,
        ),
{
    let os = raw.key_args.map_values(|a: ArgOriginView| arg_outcome(fns, f, raw.line, a));
    lemma_no_sequence(os);
    lemma_no_unresolved(os);
    if raw.key_args.len() > 0 {
        if key_class(fns, f, raw) is SubjectDerived {
            assert forall|k: int| 0 <= k < raw.key_args.len() implies (
            #[trigger] raw.key_args[k] matches ArgOriginView::Ident(n) && f.params.contains(n)) by {
                assert(os[k] == arg_outcome(fns, f, raw.line, raw.key_args[k]));
            }
        }
        if forall|k: int|
            0 <= k < raw.key_args.len() ==> (#[trigger] raw.key_args[k] matches ArgOriginView::Ident(
                n,
            ) && f.params.contains(n)) {
            assert forall|k: int| 0 <= k < os.len() implies !(#[trigger] os[k] is Sequence) && !(
            os[k] is Unresolved) by {
                assert(raw.key_args[k] matches ArgOriginView::Ident(n) && f.params.contains(n));
            }
        }
    }
}

// ----- remediation, counters, names --------------------------------------------------

/// An access worth acting on (above info) has a remediation of more than
/// eighty characters.
pub proof fn law_actionable_accesses_have_long_remediations(a: StorageAccessView)
    requires
        severity_of(a) matches Some(s) && s.level() > Severity::Info.level(),
    ensures
        remediation_text(a).len() > 80,
{
    lemma_fix_texts_are_long();
}

/// A function's counter is the least key, in `seq_lt`, that it both reads
/// and writes with no arguments; it has one exactly when there is such a
/// key.
pub proof fn law_counter_is_the_least_shared_static_key(f: FunctionInfoView)
    ensures
        ({
            let both = static_keys(f, Access::Read).intersect(static_keys(f, Access::Write));
            &&& counter_key(f) is Some <==> exists|r: Seq<char>| both.contains(r)
            &&& counter_key(f) matches Some(c) ==> both.contains(c) && forall|x: Seq<char>|
                #[trigger] both.contains(x) ==> !seq_lt(x, c)
        }),
{
    let both = static_keys(f, Access::Read).intersect(static_keys(f, Access::Write));
    if exists|r: Seq<char>| both.contains(r) {
        let roots = f.accesses.map_values(|a: RawAccessView| a.key_root);
        vstd::seq_lib::seq_to_set_is_finite::<Seq<char>>(roots);
        assert forall|x: Seq<char>| both.contains(x) implies roots.to_set().contains(x) by {
            let i = choose|i: int|
                0 <= i < f.accesses.len() && (#[trigger] f.accesses[i]).key_args.len() == 0
                    && f.accesses[i].access == Access::Read && f.accesses[i].key_root == x;
            assert(roots[i] == x);
            assert(roots.contains(x));
        }
        assert(both.subset_of(roots.to_set()));
        vstd::set_lib::lemma_set_subset_finite(roots.to_set(), both);
        lemma_sorted_names_exist(both);
        let l = sorted_names(both);
        let r = choose|r: Seq<char>| both.contains(r);
        assert(l.contains(r));
        let m = l[0];
        assert(l.contains(m));
        assert forall|x: Seq<char>| both.contains(x) implies !seq_lt(x, m) by {
            assert(l.contains(x));
            let k = choose|k: int| 0 <= k < l.len() && l[k] == x;
            if k > 0 {
                lemma_lt_asymmetric(m, x);
            } else {
                lemma_lt_irreflexive(m);
            }
        }
        assert(both.contains(m) && forall|x: Seq<char>| both.contains(x) ==> !seq_lt(x, m));
    }
}

/// Lower-casing twice is lower-casing once, so a threshold name parses the
/// same whatever its case.
pub proof fn law_lowering_is_idempotent(s: Seq<char>)
    ensures
        lowered(lowered(s)) == lowered(s),
        severity_named(lowered(lowered(s))) == severity_named(lowered(s)),
{
    assert(lowered(lowered(s)) =~= lowered(s));
}

/// A `--fail-on` value other than `none` that names no severity is refused,
/// and the message names it.
pub proof fn law_unknown_thresholds_are_refused(s: Seq<char>)
    ensures
        threshold_of(Some(s)) is Err <==> s != "none"@ && severity_named(lowered(s)) is None,
        threshold_of(Some(s)) is Err ==> threshold_of(Some(s)) == Err::<Option<Severity>, Seq<char>>(
            unknown_severity(s),
        ),
{
}

/// The context of a finding is the run of lines from `radius` above it to
/// `radius` below it, clipped to the file, each with its number and text,
/// only the finding's own line marked.
pub proof fn law_context_window(lines: Seq<Seq<char>>, line: usize, radius: usize, k: int)
    requires
        0 <= k < context_for(lines, line, radius).len(),
        lines.len() <= usize::MAX,
    ensures
        ({
            let start: int = if line - radius >= 1 { line - radius } else { 1 };
            let end: int = if line + radius <= lines.len() { line + radius } else { lines.len() as int };
            let c = context_for(lines, line, radius);
            &&& c.len() == end - start + 1
            &&& c[k].number == start + k
            &&& c[k].text == lines[start + k - 1]
            &&& c[k].hit == (start + k == line)
            &&& start <= c[k].number <= end
        }),
{
}

proof fn lemma_actionable_filter(fs: Seq<FindingView>)
    ensures
        actionable(fs) == fs.filter(not_info()),
        count_severity(actionable(fs), Severity::Info) == 0,
    decreases fs.len(),
{
    reveal(Seq::filter);
    if fs.len() > 0 {
        lemma_actionable_filter(fs.drop_last());
        let a = actionable(fs.drop_last());
        if fs.last().severity != Severity::Info {
            assert(a.push(fs.last()).drop_last() =~= a);
            assert(a.push(fs.last()).last() == fs.last());
        }
    }
}

/// Hiding the info findings keeps the others in their order, and leaves
/// the info count at zero.
pub proof fn law_quiet_keeps_the_rest_in_order(fs: Seq<FindingView>)
    ensures
        actionable(fs) == fs.filter(not_info()),
        count_severity(actionable(fs), Severity::Info) == 0,
{
    lemma_actionable_filter(fs);
}

// ----- the terminal report ------------------------------------------------------

/// Without colour, a finding opens with its severity padded to eight
/// characters, its location and its function on one line, and its summary,
/// indented, on the next.
pub proof fn law_plain_finding_lines(f: FindingView)
    ensures
        crate::render_text::finding_line1(false, f) == (match f.severity {
            Severity::Critical => "critical"@,
            Severity::Warning => "warning "@,
            Severity::Info => "info    "@,
        }) + " "@ + f.access.file + ":"@ + crate::text::decimal(f.access.line as nat) + ":"@
            + crate::text::decimal(f.access.column as nat) + "  "@ + "in "@ + f.access.function
            + "()"@ + "\n"@,
        crate::render_text::finding_line2(f) == "         "@ + f.summary + "\n"@,
{
    reveal(crate::render_text::finding_line1);
    reveal(crate::render_text::finding_line2);
    let a = f.access;
    assert(crate::render_text::finding_line1(false, f) =~= (match f.severity {
        Severity::Critical => "critical"@,
        Severity::Warning => "warning "@,
        Severity::Info => "info    "@,
    }) + " "@ + a.file + ":"@ + crate::text::decimal(a.line as nat) + ":"@ + crate::text::decimal(
        a.column as nat,
    ) + "  "@ + "in "@ + a.function + "()"@ + "\n"@);
}

/// Reads alone never produce a conflict edge, stated of the scanned
/// functions: the two ends of an edge come in increasing order, and one of
/// them is an entry point, run more than once, that writes the shared entry
/// with a key different callers share.
pub proof fn law_edges_have_a_writer_in_the_scan(scan: ScanResultView, e: ConflictEdgeView)
    requires
        is_edge(classified(scan.functions), e),
    ensures
        seq_lt(e.a, e.b),
        exists|i: int, j: int|
            #![trigger scan.functions[i].accesses[j]]
            0 <= i < scan.functions.len() && 0 <= j < scan.functions[i].accesses.len() && ({
                let f = scan.functions[i];
                let raw = f.accesses[j];
                &&& f.entry_point
                &&& !runs_once_name(f.name)
                &&& (f.name == e.a || f.name == e.b)
                &&& raw.access == Access::Write
                &&& domain_of(raw.durability, raw.key_root) == e.key_root
                &&& (raw.durability == Durability::Instance || !(key_class(
                    scan.functions,
                    f,
                    raw,
                ) is SubjectDerived))
            }),
{
    let fns = scan.functions;
    let cs = classified(fns);
    law_reads_alone_never_conflict(cs, e);
    let k = choose|k: int|
        0 <= k < cs.len() && (#[trigger] cs[k]).access == Access::Write && cs[k].entry_point
            && counted(cs[k]) && !runs_once_name(cs[k].function) && touches(cs[k], e.key_root, true)
            && (cs[k].function == e.a || cs[k].function == e.b);
    assert(cs.contains(cs[k]));
    law_classified_accesses_come_from_functions(fns, fns, cs[k]);
    let (i, j) = choose|i: int, j: int|
        0 <= i < fns.len() && 0 <= j < fns[i].accesses.len() && cs[k] == #[trigger] classify_fn(
            fns,
            fns[i],
        )[j];
    assert(fns[i].accesses[j].access == Access::Write);
}

// ----- adding a caller-keyed entry point ------------------------------------------

/// Every access of `g` is keyed by its own parameters, outside instance
/// storage.
pub open spec fn keyed_by_own_params(g: FunctionInfoView) -> bool {
    forall|j: int|
        0 <= j < g.accesses.len() ==> {
            let raw = #[trigger] g.accesses[j];
            &&& raw.durability != Durability::Instance
            &&& raw.key_args.len() > 0
            &&& forall|k: int|
                0 <= k < raw.key_args.len() ==> (#[trigger] raw.key_args[k] matches ArgOriginView::Ident(
                    p,
                ) && g.params.contains(p))
        }
}

proof fn lemma_counter_unchanged(fns: Seq<FunctionInfoView>, g: FunctionInfoView, name: Seq<char>)
    requires
        keyed_by_own_params(g),
    ensures
        counter_of_call(fns.push(g), name) == counter_of_call(fns, name),
{
    let both = static_keys(g, Access::Read).intersect(static_keys(g, Access::Write));
    assert forall|r: Seq<char>| !both.contains(r) by {
        if static_keys(g, Access::Read).contains(r) {
            let i = choose|i: int|
                0 <= i < g.accesses.len() && (#[trigger] g.accesses[i]).key_args.len() == 0
                    && g.accesses[i].access == Access::Read && g.accesses[i].key_root == r;
        }
    }
    assert(counter_key(g) is None);
    assert(fns.push(g).drop_last() =~= fns);
}

proof fn lemma_classified_in_same(fns: Seq<FunctionInfoView>, g: FunctionInfoView, part: Seq<FunctionInfoView>)
    requires
        keyed_by_own_params(g),
    ensures
        classified_in(fns.push(g), part) == classified_in(fns, part),
    decreases part.len(),
{
    if part.len() > 0 {
        lemma_classified_in_same(fns, g, part.drop_last());
        let f = part.last();
        let fns2 = fns.push(g);
        assert forall|j: int| 0 <= j < f.accesses.len() implies key_class(fns2, f, f.accesses[j])
            == key_class(fns, f, #[trigger] f.accesses[j]) by {
            let raw = f.accesses[j];
            let os2 = raw.key_args.map_values(|a: ArgOriginView| arg_outcome(fns2, f, raw.line, a));
            let os = raw.key_args.map_values(|a: ArgOriginView| arg_outcome(fns, f, raw.line, a));
            assert forall|k: int| 0 <= k < raw.key_args.len() implies os2[k] == os[k] by {
                match raw.key_args[k] {
                    ArgOriginView::Ident(name) => {
                        match crate::analyze::binding_of(f.lets, name, raw.line) {
                            Some(b) => match b.from_call {
                                Some(call) => lemma_counter_unchanged(fns, g, call),
                                None => {},
                            },
                            None => {},
                        }
                    },
                    _ => {},
                }
            }
            assert(os2 =~= os);
        }
        assert(classify_fn(fns2, f) =~= classify_fn(fns, f));
    }
}

proof fn lemma_class_of_extra(cs: Seq<StorageAccessView>, gs: Seq<StorageAccessView>, d: Seq<char>)
    requires
        forall|j: int| 0 <= j < gs.len() ==> !counted(#[trigger] gs[j]),
    ensures
        class_of(cs + gs, d) == class_of(cs, d),
    decreases gs.len(),
{
    if gs.len() == 0 {
        assert(cs + gs =~= cs);
    } else {
        lemma_class_of_extra(cs, gs.drop_last(), d);
        assert((cs + gs).drop_last() =~= cs + gs.drop_last());
        assert((cs + gs).last() == gs[gs.len() - 1]);
    }
}

proof fn lemma_candidates_extra(
    c1: Seq<StorageAccessView>,
    c2: Seq<StorageAccessView>,
    part: Seq<StorageAccessView>,
    gs: Seq<StorageAccessView>,
)
    requires
        forall|a: StorageAccessView| finding_for(c1, a) == finding_for(c2, a),
        forall|j: int| 0 <= j < gs.len() ==> severity_of(#[trigger] gs[j]) is None,
    ensures
        candidates(c1, part + gs) == candidates(c2, part),
    decreases part.len() + gs.len(),
{
    if gs.len() > 0 {
        lemma_candidates_extra(c1, c2, part, gs.drop_last());
        assert((part + gs).drop_last() =~= part + gs.drop_last());
        assert((part + gs).last() == gs[gs.len() - 1]);
    } else if part.len() > 0 {
        assert(part + gs =~= part);
        lemma_candidates_extra(c1, c2, part.drop_last(), gs);
        assert(part.drop_last() + gs =~= part.drop_last());
    } else {
        assert(part + gs =~= part);
    }
}

/// Adding an entry point whose every access is keyed by its own parameters,
/// outside instance storage, changes no finding and no conflict edge; it
/// only joins the parallel-safe entry points, in its place in order.
pub proof fn law_caller_keyed_entry_point_changes_nothing_else(
    target: Seq<char>,
    scan: ScanResultView,
    g: FunctionInfoView,
)
    requires
        g.entry_point,
        !runs_once_name(g.name),
        g.accesses.len() > 0,
        keyed_by_own_params(g),
        forall|i: int| 0 <= i < scan.functions.len() ==> (#[trigger] scan.functions[i]).name != g.name,
    ensures
        ({
            let scan2 = ScanResultView { functions: scan.functions.push(g), ..scan };
            &&& analysis(target, scan2).findings == analysis(target, scan).findings
            &&& forall|e: ConflictEdgeView|
                #[trigger] is_edge(classified(scan2.functions), e) <==> is_edge(
                    classified(scan.functions),
                    e,
                )
            &&& analysis(target, scan2).parallel_safe_entry_points == insert_sorted(
                analysis(target, scan).parallel_safe_entry_points,
                g.name,
            )
        }),
{
    let fns = scan.functions;
    let fns2 = fns.push(g);
    let cs = classified(fns);
    let gs = classify_fn(fns2, g);
    lemma_classified_in_same(fns, g, fns);
    assert(fns2.drop_last() =~= fns);
    let cs2 = classified(fns2);
    assert(cs2 == cs + gs);
    assert forall|j: int| 0 <= j < gs.len() implies !counted(#[trigger] gs[j]) && severity_of(gs[j])
        is None && gs[j].function == g.name && gs[j].entry_point by {
        law_static_and_subject_keys(fns2, g, g.accesses[j]);
        assert(g.accesses[j].key_args.len() > 0);
    }
    assert forall|d: Seq<char>, w: bool| crate::analyze::touch_set(cs2, d, w)
        == crate::analyze::touch_set(cs, d, w) by {
        assert forall|n: Seq<char>| crate::analyze::touch_set(cs2, d, w).contains(n)
            == crate::analyze::touch_set(cs, d, w).contains(n) by {
            if crate::analyze::touch_set(cs2, d, w).contains(n) {
                let i = choose|i: int|
                    0 <= i < cs2.len() && touches(#[trigger] cs2[i], d, w) && cs2[i].function == n;
                if i >= cs.len() {
                    assert(cs2[i] == gs[i - cs.len()]);
                }
                assert(cs[i] == cs2[i]);
            }
            if crate::analyze::touch_set(cs, d, w).contains(n) {
                let i = choose|i: int|
                    0 <= i < cs.len() && touches(#[trigger] cs[i], d, w) && cs[i].function == n;
                assert(cs2[i] == cs[i]);
            }
        }
        assert(crate::analyze::touch_set(cs2, d, w) =~= crate::analyze::touch_set(cs, d, w));
    }
    assert forall|d: Seq<char>| #[trigger] edge_reason(cs2, d) == edge_reason(cs, d) by {
        lemma_class_of_extra(cs, gs, d);
    }
    assert forall|e: ConflictEdgeView| #[trigger] is_edge(cs2, e) <==> is_edge(cs, e) by {
        assert(touchers(cs2, e.key_root) == touchers(cs, e.key_root));
        assert(writers(cs2, e.key_root) == writers(cs, e.key_root));
        assert(edge_reason(cs2, e.key_root) == edge_reason(cs, e.key_root));
    }
    assert forall|a: StorageAccessView| finding_for(cs2, a) == finding_for(cs, a) by {
        let d = domain_of(a.durability, a.key_root);
        assert(touchers(cs2, d) == touchers(cs, d));
    }
    lemma_candidates_extra(cs2, cs, cs, gs);
    // parallel-safe entry points
    assert forall|n: Seq<char>| conflicted(cs2).contains(n) == conflicted(cs).contains(n) by {
        if conflicted(cs2).contains(n) {
            let e = choose|e: ConflictEdgeView| #[trigger] is_edge(cs2, e) && (e.a == n || e.b == n);
            assert(is_edge(cs, e));
        }
        if conflicted(cs).contains(n) {
            let e = choose|e: ConflictEdgeView| #[trigger] is_edge(cs, e) && (e.a == n || e.b == n);
            assert(is_edge(cs2, e));
        }
    }
    assert(conflicted(cs2) =~= conflicted(cs));
    assert forall|n: Seq<char>| self_conflicted(cs2).contains(n) == self_conflicted(cs).contains(n) by {
        if self_conflicted(cs2).contains(n) {
            let d = choose|d: Seq<char>| #[trigger] writers(cs2, d) == set![n];
            assert(writers(cs, d) == set![n]);
        }
        if self_conflicted(cs).contains(n) {
            let d = choose|d: Seq<char>| #[trigger] writers(cs, d) == set![n];
            assert(writers(cs2, d) == set![n]);
        }
    }
    assert(self_conflicted(cs2) =~= self_conflicted(cs));
    let p = parallel_safe(cs);
    let p2 = parallel_safe(cs2);
    // g's name is on no edge and is no sole writer: only the old functions touch anything.
    assert forall|n: Seq<char>| p2.contains(n) == p.insert(g.name).contains(n) by {
        if n == g.name {
            assert(cs2[cs.len() as int] == gs[0]);
            assert(entry_names(cs2).contains(n));
            if conflicted(cs).contains(n) {
                let e = choose|e: ConflictEdgeView| #[trigger] is_edge(cs, e) && (e.a == n || e.b == n);
                let i = choose|i: int|
                    0 <= i < cs.len() && touches(#[trigger] cs[i], e.key_root, false) && cs[i].function == n;
                assert(cs.contains(cs[i]));
                law_classified_accesses_come_from_functions(fns, fns, cs[i]);
                let (x, y) = choose|x: int, y: int|
                    0 <= x < fns.len() && 0 <= y < fns[x].accesses.len() && cs[i] == #[trigger] classify_fn(
                        fns,
                        fns[x],
                    )[y];
            }
            if self_conflicted(cs).contains(n) {
                let d = choose|d: Seq<char>| #[trigger] writers(cs, d) == set![n];
                assert(writers(cs, d).contains(n));
                let i = choose|i: int|
                    0 <= i < cs.len() && touches(#[trigger] cs[i], d, true) && cs[i].function == n;
                assert(cs.contains(cs[i]));
                law_classified_accesses_come_from_functions(fns, fns, cs[i]);
                let (x, y) = choose|x: int, y: int|
                    0 <= x < fns.len() && 0 <= y < fns[x].accesses.len() && cs[i] == #[trigger] classify_fn(
                        fns,
                        fns[x],
                    )[y];
            }
        } else {
            if entry_names(cs2).contains(n) {
                let i = choose|i: int| 0 <= i < cs2.len() && (#[trigger] cs2[i]).entry_point && cs2[i].function == n;
                if i >= cs.len() {
                    assert(cs2[i] == gs[i - cs.len()]);
                }
                assert(cs[i] == cs2[i]);
            }
            if entry_names(cs).contains(n) {
                let i = choose|i: int| 0 <= i < cs.len() && (#[trigger] cs[i]).entry_point && cs[i].function == n;
                assert(cs2[i] == cs[i]);
            }
        }
    }
    assert(p2 =~= p.insert(g.name));
    assert forall|n: Seq<char>| #[trigger] p.contains(n) implies exists|i: int|
        0 <= i < cs.len() && cs[i].function == n by {
        assert(entry_names(cs).contains(n));
    }
    lemma_function_names_finite(cs, p);
    lemma_sorted_names_exist(p);
    let l = sorted_names(p);
    assert(!l.contains(g.name)) by {
        if l.contains(g.name) {
            assert(p.contains(g.name));
            assert(entry_names(cs).contains(g.name));
            let i = choose|i: int| 0 <= i < cs.len() && (#[trigger] cs[i]).entry_point && cs[i].function == g.name;
            assert(cs.contains(cs[i]));
            law_classified_accesses_come_from_functions(fns, fns, cs[i]);
            let (x, y) = choose|x: int, y: int|
                0 <= x < fns.len() && 0 <= y < fns[x].accesses.len() && cs[i] == #[trigger] classify_fn(
                    fns,
                    fns[x],
                )[y];
        }
    }
    lemma_insert_sorted(l, g.name);
    let l2 = insert_sorted(l, g.name);
    assert forall|n: Seq<char>| #![trigger l2.contains(n)] #![trigger p2.contains(n)]
        l2.contains(n) <==> p2.contains(n) by {}
    lemma_sorted_names(l2, p2);
}

// ----- colour ---------------------------------------------------------------

/// A character that may stand between `ESC [` and `m` in a style sequence.
pub open spec fn style_char(c: char) -> bool {
    ('0' <= c && c <= '9') || c == ';'
}

/// The first position at or after `i` that holds no style character.
pub open spec fn style_params_end(s: Seq<char>, i: int) -> int
    decreases s.len() - i,
{
    if i < 0 || i >= s.len() {
        if i < 0 { 0 } else { s.len() as int }
    } else if style_char(s[i]) {
        style_params_end(s, i + 1)
    } else {
        i
    }
}

/// The length of the style sequence `s` begins with, or 0.
pub open spec fn style_len(s: Seq<char>) -> int {
    if s.len() >= 2 && s[0] == '\x1b' && s[1] == '[' {
        let j = style_params_end(s, 2);
        if j < s.len() && s[j] == 'm' {
            j + 1
        } else {
            0
        }
    } else {
        0
    }
}

pub proof fn lemma_params_end_bounds(s: Seq<char>, i: int)
    requires
        0 <= i <= s.len(),
    ensures
        i <= style_params_end(s, i) <= s.len(),
    decreases s.len() - i,
{
    if i < s.len() && style_char(s[i]) {
        lemma_params_end_bounds(s, i + 1);
    }
}

/// `s` with every ANSI style sequence (`ESC [`, digits and `;`, then `m`)
/// removed.
pub open spec fn unstyled(s: Seq<char>) -> Seq<char>
    decreases s.len(),
{
    if s.len() == 0 {
        s
    } else if style_len(s) > 0 {
        proof {
            lemma_params_end_bounds(s, 2);
        }
        unstyled(s.skip(style_len(s)))
    } else {
        seq![s[0]] + unstyled(s.drop_first())
    }
}

proof fn lemma_unstyled_plain(a: Seq<char>, b: Seq<char>)
    requires
        !a.contains('\x1b'),
    ensures
        unstyled(a + b) == a + unstyled(b),
    decreases a.len(),
{
    if a.len() > 0 {
        let t = a.drop_first();
        assert(!t.contains('\x1b')) by {
            if t.contains('\x1b') {
                let k = choose|k: int| 0 <= k < t.len() && t[k] == '\x1b';
                assert(a[k + 1] == '\x1b');
            }
        }
        lemma_unstyled_plain(t, b);
        assert(a[0] != '\x1b') by {
            assert(a.contains(a[0]));
        }
        assert((a + b)[0] == a[0]);
        assert(style_len(a + b) == 0);
        assert((a + b).drop_first() =~= t + b);
        assert(a + unstyled(b) =~= seq![a[0]] + (t + unstyled(b)));
    } else {
        assert(a + b =~= b);
        assert(a + unstyled(b) =~= unstyled(b));
    }
}

proof fn lemma_params_end_at(s: Seq<char>, i: int, j: int)
    requires
        0 <= i <= j < s.len(),
        forall|k: int| i <= k < j ==> style_char(#[trigger] s[k]),
        !style_char(s[j]),
    ensures
        style_params_end(s, i) == j,
    decreases j - i,
{
    if i < j {
        lemma_params_end_at(s, i + 1, j);
    }
}

/// The style sequence that selects `code`.
pub open spec fn style(code: Seq<char>) -> Seq<char> {
    "\x1b["@ + code + "m"@
}

proof fn lemma_unstyled_style(code: Seq<char>, b: Seq<char>)
    requires
        forall|k: int| 0 <= k < code.len() ==> style_char(#[trigger] code[k]),
    ensures
        unstyled(style(code) + b) == unstyled(b),
{
    reveal_strlit("\x1b[");
    reveal_strlit("m");
    let s = style(code) + b;
    let n = code.len() as int;
    assert(s[0] == '\x1b' && s[1] == '[');
    assert forall|k: int| 2 <= k < 2 + n implies style_char(#[trigger] s[k]) by {
        assert(s[k] == code[k - 2]);
    }
    assert(s[2 + n] == 'm');
    lemma_params_end_at(s, 2, 2 + n);
    assert(style_len(s) == 3 + n);
    assert(s.skip(3 + n) =~= b);
}

/// Colour only adds style sequences: painted text, with the style sequences
/// removed, is the text painted without colour, for any text that follows.
pub proof fn law_colour_only_adds_styles(code: Seq<char>, x: Seq<char>, b: Seq<char>)
    requires
        forall|k: int| 0 <= k < code.len() ==> style_char(#[trigger] code[k]),
        !x.contains('\x1b'),
    ensures
        unstyled(crate::render_text::paint(true, code, x) + b) == crate::render_text::paint(
            false,
            code,
            x,
        ) + unstyled(b),
{
    reveal_strlit("0");
    let reset = "0"@;
    assert forall|k: int| 0 <= k < reset.len() implies style_char(#[trigger] reset[k]) by {
        assert(reset =~= seq!['0']);
    }
    assert(style(reset) == "\x1b[0m"@) by {
        reveal_strlit("\x1b[");
        reveal_strlit("m");
        reveal_strlit("\x1b[0m");
        assert(style(reset) =~= "\x1b[0m"@);
    }
    let p = crate::render_text::paint(true, code, x);
    assert(p + b =~= style(code) + (x + (style(reset) + b)));
    lemma_unstyled_style(code, x + (style(reset) + b));
    lemma_unstyled_plain(x, style(reset) + b);
    lemma_unstyled_style(reset, b);
}

/// Text that holds no escape character.
pub open spec fn plain(s: Seq<char>) -> bool {
    !s.contains('\x1b')
}

/// `on`, followed by any text, loses its style sequences exactly as `off`
/// followed by the same text would, `off` being kept as it is.
pub open spec fn styles_to(on: Seq<char>, off: Seq<char>) -> bool {
    forall|b: Seq<char>| #[trigger] unstyled(on + b) == off + unstyled(b)
}

proof fn lemma_plain_add(a: Seq<char>, b: Seq<char>)
    requires
        plain(a),
        plain(b),
    ensures
        plain(a + b),
{
    if (a + b).contains('\x1b') {
        let k = choose|k: int| 0 <= k < (a + b).len() && (a + b)[k] == '\x1b';
        if k < a.len() {
            assert(a[k] == '\x1b');
        } else {
            assert(b[k - a.len()] == '\x1b');
        }
    }
}

proof fn lemma_styles_plain(a: Seq<char>)
    requires
        plain(a),
    ensures
        styles_to(a, a),
{
    assert forall|b: Seq<char>| #[trigger] unstyled(a + b) == a + unstyled(b) by {
        lemma_unstyled_plain(a, b);
    }
}

proof fn lemma_styles_paint(code: Seq<char>, x: Seq<char>)
    requires
        forall|k: int| 0 <= k < code.len() ==> style_char(#[trigger] code[k]),
        plain(x),
    ensures
        styles_to(
            crate::render_text::paint(true, code, x),
            crate::render_text::paint(false, code, x),
        ),
{
    assert forall|b: Seq<char>| #[trigger]
        unstyled(crate::render_text::paint(true, code, x) + b) == crate::render_text::paint(
            false,
            code,
            x,
        ) + unstyled(b) by {
        law_colour_only_adds_styles(code, x, b);
    }
}

proof fn lemma_styles_add(a1: Seq<char>, a2: Seq<char>, c1: Seq<char>, c2: Seq<char>)
    requires
        styles_to(a1, a2),
        styles_to(c1, c2),
    ensures
        styles_to(a1 + c1, a2 + c2),
{
    assert forall|b: Seq<char>| #[trigger] unstyled((a1 + c1) + b) == (a2 + c2) + unstyled(b) by {
        assert((a1 + c1) + b =~= a1 + (c1 + b));
        assert(unstyled(a1 + (c1 + b)) == a2 + unstyled(c1 + b));
        assert(unstyled(c1 + b) == c2 + unstyled(b));
        assert(a2 + (c2 + unstyled(b)) =~= (a2 + c2) + unstyled(b));
    }
}

proof fn lemma_styles_empty()
    ensures
        styles_to(Seq::<char>::empty(), Seq::<char>::empty()),
{
    lemma_styles_plain(Seq::<char>::empty());
}

/// Appending a plain piece.
proof fn lemma_styles_then_plain(a1: Seq<char>, a2: Seq<char>, p: Seq<char>)
    requires
        styles_to(a1, a2),
        plain(p),
    ensures
        styles_to(a1 + p, a2 + p),
{
    lemma_styles_plain(p);
    lemma_styles_add(a1, a2, p, p);
}

/// Appending a painted piece.
proof fn lemma_styles_then_paint(a1: Seq<char>, a2: Seq<char>, code: Seq<char>, x: Seq<char>)
    requires
        styles_to(a1, a2),
        forall|k: int| 0 <= k < code.len() ==> style_char(#[trigger] code[k]),
        plain(x),
    ensures
        styles_to(
            a1 + crate::render_text::paint(true, code, x),
            a2 + crate::render_text::paint(false, code, x),
        ),
{
    lemma_styles_paint(code, x);
    lemma_styles_add(
        a1,
        a2,
        crate::render_text::paint(true, code, x),
        crate::render_text::paint(false, code, x),
    );
}

proof fn lemma_style_codes()
    ensures
        forall|k: int| 0 <= k < "1"@.len() ==> style_char(#[trigger] "1"@[k]),
        forall|k: int| 0 <= k < "2"@.len() ==> style_char(#[trigger] "2"@[k]),
        forall|k: int| 0 <= k < "36"@.len() ==> style_char(#[trigger] "36"@[k]),
        forall|k: int| 0 <= k < "1;31"@.len() ==> style_char(#[trigger] "1;31"@[k]),
        forall|k: int| 0 <= k < "1;32"@.len() ==> style_char(#[trigger] "1;32"@[k]),
        forall|k: int| 0 <= k < "1;33"@.len() ==> style_char(#[trigger] "1;33"@[k]),
{
    reveal_strlit("1");
    reveal_strlit("2");
    reveal_strlit("36");
    reveal_strlit("1;31");
    reveal_strlit("1;32");
    reveal_strlit("1;33");
}

proof fn lemma_decimal_plain(n: nat)
    ensures
        plain(crate::text::decimal(n)),
    decreases n,
{
    let d = seq![crate::text::digit(n % 10)];
    assert(plain(d)) by {
        if d.contains('\x1b') {
            assert(d[0] == '\x1b');
        }
    }
    if n >= 10 {
        lemma_decimal_plain(n / 10);
        lemma_plain_add(crate::text::decimal(n / 10), d);
    } else {
        assert(crate::text::digit(n) == crate::text::digit(n % 10));
    }
}

proof fn lemma_join_plain(list: Seq<Seq<char>>, sep: Seq<char>)
    requires
        plain(sep),
        forall|k: int| 0 <= k < list.len() ==> plain(#[trigger] list[k]),
    ensures
        plain(crate::text::seq_join(list, sep)),
    decreases list.len(),
{
    if list.len() == 0 {
        assert(plain(Seq::<char>::empty()));
    } else if list.len() == 1 {
        assert(plain(list[0]));
    } else {
        lemma_join_plain(list.drop_last(), sep);
        assert(plain(list[list.len() - 1]));
        lemma_plain_add(crate::text::seq_join(list.drop_last(), sep), sep);
        lemma_plain_add(crate::text::seq_join(list.drop_last(), sep) + sep, list.last());
    }
}

proof fn lemma_sub_plain(s: Seq<char>, i: int, j: int)
    requires
        plain(s),
        0 <= i <= j <= s.len(),
    ensures
        plain(s.subrange(i, j)),
{
    if s.subrange(i, j).contains('\x1b') {
        let k = choose|k: int| 0 <= k < j - i && s.subrange(i, j)[k] == '\x1b';
        assert(s[i + k] == '\x1b');
    }
}

proof fn lemma_lines_plain(s: Seq<char>)
    requires
        plain(s),
    ensures
        forall|k: int| 0 <= k < crate::render_text::lines_of(s).len() ==> plain(
            #[trigger] crate::render_text::lines_of(s)[k],
        ),
    decreases s.len(),
{
    let ls = crate::render_text::lines_of(s);
    if s.len() > 0 {
        let i = crate::render_text::first_newline(s);
        crate::render_text::lemma_first_newline(s);
        if i >= s.len() {
            assert(ls == seq![s]);
        } else {
            let head = s.take(i);
            lemma_sub_plain(s, 0, i);
            assert(head =~= s.subrange(0, i));
            let l0 = crate::render_text::strip_cr(head);
            assert(plain(l0)) by {
                if head.len() > 0 && head.last() == '\r' {
                    lemma_sub_plain(head, 0, head.len() - 1);
                    assert(head.drop_last() =~= head.subrange(0, head.len() - 1));
                }
            }
            let rest = s.skip(i + 1);
            lemma_sub_plain(s, i + 1, s.len() as int);
            assert(rest =~= s.subrange(i + 1, s.len() as int));
            lemma_lines_plain(rest);
            let lr = crate::render_text::lines_of(rest);
            assert(ls == seq![l0] + lr);
            assert forall|k: int| 0 <= k < ls.len() implies plain(#[trigger] ls[k]) by {
                if k > 0 {
                    assert(ls[k] == lr[k - 1]);
                }
            }
        }
    }
}

proof fn lemma_literals_plain()
    ensures
        plain("critical"@),
        plain("warning "@),
        plain("info    "@),
        plain(" "@),
        plain(":"@),
        plain("  "@),
        plain("in "@),
        plain("()"@),
        plain("\n"@),
        plain("         "@),
        plain(" \u{b7} key class: "@),
        plain("instance"@),
        plain("persistent"@),
        plain("temporary"@),
        plain("read"@),
        plain("write"@),
        plain("static"@),
        plain("subject-derived"@),
        plain("sequence-derived"@),
        plain("unresolvable"@),
        plain(" (counter: "@),
        plain(")"@),
        plain("same ledger entry is also touched by: "@),
        plain(", "@),
        plain("<->"@),
        plain("   "@),
        plain("braid \u{2014} "@),
        plain(" file(s), "@),
        plain(" function(s), "@),
        plain(" entry point(s), "@),
        plain(" storage access(es)"@),
        plain("\n  "@),
        plain("PASS"@),
        plain(" no conflicts found \u{2014} every mutable entry is keyed by caller input\n"@),
        plain(" critical"@),
        plain(" warning"@),
        plain(" info"@),
        plain("Entry points that cannot run in parallel"@),
        plain("Parallel-safe entry points:"@),
{
    reveal_strlit("critical");
    reveal_strlit("warning ");
    reveal_strlit("info    ");
    reveal_strlit(" ");
    reveal_strlit(":");
    reveal_strlit("  ");
    reveal_strlit("in ");
    reveal_strlit("()");
    reveal_strlit("\n");
    reveal_strlit("         ");
    reveal_strlit(" \u{b7} key class: ");
    reveal_strlit("instance");
    reveal_strlit("persistent");
    reveal_strlit("temporary");
    reveal_strlit("read");
    reveal_strlit("write");
    reveal_strlit("static");
    reveal_strlit("subject-derived");
    reveal_strlit("sequence-derived");
    reveal_strlit("unresolvable");
    reveal_strlit(" (counter: ");
    reveal_strlit(")");
    reveal_strlit("same ledger entry is also touched by: ");
    reveal_strlit(", ");
    reveal_strlit("<->");
    reveal_strlit("   ");
    reveal_strlit("braid \u{2014} ");
    reveal_strlit(" file(s), ");
    reveal_strlit(" function(s), ");
    reveal_strlit(" entry point(s), ");
    reveal_strlit(" storage access(es)");
    reveal_strlit("\n  ");
    reveal_strlit("PASS");
    reveal_strlit(" no conflicts found \u{2014} every mutable entry is keyed by caller input\n");
    reveal_strlit(" critical");
    reveal_strlit(" warning");
    reveal_strlit(" info");
    reveal_strlit("Entry points that cannot run in parallel");
    reveal_strlit("Parallel-safe entry points:");
}

/// All the text of a finding that the terminal report shows is plain.
pub open spec fn finding_plain(f: FindingView) -> bool {
    &&& plain(f.access.file)
    &&& plain(f.access.function)
    &&& plain(f.summary)
    &&& plain(f.remediation)
    &&& forall|k: int| 0 <= k < f.also_touched_by.len() ==> plain(#[trigger] f.also_touched_by[k])
    &&& f.access.class matches KeyClassView::SequenceDerived { counter } ==> plain(counter)
}

/// All the text of a report that the terminal report shows is plain.
pub open spec fn report_plain(r: ReportView) -> bool {
    &&& plain(r.target)
    &&& forall|i: int| 0 <= i < r.findings.len() ==> finding_plain(#[trigger] r.findings[i])
    &&& forall|i: int|
        0 <= i < r.conflict_edges.len() ==> {
            let e = #[trigger] r.conflict_edges[i];
            plain(e.a) && plain(e.b) && plain(e.reason)
        }
    &&& forall|k: int|
        0 <= k < r.parallel_safe_entry_points.len() ==> plain(
            #[trigger] r.parallel_safe_entry_points[k],
        )
}

proof fn lemma_line1_styles(f: FindingView)
    requires
        finding_plain(f),
    ensures
        styles_to(
            crate::render_text::finding_line1(true, f),
            crate::render_text::finding_line1(false, f),
        ),
{
    reveal(crate::render_text::finding_line1);
    lemma_literals_plain();
    lemma_style_codes();
    let a = f.access;
    lemma_decimal_plain(a.line as nat);
    lemma_decimal_plain(a.column as nat);
    let d1 = crate::text::decimal(a.line as nat);
    let d2 = crate::text::decimal(a.column as nat);
    lemma_plain_add(a.file, ":"@);
    lemma_plain_add(a.file + ":"@, d1);
    lemma_plain_add(a.file + ":"@ + d1, ":"@);
    lemma_plain_add(a.file + ":"@ + d1 + ":"@, d2);
    let loc = a.file + ":"@ + d1 + ":"@ + d2;
    lemma_plain_add("in "@, a.function);
    lemma_plain_add("in "@ + a.function, "()"@);
    let func = "in "@ + a.function + "()"@;
    let (code, word) = match f.severity {
        Severity::Critical => ("1;31"@, "critical"@),
        Severity::Warning => ("1;33"@, "warning "@),
        Severity::Info => ("36"@, "info    "@),
    };
    assert(crate::render_text::severity_tag(true, f.severity) == crate::render_text::paint(
        true,
        code,
        word,
    ));
    assert(crate::render_text::severity_tag(false, f.severity) == crate::render_text::paint(
        false,
        code,
        word,
    ));
    lemma_styles_paint(code, word);
    let t1 = crate::render_text::severity_tag(true, f.severity);
    let t0 = crate::render_text::severity_tag(false, f.severity);
    lemma_styles_then_plain(t1, t0, " "@);
    lemma_styles_then_paint(t1 + " "@, t0 + " "@, "1"@, loc);
    let u1 = t1 + " "@ + crate::render_text::paint(true, "1"@, loc);
    let u0 = t0 + " "@ + crate::render_text::paint(false, "1"@, loc);
    lemma_styles_then_plain(u1, u0, "  "@);
    lemma_styles_then_paint(u1 + "  "@, u0 + "  "@, "2"@, func);
    let v1 = u1 + "  "@ + crate::render_text::paint(true, "2"@, func);
    let v0 = u0 + "  "@ + crate::render_text::paint(false, "2"@, func);
    lemma_styles_then_plain(v1, v0, "\n"@);
}

proof fn lemma_line3_styles(f: FindingView)
    requires
        finding_plain(f),
    ensures
        styles_to(
            crate::render_text::finding_line3(true, f),
            crate::render_text::finding_line3(false, f),
        ),
{
    reveal(crate::render_text::finding_line3);
    lemma_literals_plain();
    lemma_style_codes();
    let a = f.access;
    let note = crate::render_text::class_note(a.class);
    assert(plain(note)) by {
        match a.class {
            KeyClassView::SequenceDerived { counter } => {
                lemma_plain_add(a.class.label(), " (counter: "@);
                lemma_plain_add(a.class.label() + " (counter: "@, counter);
                lemma_plain_add(a.class.label() + " (counter: "@ + counter, ")"@);
            },
            _ => {},
        }
    }
    lemma_plain_add(a.durability.name(), " "@);
    lemma_plain_add(a.durability.name() + " "@, a.access.name());
    lemma_plain_add(a.durability.name() + " "@ + a.access.name(), " \u{b7} key class: "@);
    lemma_plain_add(a.durability.name() + " "@ + a.access.name() + " \u{b7} key class: "@, note);
    let x = a.durability.name() + " "@ + a.access.name() + " \u{b7} key class: "@ + note;
    lemma_styles_plain("         "@);
    lemma_styles_then_paint("         "@, "         "@, "2"@, x);
    lemma_styles_then_plain(
        "         "@ + crate::render_text::paint(true, "2"@, x),
        "         "@ + crate::render_text::paint(false, "2"@, x),
        "\n"@,
    );
}

proof fn lemma_also_styles(f: FindingView)
    requires
        finding_plain(f),
    ensures
        styles_to(
            crate::render_text::finding_also(true, f),
            crate::render_text::finding_also(false, f),
        ),
{
    reveal(crate::render_text::finding_also);
    lemma_literals_plain();
    lemma_style_codes();
    if f.also_touched_by.len() > 0 {
        lemma_join_plain(f.also_touched_by, ", "@);
        let j = crate::text::seq_join(f.also_touched_by, ", "@);
        lemma_plain_add("same ledger entry is also touched by: "@, j);
        let x = "same ledger entry is also touched by: "@ + j;
        lemma_styles_plain("         "@);
        lemma_styles_then_paint("         "@, "         "@, "2"@, x);
        lemma_styles_then_plain(
            "         "@ + crate::render_text::paint(true, "2"@, x),
            "         "@ + crate::render_text::paint(false, "2"@, x),
            "\n"@,
        );
    } else {
        lemma_styles_empty();
    }
}

proof fn lemma_indented_styles(ls: Seq<Seq<char>>)
    requires
        forall|k: int| 0 <= k < ls.len() ==> plain(#[trigger] ls[k]),
    ensures
        styles_to(
            crate::render_text::indented_dim(true, ls),
            crate::render_text::indented_dim(false, ls),
        ),
    decreases ls.len(),
{
    if ls.len() == 0 {
        lemma_styles_empty();
    } else {
        lemma_literals_plain();
        lemma_style_codes();
        let p = ls.drop_last();
        assert forall|k: int| 0 <= k < p.len() implies plain(#[trigger] p[k]) by {
            assert(p[k] == ls[k]);
        }
        lemma_indented_styles(p);
        assert(plain(ls[ls.len() - 1]));
        let i1 = crate::render_text::indented_dim(true, p);
        let i0 = crate::render_text::indented_dim(false, p);
        lemma_styles_then_plain(i1, i0, "         "@);
        lemma_styles_then_paint(i1 + "         "@, i0 + "         "@, "2"@, ls.last());
        lemma_styles_then_plain(
            i1 + "         "@ + crate::render_text::paint(true, "2"@, ls.last()),
            i0 + "         "@ + crate::render_text::paint(false, "2"@, ls.last()),
            "\n"@,
        );
    }
}

proof fn lemma_fix_styles(f: FindingView)
    requires
        finding_plain(f),
    ensures
        styles_to(
            crate::render_text::finding_fix(true, f),
            crate::render_text::finding_fix(false, f),
        ),
{
    reveal(crate::render_text::finding_fix);
    lemma_literals_plain();
    if f.severity.level() > Severity::Info.level() {
        lemma_lines_plain(f.remediation);
        lemma_indented_styles(crate::render_text::lines_of(f.remediation));
        lemma_styles_plain("\n"@);
        lemma_styles_add(
            "\n"@,
            "\n"@,
            crate::render_text::indented_dim(true, crate::render_text::lines_of(f.remediation)),
            crate::render_text::indented_dim(false, crate::render_text::lines_of(f.remediation)),
        );
    } else {
        lemma_styles_empty();
    }
}

proof fn lemma_finding_styles(f: FindingView, last: bool)
    requires
        finding_plain(f),
    ensures
        styles_to(
            crate::render_text::finding_text(true, f, last),
            crate::render_text::finding_text(false, f, last),
        ),
{
    lemma_literals_plain();
    lemma_line1_styles(f);
    lemma_line3_styles(f);
    lemma_also_styles(f);
    lemma_fix_styles(f);
    reveal(crate::render_text::finding_line2);
    lemma_plain_add("         "@, f.summary);
    lemma_plain_add("         "@ + f.summary, "\n"@);
    let l2 = crate::render_text::finding_line2(f);
    let a1 = crate::render_text::finding_line1(true, f);
    let a0 = crate::render_text::finding_line1(false, f);
    lemma_styles_then_plain(a1, a0, l2);
    let b1 = crate::render_text::finding_line3(true, f);
    let b0 = crate::render_text::finding_line3(false, f);
    lemma_styles_add(a1 + l2, a0 + l2, b1, b0);
    let c1 = crate::render_text::finding_also(true, f);
    let c0 = crate::render_text::finding_also(false, f);
    lemma_styles_add(a1 + l2 + b1, a0 + l2 + b0, c1, c0);
    let d1 = crate::render_text::finding_fix(true, f);
    let d0 = crate::render_text::finding_fix(false, f);
    lemma_styles_add(a1 + l2 + b1 + c1, a0 + l2 + b0 + c0, d1, d0);
    let tail: Seq<char> = if last {
        Seq::empty()
    } else {
        "\n"@
    };
    assert(plain(tail)) by {
        if last {
            assert(!Seq::<char>::empty().contains('\x1b'));
        }
    }
    lemma_styles_then_plain(a1 + l2 + b1 + c1 + d1, a0 + l2 + b0 + c0 + d0, tail);
}

proof fn lemma_findings_styles(fs: Seq<FindingView>, n: int)
    requires
        n <= fs.len(),
        forall|i: int| 0 <= i < fs.len() ==> finding_plain(#[trigger] fs[i]),
    ensures
        styles_to(
            crate::render_text::findings_text(true, fs, n),
            crate::render_text::findings_text(false, fs, n),
        ),
    decreases n,
{
    if n <= 0 {
        lemma_styles_empty();
    } else {
        lemma_findings_styles(fs, n - 1);
        lemma_finding_styles(fs[n - 1], n >= fs.len());
        lemma_styles_add(
            crate::render_text::findings_text(true, fs, n - 1),
            crate::render_text::findings_text(false, fs, n - 1),
            crate::render_text::finding_text(true, fs[n - 1], n >= fs.len()),
            crate::render_text::finding_text(false, fs[n - 1], n >= fs.len()),
        );
    }
}

proof fn lemma_edges_styles(es: Seq<ConflictEdgeView>)
    requires
        forall|i: int| 0 <= i < es.len() ==> {
            let e = #[trigger] es[i];
            plain(e.a) && plain(e.b) && plain(e.reason)
        },
    ensures
        styles_to(
            crate::render_text::edges_text(true, es),
            crate::render_text::edges_text(false, es),
        ),
    decreases es.len(),
{
    if es.len() == 0 {
        lemma_styles_empty();
    } else {
        lemma_literals_plain();
        lemma_style_codes();
        let p = es.drop_last();
        assert forall|i: int| 0 <= i < p.len() implies {
            let e = #[trigger] p[i];
            plain(e.a) && plain(e.b) && plain(e.reason)
        } by {
            assert(p[i] == es[i]);
        }
        lemma_edges_styles(p);
        let e = es.last();
        assert(e == es[es.len() - 1]);
        let s1 = crate::render_text::edges_text(true, p);
        let s0 = crate::render_text::edges_text(false, p);
        lemma_plain_add("  "@, e.a);
        lemma_plain_add("  "@ + e.a, " "@);
        let x = "  "@ + e.a + " "@;
        lemma_styles_then_plain(s1, s0, x);
        assert(s1 + x =~= s1 + "  "@ + e.a + " "@);
        assert(s0 + x =~= s0 + "  "@ + e.a + " "@);
        let u1 = s1 + "  "@ + e.a + " "@;
        let u0 = s0 + "  "@ + e.a + " "@;
        lemma_styles_then_paint(u1, u0, "2"@, "<->"@);
        let v1 = u1 + crate::render_text::paint(true, "2"@, "<->"@);
        let v0 = u0 + crate::render_text::paint(false, "2"@, "<->"@);
        lemma_plain_add(" "@, e.b);
        lemma_plain_add(" "@ + e.b, "   "@);
        let y = " "@ + e.b + "   "@;
        lemma_styles_then_plain(v1, v0, y);
        assert(v1 + y =~= v1 + " "@ + e.b + "   "@);
        assert(v0 + y =~= v0 + " "@ + e.b + "   "@);
        let w1 = v1 + " "@ + e.b + "   "@;
        let w0 = v0 + " "@ + e.b + "   "@;
        lemma_styles_then_paint(w1, w0, "2"@, e.reason);
        lemma_styles_then_plain(
            w1 + crate::render_text::paint(true, "2"@, e.reason),
            w0 + crate::render_text::paint(false, "2"@, e.reason),
            "\n"@,
        );
    }
}

proof fn lemma_head_styles(r: ReportView)
    requires
        plain(r.target),
    ensures
        styles_to(crate::render_text::head_text(r, true), crate::render_text::head_text(r, false)),
{
    lemma_literals_plain();
    lemma_style_codes();
    let s = r.summary;
    let d1 = crate::text::decimal(s.files_scanned as nat);
    let d2 = crate::text::decimal(s.functions_scanned as nat);
    let d3 = crate::text::decimal(s.entry_points as nat);
    let d4 = crate::text::decimal(s.accesses_found as nat);
    lemma_decimal_plain(s.files_scanned as nat);
    lemma_decimal_plain(s.functions_scanned as nat);
    lemma_decimal_plain(s.entry_points as nat);
    lemma_decimal_plain(s.accesses_found as nat);
    lemma_plain_add("braid \u{2014} "@, r.target);
    let title = "braid \u{2014} "@ + r.target;
    lemma_plain_add(d1, " file(s), "@);
    lemma_plain_add(d1 + " file(s), "@, d2);
    lemma_plain_add(d1 + " file(s), "@ + d2, " function(s), "@);
    lemma_plain_add(d1 + " file(s), "@ + d2 + " function(s), "@, d3);
    lemma_plain_add(d1 + " file(s), "@ + d2 + " function(s), "@ + d3, " entry point(s), "@);
    lemma_plain_add(d1 + " file(s), "@ + d2 + " function(s), "@ + d3 + " entry point(s), "@, d4);
    lemma_plain_add(
        d1 + " file(s), "@ + d2 + " function(s), "@ + d3 + " entry point(s), "@ + d4,
        " storage access(es)"@,
    );
    let counts = d1 + " file(s), "@ + d2 + " function(s), "@ + d3 + " entry point(s), "@ + d4
        + " storage access(es)"@;
    lemma_styles_plain("\n"@);
    lemma_styles_then_paint("\n"@, "\n"@, "1"@, title);
    let a1 = "\n"@ + crate::render_text::paint(true, "1"@, title);
    let a0 = "\n"@ + crate::render_text::paint(false, "1"@, title);
    lemma_styles_then_plain(a1, a0, "\n"@);
    lemma_styles_then_paint(a1 + "\n"@, a0 + "\n"@, "2"@, counts);
    lemma_styles_then_plain(
        a1 + "\n"@ + crate::render_text::paint(true, "2"@, counts),
        a0 + "\n"@ + crate::render_text::paint(false, "2"@, counts),
        "\n"@,
    );
}

proof fn lemma_pass_styles()
    ensures
        styles_to(crate::render_text::pass_text(true), crate::render_text::pass_text(false)),
{
    lemma_literals_plain();
    lemma_style_codes();
    lemma_styles_plain("\n  "@);
    lemma_styles_then_paint("\n  "@, "\n  "@, "1;32"@, "PASS"@);
    let a1 = "\n  "@ + crate::render_text::paint(true, "1;32"@, "PASS"@);
    let a0 = "\n  "@ + crate::render_text::paint(false, "1;32"@, "PASS"@);
    let msg = " no conflicts found \u{2014} every mutable entry is keyed by caller input\n"@;
    lemma_styles_then_plain(a1, a0, msg);
    lemma_styles_then_plain(a1 + msg, a0 + msg, "\n"@);
}

proof fn lemma_counts_styles(r: ReportView)
    ensures
        styles_to(
            crate::render_text::counts_text(r, true),
            crate::render_text::counts_text(r, false),
        ),
{
    lemma_literals_plain();
    lemma_style_codes();
    let s = r.summary;
    let c = crate::text::decimal(s.critical as nat);
    let w = crate::text::decimal(s.warning as nat);
    let i = crate::text::decimal(s.info as nat);
    lemma_decimal_plain(s.critical as nat);
    lemma_decimal_plain(s.warning as nat);
    lemma_decimal_plain(s.info as nat);
    lemma_plain_add(c, " critical"@);
    lemma_plain_add(w, " warning"@);
    lemma_plain_add(i, " info"@);
    lemma_styles_plain("\n  "@);
    lemma_styles_then_paint("\n  "@, "\n  "@, "1;31"@, c + " critical"@);
    let a1 = "\n  "@ + crate::render_text::paint(true, "1;31"@, c + " critical"@);
    let a0 = "\n  "@ + crate::render_text::paint(false, "1;31"@, c + " critical"@);
    lemma_styles_then_plain(a1, a0, "  "@);
    lemma_styles_then_paint(a1 + "  "@, a0 + "  "@, "1;33"@, w + " warning"@);
    let b1 = a1 + "  "@ + crate::render_text::paint(true, "1;33"@, w + " warning"@);
    let b0 = a0 + "  "@ + crate::render_text::paint(false, "1;33"@, w + " warning"@);
    lemma_styles_then_plain(b1, b0, "  "@);
    lemma_styles_then_paint(b1 + "  "@, b0 + "  "@, "36"@, i + " info"@);
    let c1 = b1 + "  "@ + crate::render_text::paint(true, "36"@, i + " info"@);
    let c0 = b0 + "  "@ + crate::render_text::paint(false, "36"@, i + " info"@);
    lemma_styles_then_plain(c1, c0, "\n"@);
    lemma_styles_then_plain(c1 + "\n"@, c0 + "\n"@, "\n"@);
}

proof fn lemma_sections_styles(r: ReportView)
    requires
        report_plain(r),
    ensures
        styles_to(
            crate::render_text::edges_section(r, true),
            crate::render_text::edges_section(r, false),
        ),
        styles_to(
            crate::render_text::safe_section(r, true),
            crate::render_text::safe_section(r, false),
        ),
{
    lemma_literals_plain();
    lemma_style_codes();
    if r.conflict_edges.len() > 0 {
        let t = "Entry points that cannot run in parallel"@;
        lemma_styles_plain("\n"@);
        lemma_styles_then_paint("\n"@, "\n"@, "1"@, t);
        let a1 = "\n"@ + crate::render_text::paint(true, "1"@, t);
        let a0 = "\n"@ + crate::render_text::paint(false, "1"@, t);
        lemma_styles_then_plain(a1, a0, "\n"@);
        lemma_edges_styles(r.conflict_edges);
        lemma_styles_add(
            a1 + "\n"@,
            a0 + "\n"@,
            crate::render_text::edges_text(true, r.conflict_edges),
            crate::render_text::edges_text(false, r.conflict_edges),
        );
    } else {
        lemma_styles_empty();
    }
    if r.parallel_safe_entry_points.len() > 0 {
        let t = "Parallel-safe entry points:"@;
        lemma_join_plain(r.parallel_safe_entry_points, ", "@);
        let j = crate::text::seq_join(r.parallel_safe_entry_points, ", "@);
        lemma_styles_plain("\n"@);
        lemma_styles_then_paint("\n"@, "\n"@, "1;32"@, t);
        let a1 = "\n"@ + crate::render_text::paint(true, "1;32"@, t);
        let a0 = "\n"@ + crate::render_text::paint(false, "1;32"@, t);
        lemma_plain_add(" "@, j);
        lemma_plain_add(" "@ + j, "\n"@);
        lemma_styles_then_plain(a1, a0, " "@ + j + "\n"@);
        assert(a1 + (" "@ + j + "\n"@) =~= a1 + " "@ + j + "\n"@);
        assert(a0 + (" "@ + j + "\n"@) =~= a0 + " "@ + j + "\n"@);
    } else {
        lemma_styles_empty();
    }
}

/// Colour adds style sequences and nothing else: for a report whose own
/// text holds no escape character, the coloured terminal report with its
/// style sequences removed is the report without colour.
pub proof fn law_colour_only_adds_style_sequences(r: ReportView)
    requires
        report_plain(r),
    ensures
        unstyled(crate::render_text::text_report(r, true)) == crate::render_text::text_report(
            r,
            false,
        ),
{
    lemma_literals_plain();
    lemma_head_styles(r);
    let h1 = crate::render_text::head_text(r, true);
    let h0 = crate::render_text::head_text(r, false);
    if r.findings.len() == 0 {
        lemma_pass_styles();
        lemma_styles_add(h1, h0, crate::render_text::pass_text(true), crate::render_text::pass_text(false));
    } else {
        lemma_counts_styles(r);
        lemma_findings_styles(r.findings, r.findings.len() as int);
        lemma_sections_styles(r);
        let c1 = crate::render_text::counts_text(r, true);
        let c0 = crate::render_text::counts_text(r, false);
        let f1 = crate::render_text::findings_text(true, r.findings, r.findings.len() as int);
        let f0 = crate::render_text::findings_text(false, r.findings, r.findings.len() as int);
        let e1 = crate::render_text::edges_section(r, true);
        let e0 = crate::render_text::edges_section(r, false);
        let s1 = crate::render_text::safe_section(r, true);
        let s0 = crate::render_text::safe_section(r, false);
        lemma_styles_add(h1, h0, c1, c0);
        lemma_styles_add(h1 + c1, h0 + c0, f1, f0);
        lemma_styles_add(h1 + c1 + f1, h0 + c0 + f0, e1, e0);
        lemma_styles_add(h1 + c1 + f1 + e1, h0 + c0 + f0 + e0, s1, s0);
        lemma_styles_then_plain(h1 + c1 + f1 + e1 + s1, h0 + c0 + f0 + e0 + s0, "\n"@);
    }
    let t1 = crate::render_text::text_report(r, true);
    let t0 = crate::render_text::text_report(r, false);
    assert(styles_to(t1, t0));
    assert(unstyled(t1 + Seq::<char>::empty()) == t0 + unstyled(Seq::<char>::empty()));
    assert(t1 + Seq::<char>::empty() =~= t1);
    assert(t0 + Seq::<char>::empty() =~= t0);
}


// ----- the colourless report --------------------------------------------------

proof fn lemma_indented_plain(ls: Seq<Seq<char>>)
    requires
        forall|k: int| 0 <= k < ls.len() ==> plain(#[trigger] ls[k]),
    ensures
        plain(crate::render_text::indented_dim(false, ls)),
    decreases ls.len(),
{
    if ls.len() > 0 {
        lemma_literals_plain();
        let p = ls.drop_last();
        assert forall|k: int| 0 <= k < p.len() implies plain(#[trigger] p[k]) by {
            assert(p[k] == ls[k]);
        }
        lemma_indented_plain(p);
        assert(plain(ls[ls.len() - 1]));
        let i0 = crate::render_text::indented_dim(false, p);
        lemma_plain_add(i0, "         "@);
        lemma_plain_add(i0 + "         "@, ls.last());
        lemma_plain_add(i0 + "         "@ + ls.last(), "\n"@);
    } else {
        assert(plain(Seq::<char>::empty()));
    }
}

proof fn lemma_edges_plain(es: Seq<ConflictEdgeView>)
    requires
        forall|i: int| 0 <= i < es.len() ==> {
            let e = #[trigger] es[i];
            plain(e.a) && plain(e.b) && plain(e.reason)
        },
    ensures
        plain(crate::render_text::edges_text(false, es)),
    decreases es.len(),
{
    if es.len() > 0 {
        lemma_literals_plain();
        let p = es.drop_last();
        assert forall|i: int| 0 <= i < p.len() implies {
            let e = #[trigger] p[i];
            plain(e.a) && plain(e.b) && plain(e.reason)
        } by {
            assert(p[i] == es[i]);
        }
        lemma_edges_plain(p);
        let e = es.last();
        assert(e == es[es.len() - 1]);
        let s0 = crate::render_text::edges_text(false, p);
        lemma_plain_add(s0, "  "@);
        lemma_plain_add(s0 + "  "@, e.a);
        lemma_plain_add(s0 + "  "@ + e.a, " "@);
        lemma_plain_add(s0 + "  "@ + e.a + " "@, "<->"@);
        lemma_plain_add(s0 + "  "@ + e.a + " "@ + "<->"@, " "@);
        lemma_plain_add(s0 + "  "@ + e.a + " "@ + "<->"@ + " "@, e.b);
        lemma_plain_add(s0 + "  "@ + e.a + " "@ + "<->"@ + " "@ + e.b, "   "@);
        lemma_plain_add(s0 + "  "@ + e.a + " "@ + "<->"@ + " "@ + e.b + "   "@, e.reason);
        lemma_plain_add(s0 + "  "@ + e.a + " "@ + "<->"@ + " "@ + e.b + "   "@ + e.reason, "\n"@);
    } else {
        assert(plain(Seq::<char>::empty()));
    }
}

proof fn lemma_finding_text_plain(f: FindingView, last: bool)
    requires
        finding_plain(f),
    ensures
        plain(crate::render_text::finding_text(false, f, last)),
{
    lemma_literals_plain();
    reveal(crate::render_text::finding_line1);
    reveal(crate::render_text::finding_line2);
    reveal(crate::render_text::finding_line3);
    reveal(crate::render_text::finding_also);
    reveal(crate::render_text::finding_fix);
    let a = f.access;
    lemma_decimal_plain(a.line as nat);
    lemma_decimal_plain(a.column as nat);
    let word = crate::render_text::severity_tag(false, f.severity);
    assert(plain(word));
    let l1 = crate::render_text::finding_line1(false, f);
    assert(plain(l1)) by {
        let d1 = crate::text::decimal(a.line as nat);
        let d2 = crate::text::decimal(a.column as nat);
        lemma_plain_add(a.file, ":"@);
        lemma_plain_add(a.file + ":"@, d1);
        lemma_plain_add(a.file + ":"@ + d1, ":"@);
        lemma_plain_add(a.file + ":"@ + d1 + ":"@, d2);
        let loc = a.file + ":"@ + d1 + ":"@ + d2;
        lemma_plain_add("in "@, a.function);
        lemma_plain_add("in "@ + a.function, "()"@);
        let func = "in "@ + a.function + "()"@;
        lemma_plain_add(word, " "@);
        lemma_plain_add(word + " "@, loc);
        lemma_plain_add(word + " "@ + loc, "  "@);
        lemma_plain_add(word + " "@ + loc + "  "@, func);
        lemma_plain_add(word + " "@ + loc + "  "@ + func, "\n"@);
    }
    let l2 = crate::render_text::finding_line2(f);
    lemma_plain_add("         "@, f.summary);
    lemma_plain_add("         "@ + f.summary, "\n"@);
    let l3 = crate::render_text::finding_line3(false, f);
    assert(plain(l3)) by {
        let note = crate::render_text::class_note(a.class);
        assert(plain(note)) by {
            match a.class {
                KeyClassView::SequenceDerived { counter } => {
                    lemma_plain_add(a.class.label(), " (counter: "@);
                    lemma_plain_add(a.class.label() + " (counter: "@, counter);
                    lemma_plain_add(a.class.label() + " (counter: "@ + counter, ")"@);
                },
                _ => {},
            }
        }
        lemma_plain_add(a.durability.name(), " "@);
        lemma_plain_add(a.durability.name() + " "@, a.access.name());
        lemma_plain_add(a.durability.name() + " "@ + a.access.name(), " \u{b7} key class: "@);
        let x0 = a.durability.name() + " "@ + a.access.name() + " \u{b7} key class: "@;
        lemma_plain_add(x0, note);
        lemma_plain_add("         "@, x0 + note);
        lemma_plain_add("         "@ + (x0 + note), "\n"@);
    }
    let l4 = crate::render_text::finding_also(false, f);
    assert(plain(l4)) by {
        if f.also_touched_by.len() > 0 {
            lemma_join_plain(f.also_touched_by, ", "@);
            let j = crate::text::seq_join(f.also_touched_by, ", "@);
            lemma_plain_add("same ledger entry is also touched by: "@, j);
            let x = "same ledger entry is also touched by: "@ + j;
            lemma_plain_add("         "@, x);
            lemma_plain_add("         "@ + x, "\n"@);
        } else {
            assert(plain(Seq::<char>::empty()));
        }
    }
    let l5 = crate::render_text::finding_fix(false, f);
    assert(plain(l5)) by {
        if f.severity.level() > Severity::Info.level() {
            lemma_lines_plain(f.remediation);
            lemma_indented_plain(crate::render_text::lines_of(f.remediation));
            lemma_plain_add(
                "\n"@,
                crate::render_text::indented_dim(false, crate::render_text::lines_of(f.remediation)),
            );
        } else {
            assert(plain(Seq::<char>::empty()));
        }
    }
    let tail: Seq<char> = if last {
        Seq::empty()
    } else {
        "\n"@
    };
    assert(plain(tail)) by {
        if last {
            assert(!Seq::<char>::empty().contains('\x1b'));
        }
    }
    lemma_plain_add(l1, l2);
    lemma_plain_add(l1 + l2, l3);
    lemma_plain_add(l1 + l2 + l3, l4);
    lemma_plain_add(l1 + l2 + l3 + l4, l5);
    lemma_plain_add(l1 + l2 + l3 + l4 + l5, tail);
}

proof fn lemma_findings_text_plain(fs: Seq<FindingView>, n: int)
    requires
        n <= fs.len(),
        forall|i: int| 0 <= i < fs.len() ==> finding_plain(#[trigger] fs[i]),
    ensures
        plain(crate::render_text::findings_text(false, fs, n)),
    decreases n,
{
    if n <= 0 {
        assert(plain(Seq::<char>::empty()));
    } else {
        lemma_findings_text_plain(fs, n - 1);
        lemma_finding_text_plain(fs[n - 1], n >= fs.len());
        lemma_plain_add(
            crate::render_text::findings_text(false, fs, n - 1),
            crate::render_text::finding_text(false, fs[n - 1], n >= fs.len()),
        );
    }
}

/// Without colour the report holds no escape character, where the report's
/// own text holds none: colour is the only source of escapes.
pub proof fn law_colourless_report_holds_no_escape(r: ReportView)
    requires
        report_plain(r),
    ensures
        plain(crate::render_text::text_report(r, false)),
{
    lemma_literals_plain();
    let s = r.summary;
    let h = crate::render_text::head_text(r, false);
    assert(plain(h)) by {
        let d1 = crate::text::decimal(s.files_scanned as nat);
        let d2 = crate::text::decimal(s.functions_scanned as nat);
        let d3 = crate::text::decimal(s.entry_points as nat);
        let d4 = crate::text::decimal(s.accesses_found as nat);
        lemma_decimal_plain(s.files_scanned as nat);
        lemma_decimal_plain(s.functions_scanned as nat);
        lemma_decimal_plain(s.entry_points as nat);
        lemma_decimal_plain(s.accesses_found as nat);
        lemma_plain_add("braid \u{2014} "@, r.target);
        let title = "braid \u{2014} "@ + r.target;
        lemma_plain_add(d1, " file(s), "@);
        lemma_plain_add(d1 + " file(s), "@, d2);
        lemma_plain_add(d1 + " file(s), "@ + d2, " function(s), "@);
        lemma_plain_add(d1 + " file(s), "@ + d2 + " function(s), "@, d3);
        lemma_plain_add(d1 + " file(s), "@ + d2 + " function(s), "@ + d3, " entry point(s), "@);
        lemma_plain_add(d1 + " file(s), "@ + d2 + " function(s), "@ + d3 + " entry point(s), "@, d4);
        let c0 = d1 + " file(s), "@ + d2 + " function(s), "@ + d3 + " entry point(s), "@ + d4;
        lemma_plain_add(c0, " storage access(es)"@);
        let counts = c0 + " storage access(es)"@;
        lemma_plain_add("\n"@, title);
        lemma_plain_add("\n"@ + title, "\n"@);
        lemma_plain_add("\n"@ + title + "\n"@, counts);
        lemma_plain_add("\n"@ + title + "\n"@ + counts, "\n"@);
    }
    let t = crate::render_text::text_report(r, false);
    if r.findings.len() == 0 {
        let msg = " no conflicts found \u{2014} every mutable entry is keyed by caller input\n"@;
        lemma_plain_add("\n  "@, "PASS"@);
        lemma_plain_add("\n  "@ + "PASS"@, msg);
        lemma_plain_add("\n  "@ + "PASS"@ + msg, "\n"@);
        lemma_plain_add(h, crate::render_text::pass_text(false));
    } else {
        let c = crate::render_text::counts_text(r, false);
        assert(plain(c)) by {
            let dc = crate::text::decimal(s.critical as nat);
            let dw = crate::text::decimal(s.warning as nat);
            let di = crate::text::decimal(s.info as nat);
            lemma_decimal_plain(s.critical as nat);
            lemma_decimal_plain(s.warning as nat);
            lemma_decimal_plain(s.info as nat);
            lemma_plain_add(dc, " critical"@);
            lemma_plain_add(dw, " warning"@);
            lemma_plain_add(di, " info"@);
            lemma_plain_add("\n  "@, dc + " critical"@);
            lemma_plain_add("\n  "@ + (dc + " critical"@), "  "@);
            lemma_plain_add("\n  "@ + (dc + " critical"@) + "  "@, dw + " warning"@);
            let x = "\n  "@ + (dc + " critical"@) + "  "@ + (dw + " warning"@);
            lemma_plain_add(x, "  "@);
            lemma_plain_add(x + "  "@, di + " info"@);
            lemma_plain_add(x + "  "@ + (di + " info"@), "\n"@);
            lemma_plain_add(x + "  "@ + (di + " info"@) + "\n"@, "\n"@);
        }
        lemma_findings_text_plain(r.findings, r.findings.len() as int);
        let f = crate::render_text::findings_text(false, r.findings, r.findings.len() as int);
        let e = crate::render_text::edges_section(r, false);
        assert(plain(e)) by {
            if r.conflict_edges.len() > 0 {
                lemma_edges_plain(r.conflict_edges);
                let t0 = "Entry points that cannot run in parallel"@;
                lemma_plain_add("\n"@, t0);
                lemma_plain_add("\n"@ + t0, "\n"@);
                lemma_plain_add(
                    "\n"@ + t0 + "\n"@,
                    crate::render_text::edges_text(false, r.conflict_edges),
                );
            } else {
                assert(plain(Seq::<char>::empty()));
            }
        }
        let p = crate::render_text::safe_section(r, false);
        assert(plain(p)) by {
            if r.parallel_safe_entry_points.len() > 0 {
                lemma_join_plain(r.parallel_safe_entry_points, ", "@);
                let j = crate::text::seq_join(r.parallel_safe_entry_points, ", "@);
                let t0 = "Parallel-safe entry points:"@;
                lemma_plain_add("\n"@, t0);
                lemma_plain_add("\n"@ + t0, " "@);
                lemma_plain_add("\n"@ + t0 + " "@, j);
                lemma_plain_add("\n"@ + t0 + " "@ + j, "\n"@);
            } else {
                assert(plain(Seq::<char>::empty()));
            }
        }
        lemma_plain_add(h, c);
        lemma_plain_add(h + c, f);
        lemma_plain_add(h + c + f, e);
        lemma_plain_add(h + c + f + e, p);
        lemma_plain_add(h + c + f + e + p, "\n"@);
    }
}


proof fn lemma_findings_prefix(on: bool, fs: Seq<FindingView>, m: int, n: int)
    requires
        0 <= m <= n,
    ensures
        crate::render_text::findings_text(on, fs, m).len() <= crate::render_text::findings_text(
            on,
            fs,
            n,
        ).len(),
        crate::render_text::findings_text(on, fs, n).take(
            crate::render_text::findings_text(on, fs, m).len() as int,
        ) == crate::render_text::findings_text(on, fs, m),
    decreases n,
{
    let a = crate::render_text::findings_text(on, fs, m);
    let b = crate::render_text::findings_text(on, fs, n);
    if m < n {
        lemma_findings_prefix(on, fs, m, n - 1);
        let c = crate::render_text::findings_text(on, fs, n - 1);
        assert(b == c + crate::render_text::finding_text(on, fs[n - 1], n >= fs.len()));
        assert(b.take(a.len() as int) =~= c.take(a.len() as int));
    } else {
        assert(b.take(b.len() as int) =~= b);
    }
}

proof fn lemma_indented_prefix(ls: Seq<Seq<char>>, k: int)
    requires
        0 <= k <= ls.len(),
    ensures
        crate::render_text::indented_dim(false, ls.take(k)).len()
            <= crate::render_text::indented_dim(false, ls).len(),
        crate::render_text::indented_dim(false, ls).take(
            crate::render_text::indented_dim(false, ls.take(k)).len() as int,
        ) == crate::render_text::indented_dim(false, ls.take(k)),
    decreases ls.len(),
{
    let a = crate::render_text::indented_dim(false, ls.take(k));
    let b = crate::render_text::indented_dim(false, ls);
    if k < ls.len() {
        lemma_indented_prefix(ls.drop_last(), k);
        assert(ls.drop_last().take(k) =~= ls.take(k));
        let c = crate::render_text::indented_dim(false, ls.drop_last());
        assert(b == c + "         "@ + ls.last() + "\n"@);
        assert(b.take(a.len() as int) =~= c.take(a.len() as int));
    } else {
        assert(ls.take(k) =~= ls);
        assert(b.take(b.len() as int) =~= b);
    }
}

proof fn lemma_edges_prefix(es: Seq<ConflictEdgeView>, k: int)
    requires
        0 <= k <= es.len(),
    ensures
        crate::render_text::edges_text(false, es.take(k)).len() <= crate::render_text::edges_text(
            false,
            es,
        ).len(),
        crate::render_text::edges_text(false, es).take(
            crate::render_text::edges_text(false, es.take(k)).len() as int,
        ) == crate::render_text::edges_text(false, es.take(k)),
    decreases es.len(),
{
    let a = crate::render_text::edges_text(false, es.take(k));
    let b = crate::render_text::edges_text(false, es);
    if k < es.len() {
        lemma_edges_prefix(es.drop_last(), k);
        assert(es.drop_last().take(k) =~= es.take(k));
        let c = crate::render_text::edges_text(false, es.drop_last());
        let e = es.last();
        assert(b == c + "  "@ + e.a + " "@ + "<->"@ + " "@ + e.b + "   "@ + e.reason + "\n"@);
        assert(b.take(a.len() as int) =~= c.take(a.len() as int));
    } else {
        assert(es.take(k) =~= es);
        assert(b.take(b.len() as int) =~= b);
    }
}

/// `x` stands in `t` at `p`.
pub open spec fn stands_at(t: Seq<char>, p: int, x: Seq<char>) -> bool {
    0 <= p && p + x.len() <= t.len() && t.subrange(p, p + x.len()) == x
}

/// `x` is the start of a line of `t`, standing at `p`.
pub open spec fn line_at(t: Seq<char>, p: int, x: Seq<char>) -> bool {
    stands_at(t, p, x) && (p == 0 || t[p - 1] == '\n')
}

/// Where `a + x + b` holds `x`.
proof fn lemma_stands_in(a: Seq<char>, x: Seq<char>, y: Seq<char>, b: Seq<char>)
    ensures
        stands_at(a + (x + y) + b, a.len() as int, x),
{
    let t = a + (x + y) + b;
    assert(t.subrange(a.len() as int, (a.len() + x.len()) as int) =~= x);
}

/// The first two lines of a finding in the report without colour: the
/// severity padded to eight characters, the location and the function; then
/// the summary, indented.
pub open spec fn plain_finding_head(f: FindingView) -> Seq<char> {
    (match f.severity {
        Severity::Critical => "critical"@,
        Severity::Warning => "warning "@,
        Severity::Info => "info    "@,
    }) + " "@ + f.access.file + ":"@ + crate::text::decimal(f.access.line as nat) + ":"@
        + crate::text::decimal(f.access.column as nat) + "  "@ + "in "@ + f.access.function
        + "()"@ + "\n"@ + "         "@ + f.summary + "\n"@
}

/// Where the text of finding `i` begins in the report without colour.
pub open spec fn finding_start(r: ReportView, i: int) -> int {
    (crate::render_text::head_text(r, false) + crate::render_text::counts_text(r, false)
        + crate::render_text::findings_text(false, r.findings, i)).len() as int
}

proof fn lemma_regroup_findings(
    t: Seq<char>,
    hd: Seq<char>,
    all: Seq<char>,
    tail: Seq<char>,
    fi: Seq<char>,
    ft: Seq<char>,
    more: Seq<char>,
)
    requires
        t == hd + all + tail,
        all == (fi + ft) + more,
    ensures
        t == (hd + fi) + (ft + (more + tail)),
{
    assert(t =~= (hd + fi) + (ft + (more + tail)));
}

proof fn lemma_regroup_head(t: Seq<char>, p: Seq<char>, ft: Seq<char>, rest: Seq<char>, h: Seq<char>, more: Seq<char>)
    requires
        t == p + (ft + rest),
        ft == h + more,
    ensures
        t == p + (h + more) + rest,
{
    assert(t =~= p + (h + more) + rest);
}

/// The report without colour, split where a finding's text begins.
#[verifier::spinoff_prover]
proof fn lemma_around_finding(r: ReportView, i: int)
    requires
        0 <= i < r.findings.len(),
    ensures
        ({
            let hd = crate::render_text::head_text(r, false) + crate::render_text::counts_text(
                r,
                false,
            );
            let fi = crate::render_text::findings_text(false, r.findings, i);
            let ft = crate::render_text::finding_text(
                false,
                r.findings[i],
                i + 1 >= r.findings.len(),
            );
            exists|rest: Seq<char>|
                #[trigger] crate::render_text::text_report(r, false) == (hd + fi) + (ft + rest)
        }),
{
    let fs = r.findings;
    let n = fs.len() as int;
    let hd = crate::render_text::head_text(r, false) + crate::render_text::counts_text(r, false);
    let fi = crate::render_text::findings_text(false, fs, i);
    let ft = crate::render_text::finding_text(false, fs[i], i + 1 >= n);
    let all = crate::render_text::findings_text(false, fs, n);
    lemma_findings_prefix(false, fs, i + 1, n);
    assert(crate::render_text::findings_text(false, fs, i + 1) == fi + ft);
    let tail = crate::render_text::edges_section(r, false) + crate::render_text::safe_section(
        r,
        false,
    ) + "\n"@;
    let more = all.skip((fi + ft).len() as int);
    assert(all =~= (fi + ft) + more);
    let t = crate::render_text::text_report(r, false);
    assert(t == hd + all + tail);
    lemma_regroup_findings(t, hd, all, tail, fi, ft, more);
    assert(t == (hd + fi) + (ft + (more + tail)));
}

/// Without colour, the report lists every finding in order: each opens a
/// line with its severity padded to eight characters, its location and its
/// function, and its summary, indented, is the next line; the next finding
/// begins after them.
#[verifier::spinoff_prover]
pub proof fn law_plain_report_lists_each_finding(r: ReportView, i: int)
    requires
        0 <= i < r.findings.len(),
    ensures
        line_at(
            crate::render_text::text_report(r, false),
            finding_start(r, i),
            plain_finding_head(r.findings[i]),
        ),
        i + 1 < r.findings.len() ==> finding_start(r, i) + plain_finding_head(r.findings[i]).len()
            <= finding_start(r, i + 1),
{
    reveal_strlit("\n");
    let fs = r.findings;
    let n = fs.len() as int;
    let f = fs[i];
    let hd = crate::render_text::head_text(r, false) + crate::render_text::counts_text(r, false);
    let fi = crate::render_text::findings_text(false, fs, i);
    let ft = crate::render_text::finding_text(false, f, i + 1 >= n);
    let t = crate::render_text::text_report(r, false);
    lemma_around_finding(r, i);
    let rest = choose|rest: Seq<char>| t == (hd + fi) + (ft + rest);
    law_plain_finding_lines(f);
    let h = plain_finding_head(f);
    let more = crate::render_text::finding_line3(false, f) + crate::render_text::finding_also(false, f)
        + crate::render_text::finding_fix(false, f) + (if i + 1 >= n {
        Seq::<char>::empty()
    } else {
        "\n"@
    });
    assert(ft =~= h + more);
    lemma_regroup_head(t, hd + fi, ft, rest, h, more);
    lemma_stands_in(hd + fi, h, more, rest);
    let p = (hd + fi).len() as int;
    assert(p == finding_start(r, i));
    assert(t[p - 1] == '\n') by {
        let c = crate::render_text::counts_text(r, false);
        if i == 0 {
            assert(fi =~= Seq::<char>::empty());
            assert(c[c.len() - 1] == '\n');
            assert(t[p - 1] == (hd + fi)[p - 1]);
        } else {
            let prev = crate::render_text::finding_text(false, fs[i - 1], i >= n);
            assert(fi == crate::render_text::findings_text(false, fs, i - 1) + prev);
            assert(prev[prev.len() - 1] == '\n');
            assert(t[p - 1] == (hd + fi)[p - 1]);
        }
    }
    if i + 1 < n {
        assert(crate::render_text::findings_text(false, fs, i + 1) == fi + ft);
        assert(finding_start(r, i + 1) == p + ft.len());
    }
}


proof fn lemma_regroup(
    t: Seq<char>,
    p: Seq<char>,
    ft: Seq<char>,
    rest: Seq<char>,
    lines: Seq<char>,
    id: Seq<char>,
    tail: Seq<char>,
    idk: Seq<char>,
    x: Seq<char>,
    after: Seq<char>,
)
    requires
        t == p + (ft + rest),
        ft == lines + ("\n"@ + id) + tail,
        id == idk + x + after,
    ensures
        t == (p + lines + "\n"@ + idk) + (x + (after + tail)) + rest,
{
    assert(t =~= (p + lines + "\n"@ + idk) + (x + (after + tail)) + rest);
}

proof fn lemma_regroup_edges(
    t: Seq<char>,
    before: Seq<char>,
    h: Seq<char>,
    all: Seq<char>,
    after: Seq<char>,
    ej: Seq<char>,
    x: Seq<char>,
    more: Seq<char>,
)
    requires
        t == before + (h + all) + after,
        all == ej + x + more,
    ensures
        t == (before + h + ej) + (x + more) + after,
{
    assert(t =~= (before + h + ej) + (x + more) + after);
}

proof fn lemma_last_of(u: Seq<char>, v: Seq<char>)
    requires
        v.len() > 0,
    ensures
        (u + v)[(u + v).len() - 1] == v[v.len() - 1],
{
}

proof fn lemma_char_before(a: Seq<char>, y: Seq<char>, b: Seq<char>)
    requires
        a.len() > 0,
    ensures
        (a + y + b)[a.len() - 1] == a[a.len() - 1],
{
}

/// Where line `k` of the remediation of finding `i` begins in the report
/// without colour.
pub open spec fn remediation_line_start(r: ReportView, i: int, k: int) -> int {
    let f = r.findings[i];
    finding_start(r, i) + (crate::render_text::finding_line1(false, f)
        + crate::render_text::finding_line2(f) + crate::render_text::finding_line3(false, f)
        + crate::render_text::finding_also(false, f)).len() + 1 + crate::render_text::indented_dim(
        false,
        crate::render_text::lines_of(f.remediation).take(k),
    ).len()
}

/// Without colour, every line of the remediation of a finding above info is
/// a line of the report, indented by nine spaces, in order.
#[verifier::spinoff_prover]
pub proof fn law_plain_report_shows_each_remediation_line(r: ReportView, i: int, k: int)
    requires
        0 <= i < r.findings.len(),
        r.findings[i].severity.level() > Severity::Info.level(),
        0 <= k < crate::render_text::lines_of(r.findings[i].remediation).len(),
    ensures
        line_at(
            crate::render_text::text_report(r, false),
            remediation_line_start(r, i, k),
            "         "@ + crate::render_text::lines_of(r.findings[i].remediation)[k] + "\n"@,
        ),
{
    reveal_strlit("\n");
    let fs = r.findings;
    let n = fs.len() as int;
    let f = fs[i];
    let ls = crate::render_text::lines_of(f.remediation);
    let hd = crate::render_text::head_text(r, false) + crate::render_text::counts_text(r, false);
    let fi = crate::render_text::findings_text(false, fs, i);
    let ft = crate::render_text::finding_text(false, f, i + 1 >= n);
    let t = crate::render_text::text_report(r, false);
    lemma_around_finding(r, i);
    let rest = choose|rest: Seq<char>| t == (hd + fi) + (ft + rest);
    let lines = crate::render_text::finding_line1(false, f) + crate::render_text::finding_line2(f)
        + crate::render_text::finding_line3(false, f) + crate::render_text::finding_also(false, f);
    let id = crate::render_text::indented_dim(false, ls);
    assert(crate::render_text::finding_fix(false, f) == "\n"@ + id) by {
        reveal(crate::render_text::finding_fix);
    }
    let tail: Seq<char> = if i + 1 >= n {
        Seq::empty()
    } else {
        "\n"@
    };
    assert(ft == lines + ("\n"@ + id) + tail);
    lemma_indented_prefix(ls, k + 1);
    let idk = crate::render_text::indented_dim(false, ls.take(k));
    let x = "         "@ + ls[k] + "\n"@;
    assert(ls.take(k + 1).drop_last() =~= ls.take(k));
    assert(crate::render_text::indented_dim(false, ls.take(k + 1)) == idk + x);
    let after = id.skip((idk + x).len() as int);
    assert(id =~= idk + x + after);
    lemma_regroup(t, hd + fi, ft, rest, lines, id, tail, idk, x, after);
    let a = hd + fi + lines + "\n"@ + idk;
    lemma_stands_in(a, x, after + tail, rest);
    let q = a.len() as int;
    assert(q == remediation_line_start(r, i, k));
    lemma_char_before(a, x + (after + tail), rest);
    if k == 0 {
        assert(idk =~= Seq::<char>::empty());
        assert(a =~= (hd + fi + lines) + "\n"@);
        lemma_last_of(hd + fi + lines, "\n"@);
    } else {
        let prev = ls.take(k);
        assert(prev.drop_last() =~= ls.take(k - 1));
        let d = crate::render_text::indented_dim(false, prev.drop_last()) + "         "@ + prev.last();
        assert(idk == d + "\n"@);
        lemma_last_of(d, "\n"@);
        assert(a =~= (hd + fi + lines + "\n"@ + d) + "\n"@);
        lemma_last_of(hd + fi + lines + "\n"@ + d, "\n"@);
    }
}

/// Where the section of edges begins in the report without colour.
pub open spec fn edges_start(r: ReportView) -> int {
    finding_start(r, r.findings.len() as int)
}

/// Where the line of edge `j` begins in the report without colour.
pub open spec fn edge_line_start(r: ReportView, j: int) -> int {
    edges_start(r) + "\nEntry points that cannot run in parallel\n"@.len()
        + crate::render_text::edges_text(false, r.conflict_edges.take(j)).len()
}

/// The line of an edge in the report without colour.
pub open spec fn plain_edge_line(e: ConflictEdgeView) -> Seq<char> {
    "  "@ + e.a + " <-> "@ + e.b + "   "@ + e.reason + "\n"@
}

/// Without colour, a report with findings has the section of entry points
/// that cannot run in parallel exactly when it has edges: after the
/// findings, a line that names it, then one line per edge, in order, with
/// the two entry points and the reason. Without edges the parallel-safe
/// section follows the findings directly.
pub proof fn law_plain_report_edge_section(r: ReportView)
    requires
        r.findings.len() > 0,
    ensures
        r.conflict_edges.len() > 0 ==> line_at(
            crate::render_text::text_report(r, false),
            edges_start(r) + 1,
            "Entry points that cannot run in parallel\n"@,
        ),
        r.conflict_edges.len() == 0 ==> crate::render_text::text_report(r, false)
            == crate::render_text::head_text(r, false) + crate::render_text::counts_text(r, false)
            + crate::render_text::findings_text(false, r.findings, r.findings.len() as int)
            + crate::render_text::safe_section(r, false) + "\n"@,
{
    reveal_strlit("\n");
    reveal_strlit("Entry points that cannot run in parallel");
    reveal_strlit("Entry points that cannot run in parallel\n");
    let t = crate::render_text::text_report(r, false);
    let before = crate::render_text::head_text(r, false) + crate::render_text::counts_text(r, false)
        + crate::render_text::findings_text(false, r.findings, r.findings.len() as int);
    let after = crate::render_text::safe_section(r, false) + "\n"@;
    if r.conflict_edges.len() > 0 {
        let h = "Entry points that cannot run in parallel"@ + "\n"@;
        assert(h =~= "Entry points that cannot run in parallel\n"@);
        let es = crate::render_text::edges_text(false, r.conflict_edges);
        assert(t =~= (before + "\n"@) + (h + es) + after);
        lemma_stands_in(before + "\n"@, h, es, after);
        assert(t[before.len() as int] == '\n');
    } else {
        assert(t =~= before + after);
    }
}

/// The report without colour, split around its section of edges.
proof fn lemma_around_edges(r: ReportView)
    requires
        r.findings.len() > 0,
        r.conflict_edges.len() > 0,
    ensures
        crate::render_text::text_report(r, false) == (crate::render_text::head_text(r, false)
            + crate::render_text::counts_text(r, false) + crate::render_text::findings_text(
            false,
            r.findings,
            r.findings.len() as int,
        )) + ("\nEntry points that cannot run in parallel\n"@ + crate::render_text::edges_text(
            false,
            r.conflict_edges,
        )) + (crate::render_text::safe_section(r, false) + "\n"@),
{
    reveal_strlit("\n");
    reveal_strlit("Entry points that cannot run in parallel");
    reveal_strlit("\nEntry points that cannot run in parallel\n");
    let h = "\n"@ + "Entry points that cannot run in parallel"@ + "\n"@;
    assert(h =~= "\nEntry points that cannot run in parallel\n"@);
    let t = crate::render_text::text_report(r, false);
    let before = crate::render_text::head_text(r, false) + crate::render_text::counts_text(r, false)
        + crate::render_text::findings_text(false, r.findings, r.findings.len() as int);
    let all = crate::render_text::edges_text(false, r.conflict_edges);
    let after = crate::render_text::safe_section(r, false) + "\n"@;
    assert(crate::render_text::edges_section(r, false) == h + all);
    assert(t =~= before + (h + all) + after);
}

/// The text of the edges before edge `j`, which ends a line when there is
/// one.
proof fn lemma_edges_end_lines(es: Seq<ConflictEdgeView>, j: int)
    requires
        0 < j <= es.len(),
    ensures
        ({
            let ej = crate::render_text::edges_text(false, es.take(j));
            ej.len() > 0 && ej[ej.len() - 1] == '\n'
        }),
{
    reveal_strlit("\n");
    let prev = es.take(j);
    assert(prev.drop_last() =~= es.take(j - 1));
    let pe = prev.last();
    let d = crate::render_text::edges_text(false, prev.drop_last()) + "  "@ + pe.a + " "@ + "<->"@
        + " "@ + pe.b + "   "@ + pe.reason;
    assert(crate::render_text::edges_text(false, prev) == d + "\n"@);
    lemma_last_of(d, "\n"@);
}

/// Each edge has its line in the section, in order.
#[verifier::spinoff_prover]
pub proof fn law_plain_report_lists_each_edge(r: ReportView, j: int)
    requires
        r.findings.len() > 0,
        0 <= j < r.conflict_edges.len(),
    ensures
        line_at(
            crate::render_text::text_report(r, false),
            edge_line_start(r, j),
            plain_edge_line(r.conflict_edges[j]),
        ),
{
    let es = r.conflict_edges;
    let t = crate::render_text::text_report(r, false);
    let before = crate::render_text::head_text(r, false) + crate::render_text::counts_text(r, false)
        + crate::render_text::findings_text(false, r.findings, r.findings.len() as int);
    let after = crate::render_text::safe_section(r, false) + "\n"@;
    let h = "\nEntry points that cannot run in parallel\n"@;
    let all = crate::render_text::edges_text(false, es);
    lemma_around_edges(r);
    lemma_edges_prefix(es, j + 1);
    let ej = crate::render_text::edges_text(false, es.take(j));
    let e = es[j];
    let x = plain_edge_line(e);
    assert(es.take(j + 1).drop_last() =~= es.take(j));
    assert(es.take(j + 1).last() == e);
    assert(crate::render_text::edges_text(false, es.take(j + 1)) =~= ej + x) by {
        reveal_strlit(" <-> ");
        reveal_strlit("<->");
        reveal_strlit(" ");
    }
    let more = all.skip((ej + x).len() as int);
    assert(all =~= ej + x + more);
    lemma_regroup_edges(t, before, h, all, after, ej, x, more);
    let a = before + h + ej;
    lemma_stands_in(a, x, more, after);
    let q = a.len() as int;
    assert(q == edge_line_start(r, j));
    lemma_char_before(a, x + more, after);
    if j == 0 {
        assert(ej =~= Seq::<char>::empty());
        assert(a =~= before + h);
        reveal_strlit("\nEntry points that cannot run in parallel\n");
        assert(h[h.len() - 1] == '\n');
        lemma_last_of(before, h);
    } else {
        lemma_edges_end_lines(es, j);
        lemma_last_of(before + h, ej);
    }
}


// ----- which keys are shared ---------------------------------------------------

/// A key that is not derived from the caller's own input (a static, a
/// sequence-derived or an unresolvable one), outside instance storage, names
/// one ledger entry for every caller. Two entry points that can run more
/// than once and reach it with the same root, one of them writing, touch the
/// same entry: they are a conflict edge on that root, each counts the other
/// among the entry's touchers, and neither is parallel-safe.
pub proof fn law_keys_not_from_the_caller_are_shared(cs: Seq<StorageAccessView>, i: int, j: int)
    requires
        0 <= i < cs.len(),
        0 <= j < cs.len(),
        cs[i].entry_point,
        cs[j].entry_point,
        cs[i].access == Access::Write,
        !(cs[i].class is SubjectDerived),
        !(cs[j].class is SubjectDerived),
        cs[i].durability != Durability::Instance,
        cs[j].durability != Durability::Instance,
        cs[i].key_root == cs[j].key_root,
        !runs_once_name(cs[i].function),
        !runs_once_name(cs[j].function),
        cs[i].function != cs[j].function,
    ensures
        ({
            let d = cs[i].key_root;
            let (a, b) = if seq_lt(cs[i].function, cs[j].function) {
                (cs[i].function, cs[j].function)
            } else {
                (cs[j].function, cs[i].function)
            };
            is_edge(cs, ConflictEdgeView { a, b, key_root: d, reason: edge_reason(cs, d) })
        }),
        touchers(cs, cs[i].key_root).contains(cs[j].function),
        touchers(cs, cs[i].key_root).contains(cs[i].function),
        !parallel_safe(cs).contains(cs[i].function),
        !parallel_safe(cs).contains(cs[j].function),
{
    assert(counted(cs[i]));
    assert(counted(cs[j]));
    law_shared_writes_conflict(cs, i, j);
    let d = cs[i].key_root;
    assert(domain_of(cs[i].durability, cs[i].key_root) == d);
    assert(touches(cs[i], d, false) && touches(cs[j], d, false));
    let (a, b) = if seq_lt(cs[i].function, cs[j].function) {
        (cs[i].function, cs[j].function)
    } else {
        (cs[j].function, cs[i].function)
    };
    let e = ConflictEdgeView { a, b, key_root: d, reason: edge_reason(cs, d) };
    assert(is_edge(cs, e));
    assert(conflicted(cs).contains(cs[i].function));
    assert(conflicted(cs).contains(cs[j].function));
}

/// All of instance storage is one ledger entry, whatever the key: two entry
/// points that can run more than once and reach instance storage, one of
/// them writing it, are a conflict edge on the contract instance.
pub proof fn law_instance_storage_is_one_entry(cs: Seq<StorageAccessView>, i: int, j: int)
    requires
        0 <= i < cs.len(),
        0 <= j < cs.len(),
        cs[i].entry_point,
        cs[j].entry_point,
        cs[i].access == Access::Write,
        cs[i].durability == Durability::Instance,
        cs[j].durability == Durability::Instance,
        !runs_once_name(cs[i].function),
        !runs_once_name(cs[j].function),
        cs[i].function != cs[j].function,
    ensures
        ({
            let d = crate::analyze::INSTANCE_DOMAIN@;
            let (a, b) = if seq_lt(cs[i].function, cs[j].function) {
                (cs[i].function, cs[j].function)
            } else {
                (cs[j].function, cs[i].function)
            };
            is_edge(cs, ConflictEdgeView { a, b, key_root: d, reason: edge_reason(cs, d) })
        }),
        !parallel_safe(cs).contains(cs[i].function),
        !parallel_safe(cs).contains(cs[j].function),
{
    assert(counted(cs[i]));
    assert(counted(cs[j]));
    law_shared_writes_conflict(cs, i, j);
    let d = crate::analyze::INSTANCE_DOMAIN@;
    let (a, b) = if seq_lt(cs[i].function, cs[j].function) {
        (cs[i].function, cs[j].function)
    } else {
        (cs[j].function, cs[i].function)
    };
    let e = ConflictEdgeView { a, b, key_root: d, reason: edge_reason(cs, d) };
    assert(is_edge(cs, e));
    assert(conflicted(cs).contains(cs[i].function));
    assert(conflicted(cs).contains(cs[j].function));
}

/// A write through a parameterless key into instance storage, in a function
/// that can run more than once, is a warning on a path users reach and is
/// not reported elsewhere.
pub proof fn law_static_instance_writes(a: StorageAccessView)
    requires
        a.class is Static,
        a.access == Access::Write,
        a.durability == Durability::Instance,
        !runs_once_name(a.function),
    ensures
        a.entry_point && !a.admin_path ==> severity_of(a) == Some(Severity::Warning),
        !(a.entry_point && !a.admin_path) ==> severity_of(a) is None,
{
}

// ----- writes through fixed keys ------------------------------------------------

/// A write through a parameterless key, outside instance storage, in a
/// function that can run more than once, is always reported, helpers that
/// are no entry point included: critical on a path users reach (an entry
/// point that is not an admin path), a warning anywhere else.
pub proof fn law_static_writes_are_reported(a: StorageAccessView)
    requires
        a.class is Static,
        a.access == Access::Write,
        a.durability != Durability::Instance,
        !runs_once_name(a.function),
    ensures
        severity_of(a) == Some(
            if a.entry_point && !a.admin_path {
                Severity::Critical
            } else {
                Severity::Warning
            },
        ),
{
}

/// The report has a finding for every such write of the scan, with that
/// severity.
pub proof fn law_static_writes_appear_in_the_report(
    target: Seq<char>,
    scan: ScanResultView,
    a: StorageAccessView,
)
    requires
        classified(scan.functions).contains(a),
        a.class is Static,
        a.access == Access::Write,
        a.durability != Durability::Instance,
        !runs_once_name(a.function),
    ensures
        exists|i: int|
            0 <= i < analysis(target, scan).findings.len()
                && (#[trigger] analysis(target, scan).findings[i]).access == a
                && analysis(target, scan).findings[i].severity == (if a.entry_point
                && !a.admin_path {
                Severity::Critical
            } else {
                Severity::Warning
            }),
{
    broadcast use vstd::seq_lib::group_to_multiset_ensures;

    let cs = classified(scan.functions);
    let fs = analysis(target, scan).findings;
    law_static_writes_are_reported(a);
    let k = choose|k: int| 0 <= k < cs.len() && cs[k] == a;
    cs.lemma_filter_contains(worth_reporting(), k);
    let f = cs.filter(worth_reporting());
    assert(f.to_multiset().count(a) > 0);
    law_reported_accesses_are_those_with_a_severity(target, scan);
    let m = fs.map_values(access_of());
    assert(m.to_multiset().count(a) > 0);
    assert(m.contains(a));
    let i = choose|i: int| 0 <= i < m.len() && m[i] == a;
    assert(fs[i].access == a);
    law_findings_follow_the_rules(target, scan, i);
}

// ----- calls in `let` initialisers -------------------------------------------------

/// The path a call expression calls, when it calls a path.
pub open spec fn called_path(e: crate::syntax::Expression) -> Option<Seq<String>> {
    match e {
        crate::syntax::Expression::Call { func, .. } => match *func {
            crate::syntax::Expression::Path { segments, .. } => Some(segments@),
            _ => None,
        },
        _ => None,
    }
}

/// A `let` whose initialiser calls a path `a::b::f(..)` records, for each
/// name it binds, the call of `f`, the path's last segment: a binding from
/// `Self::f(..)` or `module::f(..)` is followed to `f`. A `let` of one name
/// records that name once.
pub proof fn law_call_bindings_name_the_called_function(l: crate::syntax::LetStmt)
    requires
        l.init is Some,
        called_path(*l.init->0) is Some,
        called_path(*l.init->0)->0.len() > 0,
    ensures
        forall|k: int|
            0 <= k < crate::parse::let_records(l).len() ==> (#[trigger] crate::parse::let_records(
                l,
            )[k]).from_call == Some(called_path(*l.init->0)->0.last()@),
        l.pat matches crate::syntax::Pattern::Ident(n) ==> crate::parse::let_records(l).len() == 1
            && crate::parse::let_records(l)[0].name == n@,
{
    let e = *l.init->0;
    assert(crate::parse::hit_expr(false, e) == Some(called_path(e)->0.last()@));
    match l.pat {
        crate::syntax::Pattern::Ident(n) => {
            let names = crate::parse::pat_names(l.pat);
            assert(names == seq![n@]);
            assert(names.drop_last() =~= Seq::<Seq<char>>::empty());
            assert(crate::parse::add_names(Seq::empty(), names.drop_last()) == Seq::<Seq<char>>::empty());
            assert(crate::parse::add_names(Seq::empty(), names) =~= seq![n@]);
        },
        _ => {},
    }
}

// ----- the counts the reports show -------------------------------------------------

/// The counts line of a report with findings, without colour: the critical,
/// warning and info counts of the summary, each before its own word.
pub proof fn law_text_counts_line(r: ReportView)
    requires
        r.findings.len() > 0,
    ensures
        stands_at(
            crate::render_text::text_report(r, false),
            crate::render_text::head_text(r, false).len() as int,
            "\n  "@ + crate::text::decimal(r.summary.critical as nat) + " critical"@ + "  "@
                + crate::text::decimal(r.summary.warning as nat) + " warning"@ + "  "@
                + crate::text::decimal(r.summary.info as nat) + " info"@ + "\n"@ + "\n"@,
        ),
{
    let h = crate::render_text::head_text(r, false);
    let c = crate::render_text::counts_text(r, false);
    let x = "\n  "@ + crate::text::decimal(r.summary.critical as nat) + " critical"@ + "  "@
        + crate::text::decimal(r.summary.warning as nat) + " warning"@ + "  "@
        + crate::text::decimal(r.summary.info as nat) + " info"@ + "\n"@ + "\n"@;
    assert(c =~= x);
    let rest = crate::render_text::findings_text(false, r.findings, r.findings.len() as int)
        + crate::render_text::edges_section(r, false) + crate::render_text::safe_section(r, false)
        + "\n"@;
    let t = crate::render_text::text_report(r, false);
    assert(t =~= h + (x + rest) + Seq::<char>::empty());
    lemma_stands_in(h, x, rest, Seq::<char>::empty());
}

/// The counts of the HTML report's header: the files, functions, entry
/// points and storage accesses scanned, each before its own word, then the
/// critical, warning and info counts of the summary, each in the chip of
/// its own severity.
pub proof fn law_html_header_counts(r: ReportView, sources: Seq<(Seq<char>, Seq<Seq<char>>)>)
    ensures
        exists|p: int|
            stands_at(
                crate::render_html::html_report(r, sources),
                p,
                crate::render_html::HEAD_META@ + crate::text::decimal(r.summary.files_scanned as nat)
                    + crate::render_html::HEAD_FILES@ + crate::text::decimal(
                    r.summary.functions_scanned as nat,
                ) + crate::render_html::HEAD_FUNCTIONS@ + crate::text::decimal(
                    r.summary.entry_points as nat,
                ) + crate::render_html::HEAD_ENTRY_POINTS@ + crate::text::decimal(
                    r.summary.accesses_found as nat,
                ) + crate::render_html::HEAD_ACCESSES@ + crate::text::decimal(
                    r.summary.critical as nat,
                ) + crate::render_html::HEAD_CRITICAL@ + crate::text::decimal(
                    r.summary.warning as nat,
                ) + crate::render_html::HEAD_WARNING@ + crate::text::decimal(r.summary.info as nat)
                    + crate::render_html::HEAD_INFO@,
            ),
{
    reveal(crate::render_html::head_html);
    let s = r.summary;
    let x = crate::render_html::HEAD_META@ + crate::text::decimal(s.files_scanned as nat)
        + crate::render_html::HEAD_FILES@ + crate::text::decimal(s.functions_scanned as nat)
        + crate::render_html::HEAD_FUNCTIONS@ + crate::text::decimal(s.entry_points as nat)
        + crate::render_html::HEAD_ENTRY_POINTS@ + crate::text::decimal(s.accesses_found as nat)
        + crate::render_html::HEAD_ACCESSES@ + crate::text::decimal(s.critical as nat)
        + crate::render_html::HEAD_CRITICAL@ + crate::text::decimal(s.warning as nat)
        + crate::render_html::HEAD_WARNING@ + crate::text::decimal(s.info as nat)
        + crate::render_html::HEAD_INFO@;
    let pre = crate::render_html::HEAD_TITLE@ + escaped(r.target) + crate::render_html::HEAD_STYLE@
        + escaped(r.target);
    let hd = crate::render_html::head_html(r);
    assert(hd =~= pre + x);
    let rest = crate::render_html::html_report(r, sources).skip(hd.len() as int);
    let t = crate::render_html::html_report(r, sources);
    assert(t =~= pre + (x + rest) + Seq::<char>::empty());
    lemma_stands_in(pre, x, rest, Seq::<char>::empty());
}

/// The second line of the report without colour: the files, functions,
/// entry points and storage accesses scanned, each before its own words.
pub proof fn law_text_scan_counts_line(r: ReportView)
    ensures
        stands_at(
            crate::render_text::text_report(r, false),
            ("\n"@ + "braid \u{2014} "@ + r.target + "\n"@).len() as int,
            crate::text::decimal(r.summary.files_scanned as nat) + " file(s), "@
                + crate::text::decimal(r.summary.functions_scanned as nat) + " function(s), "@
                + crate::text::decimal(r.summary.entry_points as nat) + " entry point(s), "@
                + crate::text::decimal(r.summary.accesses_found as nat) + " storage access(es)"@
                + "\n"@,
        ),
{
    let s = r.summary;
    let x = crate::text::decimal(s.files_scanned as nat) + " file(s), "@ + crate::text::decimal(
        s.functions_scanned as nat,
    ) + " function(s), "@ + crate::text::decimal(s.entry_points as nat) + " entry point(s), "@
        + crate::text::decimal(s.accesses_found as nat) + " storage access(es)"@ + "\n"@;
    let pre = "\n"@ + "braid \u{2014} "@ + r.target + "\n"@;
    let h = crate::render_text::head_text(r, false);
    assert(h =~= pre + x);
    let t = crate::render_text::text_report(r, false);
    let rest = t.skip(h.len() as int);
    assert(t =~= pre + (x + rest) + Seq::<char>::empty());
    lemma_stands_in(pre, x, rest, Seq::<char>::empty());
}

} // verus!
