//! Core data model: what Braid observes, how it classifies it, and what it
//! reports. Every type that carries text has a view in which the text is a
//! character sequence; the contracts of the library speak of those views.
use vstd::prelude::*;
use crate::text::{lowered, lower_ascii, same, views};

verus! {

/// Which Soroban storage durability an access targets.
///
/// Temporary entries still participate in footprints and therefore still
/// cause conflicts, so Braid does not exempt them.
#[derive(Debug, Clone, Copy, PartialEq, Eq, Structural)]
pub enum Durability {
    Instance,
    Persistent,
    Temporary,
}

impl Durability {
    pub open spec fn name(self) -> Seq<char> {
        match self {
            Durability::Instance => "instance"@,
            Durability::Persistent => "persistent"@,
            Durability::Temporary => "temporary"@,
        }
    }

    /// The lower-case name the report prints for this durability.
    pub fn as_str(&self) -> (r: &'static str)
        ensures
            r@ == self.name(),
    {
        match self {
            Durability::Instance => "instance",
            Durability::Persistent => "persistent",
            Durability::Temporary => "temporary",
        }
    }
}

/// Whether an access reads or writes the entry.
///
/// Under CAP-0063 two transactions conflict only when at least one of them
/// writes the shared entry; read-only sharing is free.
#[derive(Debug, Clone, Copy, PartialEq, Eq, Structural)]
pub enum Access {
    Read,
    Write,
}

/// The access kind of a Soroban storage method name. `extend_ttl` and
/// `bump` count as reads: a TTL bump does not put the entry in the
/// read-write footprint the way a value write does.
pub open spec fn method_access(name: Seq<char>) -> Option<Access> {
    if name == "get"@ || name == "try_get"@ || name == "has"@ {
        Some(Access::Read)
    } else if name == "extend_ttl"@ || name == "bump"@ {
        Some(Access::Read)
    } else if name == "set"@ || name == "remove"@ || name == "update"@ {
        Some(Access::Write)
    } else {
        None
    }
}

impl Access {
    pub open spec fn name(self) -> Seq<char> {
        match self {
            Access::Read => "read"@,
            Access::Write => "write"@,
        }
    }

    /// Map a Soroban storage method name onto an access kind.
    pub fn from_method(name: &str) -> (r: Option<Self>)
        ensures
            r == method_access(name@),
    {
        if same(name, "get") || same(name, "try_get") || same(name, "has") {
            Some(Access::Read)
        } else if same(name, "extend_ttl") || same(name, "bump") {
            Some(Access::Read)
        } else if same(name, "set") || same(name, "remove") || same(name, "update") {
            Some(Access::Write)
        } else {
            None
        }
    }

    /// The lower-case name the report prints for this access kind.
    pub fn as_str(&self) -> (r: &'static str)
        ensures
            r@ == self.name(),
    {
        match self {
            Access::Read => "read",
            Access::Write => "write",
        }
    }
}

/// How a storage key is derived, which is what decides whether two callers
/// touch the same ledger entry.
#[derive(Debug)]
pub enum KeyClass {
    /// A fixed key with no parameters: every caller touches the same entry.
    Static,
    /// Parameterised by values the caller supplies: parallel-safe.
    SubjectDerived { param: String },
    /// Parameterised by a value minted from a shared counter: the trap.
    SequenceDerived { counter: String },
    /// A key expression Braid could not resolve, reported as unknown.
    Unresolvable { reason: String },
}

/// A key class with its text as character sequences.
pub enum KeyClassView {
    Static,
    SubjectDerived { param: Seq<char> },
    SequenceDerived { counter: Seq<char> },
    Unresolvable { reason: Seq<char> },
}

impl KeyClassView {
    pub open spec fn label(self) -> Seq<char> {
        match self {
            KeyClassView::Static => "static"@,
            KeyClassView::SubjectDerived { .. } => "subject-derived"@,
            KeyClassView::SequenceDerived { .. } => "sequence-derived"@,
            KeyClassView::Unresolvable { .. } => "unresolvable"@,
        }
    }
}

impl View for KeyClass {
    type V = KeyClassView;

    open spec fn view(&self) -> KeyClassView {
        match self {
            KeyClass::Static => KeyClassView::Static,
            KeyClass::SubjectDerived { param } => KeyClassView::SubjectDerived { param: param@ },
            KeyClass::SequenceDerived { counter } => KeyClassView::SequenceDerived {
                counter: counter@,
            },
            KeyClass::Unresolvable { reason } => KeyClassView::Unresolvable { reason: reason@ },
        }
    }
}

impl Clone for KeyClass {
    fn clone(&self) -> (r: Self)
        ensures
            r@ == self@,
    {
        match self {
            KeyClass::Static => KeyClass::Static,
            KeyClass::SubjectDerived { param } => KeyClass::SubjectDerived { param: param.clone() },
            KeyClass::SequenceDerived { counter } => KeyClass::SequenceDerived {
                counter: counter.clone(),
            },
            KeyClass::Unresolvable { reason } => KeyClass::Unresolvable { reason: reason.clone() },
        }
    }
}

impl KeyClass {
    /// The class's name as the report prints it.
    pub fn label(&self) -> (r: &'static str)
        ensures
            r@ == self@.label(),
    {
        match self {
            KeyClass::Static => "static",
            KeyClass::SubjectDerived { .. } => "subject-derived",
            KeyClass::SequenceDerived { .. } => "sequence-derived",
            KeyClass::Unresolvable { .. } => "unresolvable",
        }
    }
}

#[derive(Debug, Clone, Copy, PartialEq, Eq, Structural, PartialOrd, Ord)]
pub enum Severity {
    Info,
    Warning,
    Critical,
}

/// The severity a threshold name stands for, once lower-cased.
pub open spec fn severity_named(s: Seq<char>) -> Option<Severity> {
    if s == "info"@ {
        Some(Severity::Info)
    } else if s == "warning"@ || s == "warn"@ {
        Some(Severity::Warning)
    } else if s == "critical"@ || s == "crit"@ {
        Some(Severity::Critical)
    } else {
        None
    }
}

impl Severity {
    /// Info < Warning < Critical.
    pub open spec fn level(self) -> int {
        match self {
            Severity::Info => 0,
            Severity::Warning => 1,
            Severity::Critical => 2,
        }
    }

    pub open spec fn name(self) -> Seq<char> {
        match self {
            Severity::Info => "info"@,
            Severity::Warning => "warning"@,
            Severity::Critical => "critical"@,
        }
    }

    /// The severity's position in Info < Warning < Critical.
    pub fn rank(&self) -> (r: u8)
        ensures
            r == self.level(),
    {
        match self {
            Severity::Info => 0,
            Severity::Warning => 1,
            Severity::Critical => 2,
        }
    }

    pub fn label(&self) -> (r: &'static str)
        ensures
            r@ == self.name(),
    {
        match self {
            Severity::Info => "info",
            Severity::Warning => "warning",
            Severity::Critical => "critical",
        }
    }

    /// Parse a threshold name, ignoring ASCII case.
    pub fn parse(s: &str) -> (r: Option<Self>)
        ensures
            r == severity_named(lowered(s@)),
    {
        let l = lower_ascii(s);
        let l = l.as_str();
        if same(l, "info") {
            Some(Severity::Info)
        } else if same(l, "warning") || same(l, "warn") {
            Some(Severity::Warning)
        } else if same(l, "critical") || same(l, "crit") {
            Some(Severity::Critical)
        } else {
            None
        }
    }
}

/// A single storage access site found in the source.
#[derive(Debug)]
pub struct StorageAccess {
    pub file: String,
    pub line: usize,
    pub column: usize,
    /// The enclosing function's name.
    pub function: String,
    /// Whether that function is a public contract entry point.
    pub entry_point: bool,
    /// Whether that entry point looks like an admin or configuration path.
    pub admin_path: bool,
    pub durability: Durability,
    pub access: Access,
    /// The key expression as written, e.g. `DataKey::Balance(addr)`.
    pub key_expr: String,
    /// A stable identity for the entry the key names, e.g. `DataKey::Balance`.
    pub key_root: String,
    pub class: KeyClass,
}

pub struct StorageAccessView {
    pub file: Seq<char>,
    pub line: usize,
    pub column: usize,
    pub function: Seq<char>,
    pub entry_point: bool,
    pub admin_path: bool,
    pub durability: Durability,
    pub access: Access,
    pub key_expr: Seq<char>,
    pub key_root: Seq<char>,
    pub class: KeyClassView,
}

impl View for StorageAccess {
    type V = StorageAccessView;

    open spec fn view(&self) -> StorageAccessView {
        StorageAccessView {
            file: self.file@,
            line: self.line,
            column: self.column,
            function: self.function@,
            entry_point: self.entry_point,
            admin_path: self.admin_path,
            durability: self.durability,
            access: self.access,
            key_expr: self.key_expr@,
            key_root: self.key_root@,
            class: self.class@,
        }
    }
}

impl Clone for StorageAccess {
    fn clone(&self) -> (r: Self)
        ensures
            r@ == self@,
    {
        StorageAccess {
            file: self.file.clone(),
            line: self.line,
            column: self.column,
            function: self.function.clone(),
            entry_point: self.entry_point,
            admin_path: self.admin_path,
            durability: self.durability,
            access: self.access,
            key_expr: self.key_expr.clone(),
            key_root: self.key_root.clone(),
            class: self.class.clone(),
        }
    }
}

/// One line of source context attached to a finding.
#[derive(Debug)]
pub struct SourceLine {
    pub number: usize,
    pub text: String,
    /// True for the line the finding points at.
    pub hit: bool,
}

pub struct SourceLineView {
    pub number: usize,
    pub text: Seq<char>,
    pub hit: bool,
}

impl View for SourceLine {
    type V = SourceLineView;

    open spec fn view(&self) -> SourceLineView {
        SourceLineView { number: self.number, text: self.text@, hit: self.hit }
    }
}

/// A conflict Braid is reporting, with the remediation that goes with it.
#[derive(Debug)]
pub struct Finding {
    pub severity: Severity,
    pub access: StorageAccess,
    /// One sentence naming what is wrong.
    pub summary: String,
    /// What to do about it, with a code sketch where one helps.
    pub remediation: String,
    /// Other entry points that touch the same entry.
    pub also_touched_by: Vec<String>,
    /// Source lines around the finding, when they were attached.
    pub context: Vec<SourceLine>,
}

pub struct FindingView {
    pub severity: Severity,
    pub access: StorageAccessView,
    pub summary: Seq<char>,
    pub remediation: Seq<char>,
    pub also_touched_by: Seq<Seq<char>>,
    pub context: Seq<SourceLineView>,
}

impl View for Finding {
    type V = FindingView;

    open spec fn view(&self) -> FindingView {
        FindingView {
            severity: self.severity,
            access: self.access@,
            summary: self.summary@,
            remediation: self.remediation@,
            also_touched_by: views(self.also_touched_by@),
            context: self.context@.map_values(|l: SourceLine| l@),
        }
    }
}

/// Two entry points that cannot run in parallel, and why.
#[derive(Debug)]
pub struct ConflictEdge {
    pub a: String,
    pub b: String,
    pub key_root: String,
    pub reason: String,
}

pub struct ConflictEdgeView {
    pub a: Seq<char>,
    pub b: Seq<char>,
    pub key_root: Seq<char>,
    pub reason: Seq<char>,
}

impl View for ConflictEdge {
    type V = ConflictEdgeView;

    open spec fn view(&self) -> ConflictEdgeView {
        ConflictEdgeView { a: self.a@, b: self.b@, key_root: self.key_root@, reason: self.reason@ }
    }
}

#[derive(Debug, Clone, Copy, PartialEq, Eq, Structural)]
pub struct Summary {
    pub files_scanned: usize,
    pub functions_scanned: usize,
    pub accesses_found: usize,
    pub entry_points: usize,
    pub critical: usize,
    pub warning: usize,
    pub info: usize,
}

impl Default for Summary {
    fn default() -> (r: Self)
        ensures
            r == (Summary {
                files_scanned: 0,
                functions_scanned: 0,
                accesses_found: 0,
                entry_points: 0,
                critical: 0,
                warning: 0,
                info: 0,
            }),
    {
        Summary {
            files_scanned: 0,
            functions_scanned: 0,
            accesses_found: 0,
            entry_points: 0,
            critical: 0,
            warning: 0,
            info: 0,
        }
    }
}

/// Schema version for JSON output. Bump it on any breaking shape change.
pub const SCHEMA_VERSION: u32 = 1;

#[derive(Debug)]
pub struct Report {
    pub schema_version: u32,
    pub target: String,
    pub summary: Summary,
    pub findings: Vec<Finding>,
    pub conflict_edges: Vec<ConflictEdge>,
    /// Entry points with no conflicting access at all.
    pub parallel_safe_entry_points: Vec<String>,
    /// Entry points that conflict with themselves: the sole writer of a
    /// shared entry, so two concurrent calls of it serialise.
    pub self_conflicting_entry_points: Vec<String>,
}

pub struct ReportView {
    pub schema_version: u32,
    pub target: Seq<char>,
    pub summary: Summary,
    pub findings: Seq<FindingView>,
    pub conflict_edges: Seq<ConflictEdgeView>,
    pub parallel_safe_entry_points: Seq<Seq<char>>,
    pub self_conflicting_entry_points: Seq<Seq<char>>,
}

impl View for Report {
    type V = ReportView;

    open spec fn view(&self) -> ReportView {
        ReportView {
            schema_version: self.schema_version,
            target: self.target@,
            summary: self.summary,
            findings: self.findings@.map_values(|f: Finding| f@),
            conflict_edges: self.conflict_edges@.map_values(|e: ConflictEdge| e@),
            parallel_safe_entry_points: views(self.parallel_safe_entry_points@),
            self_conflicting_entry_points: views(self.self_conflicting_entry_points@),
        }
    }
}

/// The most severe of the findings' severities, if there is any finding.
pub open spec fn worst_of(fs: Seq<FindingView>) -> Option<Severity>
    decreases fs.len(),
{
    if fs.len() == 0 {
        None
    } else {
        match worst_of(fs.drop_last()) {
            Some(w) => if w.level() > fs.last().severity.level() {
                Some(w)
            } else {
                Some(fs.last().severity)
            },
            None => Some(fs.last().severity),
        }
    }
}

/// The CI exit code for a worst severity and a threshold.
pub open spec fn exit_code_for(worst: Option<Severity>, fail_on: Option<Severity>) -> i32 {
    match (fail_on, worst) {
        (Some(t), Some(w)) => if w.level() >= t.level() {
            1
        } else {
            0
        },
        _ => 0,
    }
}

impl Report {
    pub fn worst_severity(&self) -> (r: Option<Severity>)
        ensures
            r == worst_of(self@.findings),
    {
        let mut worst: Option<Severity> = None;
        let mut i: usize = 0;
        while i < self.findings.len()
            invariant
                0 <= i <= self.findings.len(),
                worst == worst_of(self@.findings.take(i as int)),
            decreases self.findings.len() - i,
        {
            let s = self.findings[i].severity;
            proof {
                let t = self@.findings.take((i + 1) as int);
                assert(t.drop_last() =~= self@.findings.take(i as int));
            }
            worst = match worst {
                Some(w) => if w.rank() > s.rank() {
                    Some(w)
                } else {
                    Some(s)
                },
                None => Some(s),
            };
            i += 1;
        }
        assert(self@.findings.take(self.findings.len() as int) =~= self@.findings);
        worst
    }

    /// Exit code for CI: 1 when any finding is at or above `fail_on`.
    pub fn exit_code(&self, fail_on: Option<Severity>) -> (r: i32)
        ensures
            r == exit_code_for(worst_of(self@.findings), fail_on),
    {
        match (fail_on, self.worst_severity()) {
            (Some(threshold), Some(worst)) => if worst.rank() >= threshold.rank() {
                1
            } else {
                0
            },
            _ => 0,
        }
    }
}

} // verus!
