//! Regression tests over a corpus of small contracts, each written out as
//! the syntax tree the scan reads.
//!
//! Each contract encodes one claim about CAP-0063 clustering. If a change to
//! the classifier alters any of these, that is either a fix worth explaining
//! or a regression.

use braid::analyze::INSTANCE_DOMAIN;
use braid::syntax::{Expression, FileItem, FnDecl, LetStmt, Node, Pattern, SourceFile};
use braid::{analyze_path, analyze_sources, Access, Durability, KeyClass, Report, Severity};

// ----- building syntax trees ------------------------------------------------

fn path(segs: &[&str]) -> Expression {
    Expression::Path {
        pre: vec![],
        segments: segs.iter().map(|s| s.to_string()).collect(),
        tokens: segs.join(" :: "),
    }
}

fn tok(e: &Expression) -> String {
    match e {
        Expression::MethodCall { tokens, .. }
        | Expression::Path { tokens, .. }
        | Expression::Call { tokens, .. }
        | Expression::Struct { tokens, .. }
        | Expression::Lit { tokens, .. }
        | Expression::Macro { tokens, .. }
        | Expression::Tuple { tokens, .. }
        | Expression::Reference { tokens, .. }
        | Expression::Paren { tokens, .. }
        | Expression::Group { tokens, .. }
        | Expression::Cast { tokens, .. }
        | Expression::Other { tokens, .. } => tokens.clone(),
    }
}

fn args_text(args: &[Expression]) -> String {
    args.iter().map(tok).collect::<Vec<_>>().join(" , ")
}

fn lit(text: &str) -> Expression {
    Expression::Lit { pre: vec![], tokens: text.to_string() }
}

fn call(func: &[&str], args: Vec<Expression>) -> Expression {
    let f = path(func);
    let tokens = format!("{} ({})", tok(&f), args_text(&args));
    Expression::Call { pre: vec![], func: Box::new(f), args, tokens }
}

fn method(receiver: Expression, name: &str, args: Vec<Expression>, line: usize, column: usize) -> Expression {
    let tokens = format!("{} . {} ({})", tok(&receiver), name, args_text(&args));
    Expression::MethodCall {
        pre: vec![],
        receiver: Box::new(receiver),
        method: name.to_string(),
        mid: vec![],
        args,
        line,
        column,
        tokens,
    }
}

fn reference(inner: Expression) -> Expression {
    let tokens = format!("& {}", tok(&inner));
    Expression::Reference { pre: vec![], inner: Box::new(inner), tokens }
}

fn binary(l: Expression, op: &str, r: Expression) -> Expression {
    let tokens = format!("{} {} {}", tok(&l), op, tok(&r));
    Expression::Other { children: vec![Node::Expression(l), Node::Expression(r)], tokens }
}

fn paren(inner: Expression) -> Expression {
    let tokens = format!("({})", tok(&inner));
    Expression::Paren { pre: vec![], inner: Box::new(inner), tokens }
}

/// `env.storage().<durability>().<op>(&key, value..)` on `line`.
fn storage(durability: &str, op: &str, key: Expression, value: Option<Expression>, line: usize) -> Expression {
    let env = path(&["env"]);
    let st = method(env, "storage", vec![], line, 12);
    let du = method(st, durability, vec![], line, 22);
    let mut args = vec![reference(key)];
    if let Some(v) = value {
        args.push(reference(v));
    }
    method(du, op, args, line, 23 + durability.len())
}

fn unwrap_or(e: Expression, default: &str, line: usize) -> Expression {
    method(e, "unwrap_or", vec![lit(default)], line, 60)
}

fn clone_of(name: &str, line: usize) -> Expression {
    method(path(&[name]), "clone", vec![], line, 40)
}

fn typed(name: &str) -> Pattern {
    Pattern::Type(Box::new(Pattern::Ident(name.to_string())))
}

fn let_typed(name: &str, init: Expression, line: usize) -> Node {
    Node::LetStmt(LetStmt { pre: vec![], pat: typed(name), line, init: Some(Box::new(init)), diverge: None })
}

fn stmt(e: Expression) -> Node {
    Node::Expression(e)
}

fn public(name: &str, line: usize, params: &[&str], body: Vec<Node>) -> FnDecl {
    let mut ps = vec![typed("env")];
    ps.extend(params.iter().map(|p| typed(p)));
    FnDecl { name: name.to_string(), line, is_pub: true, params: ps, body }
}

fn contract(path: &str, fns: Vec<FnDecl>) -> SourceFile {
    SourceFile {
        path: path.to_string(),
        items: Ok(vec![FileItem::Impl { attrs: vec![vec!["contractimpl".to_string()]], fns }]),
    }
}

fn constructor(line: usize) -> FnDecl {
    public(
        "__constructor",
        line,
        &["admin"],
        vec![stmt(storage("instance", "set", path(&["DataKey", "Admin"]), Some(path(&["admin"])), line + 1))],
    )
}

// ----- the corpus -------------------------------------------------------------

fn hot_counter() -> Vec<SourceFile> {
    let file = "fixtures/hot_counter/src/lib.rs";
    let ctor = public(
        "__constructor",
        20,
        &["admin"],
        vec![
            stmt(storage("instance", "set", path(&["DataKey", "Admin"]), Some(path(&["admin"])), 21)),
            stmt(storage("persistent", "set", path(&["DataKey", "Seq"]), Some(lit("0u64")), 22)),
        ],
    );
    let create = public(
        "create_job",
        25,
        &["owner", "job"],
        vec![
            let_typed(
                "id",
                unwrap_or(storage("persistent", "get", path(&["DataKey", "Seq"]), None, 26), "0", 26),
                26,
            ),
            stmt(storage(
                "persistent",
                "set",
                path(&["DataKey", "Seq"]),
                Some(paren(binary(path(&["id"]), "+", lit("1")))),
                27,
            )),
            stmt(storage(
                "persistent",
                "set",
                call(&["DataKey", "Job"], vec![path(&["id"])]),
                Some(path(&["job"])),
                28,
            )),
            stmt(path(&["id"])),
        ],
    );
    let get = public(
        "get_job",
        32,
        &["id"],
        vec![stmt(method(
            storage("persistent", "get", call(&["DataKey", "Job"], vec![path(&["id"])]), None, 33),
            "unwrap",
            vec![],
            33,
            70,
        ))],
    );
    vec![contract(file, vec![ctor, create, get])]
}

fn clean_token() -> Vec<SourceFile> {
    let file = "fixtures/clean_token/src/lib.rs";
    let balance = public(
        "balance",
        24,
        &["id"],
        vec![stmt(unwrap_or(
            storage("persistent", "get", call(&["DataKey", "Balance"], vec![path(&["id"])]), None, 25),
            "0",
            25,
        ))],
    );
    let transfer = public(
        "transfer",
        28,
        &["from", "to", "amount"],
        vec![
            let_typed(
                "fb",
                unwrap_or(
                    storage("persistent", "get", call(&["DataKey", "Balance"], vec![clone_of("from", 29)]), None, 29),
                    "0",
                    29,
                ),
                29,
            ),
            let_typed(
                "tb",
                unwrap_or(
                    storage("persistent", "get", call(&["DataKey", "Balance"], vec![clone_of("to", 30)]), None, 30),
                    "0",
                    30,
                ),
                30,
            ),
            stmt(storage(
                "persistent",
                "set",
                call(&["DataKey", "Balance"], vec![path(&["from"])]),
                Some(paren(binary(path(&["fb"]), "-", path(&["amount"])))),
                31,
            )),
            stmt(storage(
                "persistent",
                "set",
                call(&["DataKey", "Balance"], vec![path(&["to"])]),
                Some(paren(binary(path(&["tb"]), "+", path(&["amount"])))),
                32,
            )),
        ],
    );
    vec![contract(file, vec![constructor(18), balance, transfer])]
}

fn instance_trap() -> Vec<SourceFile> {
    let file = "fixtures/instance_trap/src/lib.rs";
    let body = |op: &str, line: usize| {
        vec![
            let_typed(
                "cur",
                unwrap_or(
                    storage("instance", "get", call(&["DataKey", "Balance"], vec![clone_of("user", line)]), None, line),
                    "0",
                    line,
                ),
                line,
            ),
            stmt(storage(
                "instance",
                "set",
                call(&["DataKey", "Balance"], vec![path(&["user"])]),
                Some(paren(binary(path(&["cur"]), op, path(&["amount"])))),
                line + 1,
            )),
        ]
    };
    let deposit = public("deposit", 24, &["user", "amount"], body("+", 25));
    let withdraw = public("withdraw", 30, &["user", "amount"], body("-", 31));
    vec![contract(file, vec![constructor(18), deposit, withdraw])]
}

fn global_supply() -> Vec<SourceFile> {
    let file = "fixtures/global_supply/src/lib.rs";
    let body = |who: &str, op: &str, line: usize| {
        vec![
            let_typed(
                "bal",
                unwrap_or(
                    storage("persistent", "get", call(&["DataKey", "Balance"], vec![clone_of(who, line)]), None, line),
                    "0",
                    line,
                ),
                line,
            ),
            stmt(storage(
                "persistent",
                "set",
                call(&["DataKey", "Balance"], vec![path(&[who])]),
                Some(paren(binary(path(&["bal"]), op, path(&["amount"])))),
                line + 1,
            )),
            let_typed(
                "supply",
                unwrap_or(storage("persistent", "get", path(&["DataKey", "TotalSupply"]), None, line + 2), "0", line + 2),
                line + 2,
            ),
            stmt(storage(
                "persistent",
                "set",
                path(&["DataKey", "TotalSupply"]),
                Some(paren(binary(path(&["supply"]), op, path(&["amount"])))),
                line + 3,
            )),
        ]
    };
    let mint = public("mint", 24, &["to", "amount"], body("to", "+", 25));
    let burn = public("burn", 31, &["from", "amount"], body("from", "-", 32));
    let set_fee = public(
        "set_fee",
        38,
        &["bps"],
        vec![stmt(storage("persistent", "set", path(&["DataKey", "FeeBps"]), Some(path(&["bps"])), 39))],
    );
    let quote = public(
        "quote",
        42,
        &["amount"],
        vec![
            let_typed(
                "bps",
                unwrap_or(storage("persistent", "get", path(&["DataKey", "FeeBps"]), None, 43), "0", 43),
                43,
            ),
            stmt(binary(path(&["amount"]), "*", path(&["bps"]))),
        ],
    );
    vec![contract(file, vec![constructor(18), mint, burn, set_fee, quote])]
}

fn good_registry() -> Vec<SourceFile> {
    let file = "fixtures/good_registry/src/lib.rs";
    let register = public(
        "register",
        24,
        &["owner", "name", "record"],
        vec![stmt(storage(
            "persistent",
            "set",
            call(&["DataKey", "Record"], vec![path(&["owner"]), path(&["name"])]),
            Some(path(&["record"])),
            25,
        ))],
    );
    let lookup = public(
        "lookup",
        28,
        &["owner", "name"],
        vec![stmt(storage(
            "persistent",
            "get",
            call(&["DataKey", "Record"], vec![path(&["owner"]), path(&["name"])]),
            None,
            29,
        ))],
    );
    vec![contract(file, vec![constructor(18), register, lookup])]
}

fn run(name: &str) -> Report {
    let files = match name {
        "hot_counter" => hot_counter(),
        "clean_token" => clean_token(),
        "instance_trap" => instance_trap(),
        "global_supply" => global_supply(),
        "good_registry" => good_registry(),
        other => panic!("no fixture {other}"),
    };
    let target = format!("fixtures/{name}");
    let (report, errors) = analyze_path(&target, &files);
    assert!(errors.is_empty(), "{name}: parse errors: {errors:?}");
    report
}

fn severities(r: &Report, s: Severity) -> Vec<&str> {
    r.findings
        .iter()
        .filter(|f| f.severity == s)
        .map(|f| f.access.function.as_str())
        .collect()
}

// ----- the claims -------------------------------------------------------------

#[test]
fn good_registry_is_completely_clean() {
    let r = run("good_registry");
    assert!(
        r.findings.is_empty(),
        "expected no findings, got: {:?}",
        r.findings.iter().map(|f| &f.summary).collect::<Vec<_>>()
    );
    assert!(r.conflict_edges.is_empty());
    assert_eq!(r.exit_code(Some(Severity::Info)), 0);
}

#[test]
fn clean_token_has_no_actionable_findings() {
    let r = run("clean_token");
    assert_eq!(severities(&r, Severity::Critical).len(), 0);
    assert_eq!(severities(&r, Severity::Warning).len(), 0);
    // Per-address balances in persistent storage must never form an edge:
    // Balance(alice) and Balance(bob) are different ledger entries.
    assert!(
        r.conflict_edges.is_empty(),
        "subject-derived keys must not conflict, got {:?}",
        r.conflict_edges
    );
    assert!(r.parallel_safe_entry_points.contains(&"transfer".to_string()));
}

#[test]
fn hot_counter_flags_the_shared_counter_write() {
    let r = run("hot_counter");
    let crit = severities(&r, Severity::Critical);
    assert_eq!(crit, vec!["create_job"], "the Seq write is the critical one");

    let seq_write = r.findings.iter().find(|f| f.severity == Severity::Critical).unwrap();
    assert_eq!(seq_write.access.key_root, "DataKey::Seq");
    assert!(matches!(seq_write.access.class, KeyClass::Static));
}

#[test]
fn hot_counter_attributes_the_sequence_derived_key_to_its_counter() {
    let r = run("hot_counter");
    let job = r
        .findings
        .iter()
        .find(|f| f.access.key_root == "DataKey::Job" && f.access.access == Access::Write)
        .expect("DataKey::Job write should be reported");

    match &job.access.class {
        KeyClass::SequenceDerived { counter } => {
            assert!(counter.contains("DataKey::Seq"), "counter should be attributed to Seq, got {counter}");
        }
        other => panic!("expected sequence-derived, got {other:?}"),
    }
    assert_eq!(job.severity, Severity::Warning);
}

#[test]
fn constructor_writes_are_not_reported() {
    // A constructor runs once and cannot race. Reporting it is noise, and
    // noise is how a tool gets muted.
    for fixture in ["hot_counter", "clean_token", "instance_trap", "good_registry"] {
        let r = run(fixture);
        assert!(
            !r.findings.iter().any(|f| f.access.function == "__constructor"),
            "{fixture}: constructor should produce no findings"
        );
    }
}

#[test]
fn instance_storage_defeats_a_per_subject_key() {
    let r = run("instance_trap");
    let crit = severities(&r, Severity::Critical);
    assert!(crit.contains(&"deposit"));
    assert!(crit.contains(&"withdraw"));

    // The key *is* subject-derived: the finding is about where it lives.
    let dep = r.findings.iter().find(|f| f.access.function == "deposit").unwrap();
    assert!(matches!(dep.access.class, KeyClass::SubjectDerived { .. }));
    assert_eq!(dep.access.durability, Durability::Instance);
    assert!(dep.summary.contains("instance storage"));

    assert_eq!(r.conflict_edges.len(), 1);
    assert_eq!(r.conflict_edges[0].key_root, INSTANCE_DOMAIN);
}

#[test]
fn global_supply_flags_the_aggregate_but_not_the_balances() {
    let r = run("global_supply");
    let crit = severities(&r, Severity::Critical);
    assert!(crit.contains(&"mint"));
    assert!(crit.contains(&"burn"));

    for f in r.findings.iter().filter(|f| f.severity == Severity::Critical) {
        assert_eq!(
            f.access.key_root, "DataKey::TotalSupply",
            "only the shared aggregate is critical; per-address balances are not"
        );
    }

    // The admin write to FeeBps is real but rare.
    let fee = r.findings.iter().find(|f| f.access.function == "set_fee").unwrap();
    assert_eq!(fee.severity, Severity::Warning);

    // quote() only reads, so it must never be critical.
    assert!(!crit.contains(&"quote"));
}

#[test]
fn reads_alone_never_produce_a_conflict_edge() {
    for fixture in ["clean_token", "good_registry", "hot_counter", "global_supply"] {
        let r = run(fixture);
        for e in &r.conflict_edges {
            let has_writer = r
                .findings
                .iter()
                .any(|f| f.access.key_root == e.key_root && f.access.access == Access::Write)
                || e.key_root == INSTANCE_DOMAIN;
            assert!(has_writer, "{fixture}: edge on {} has no writer", e.key_root);
        }
    }
}

#[test]
fn fail_on_thresholds_map_to_exit_codes() {
    let clean = run("good_registry");
    let dirty = run("instance_trap");

    assert_eq!(clean.exit_code(Some(Severity::Critical)), 0);
    assert_eq!(clean.exit_code(None), 0);
    assert_eq!(dirty.exit_code(Some(Severity::Critical)), 1);
    assert_eq!(dirty.exit_code(Some(Severity::Warning)), 1);
    assert_eq!(dirty.exit_code(None), 0, "no threshold means never fail");
}

#[test]
fn every_actionable_finding_carries_a_remediation() {
    for fixture in ["hot_counter", "instance_trap", "global_supply"] {
        let r = run(fixture);
        for f in r.findings.iter().filter(|f| f.severity > Severity::Info) {
            assert!(f.remediation.len() > 80, "{fixture}: {} has no real remediation", f.summary);
        }
    }
}

// ----- further claims over the same corpus -------------------------------------

#[test]
fn hot_counter_reports_in_severity_order_with_exact_counts() {
    let r = run("hot_counter");
    let sev: Vec<Severity> = r.findings.iter().map(|f| f.severity).collect();
    assert_eq!(sev, vec![Severity::Critical, Severity::Warning, Severity::Info]);
    assert_eq!(r.summary.critical, 1);
    assert_eq!(r.summary.warning, 1);
    assert_eq!(r.summary.info, 1);
    assert_eq!(r.summary.files_scanned, 1);
    assert_eq!(r.summary.functions_scanned, 3);
    assert_eq!(r.summary.accesses_found, 6);
    assert_eq!(r.summary.entry_points, 3);
    assert_eq!(r.target, "fixtures/hot_counter");
    let crit = &r.findings[0];
    assert_eq!(crit.access.line, 27);
    assert_eq!(crit.access.key_expr, "DataKey::Seq");
    assert_eq!(
        crit.summary,
        "writes the fixed key `DataKey::Seq` \u{2014} every caller reaching `create_job` touches this same ledger entry"
    );
    // create_job is the sole writer of Seq, so it conflicts with itself.
    assert_eq!(r.self_conflicting_entry_points, vec!["create_job".to_string()]);
    assert_eq!(r.parallel_safe_entry_points, vec!["__constructor".to_string(), "get_job".to_string()]);
    assert!(r.conflict_edges.is_empty());
}

#[test]
fn global_supply_mint_and_burn_conflict_on_the_aggregate() {
    let r = run("global_supply");
    assert_eq!(r.conflict_edges.len(), 2);
    let e = &r.conflict_edges[0];
    assert_eq!((e.a.as_str(), e.b.as_str()), ("burn", "mint"));
    assert_eq!(e.key_root, "DataKey::TotalSupply");
    assert_eq!(e.reason, "static key `DataKey::TotalSupply`, written by at least one of them");
    let f = &r.conflict_edges[1];
    assert_eq!((f.a.as_str(), f.b.as_str()), ("quote", "set_fee"));
    assert_eq!(f.key_root, "DataKey::FeeBps");
    let mint = r.findings.iter().find(|f| f.access.function == "mint").unwrap();
    assert_eq!(mint.also_touched_by, vec!["burn".to_string()]);
    assert_eq!(r.parallel_safe_entry_points, vec!["__constructor".to_string()]);
}

#[test]
fn unparsed_files_are_reported_not_skipped() {
    let mut files = good_registry();
    files.push(SourceFile { path: "broken.rs".to_string(), items: Err("expected `;`".to_string()) });
    let (r, errors) = analyze_path("fixtures/mixed", &files);
    assert_eq!(errors, vec![("broken.rs".to_string(), "expected `;`".to_string())]);
    assert_eq!(r.summary.files_scanned, 1);
    assert!(r.findings.is_empty());
}

#[test]
fn a_caller_keyed_entry_point_changes_nothing_else() {
    let before = run("hot_counter");
    let mut files = hot_counter();
    let note = public(
        "note",
        40,
        &["who", "text"],
        vec![stmt(storage(
            "persistent",
            "set",
            call(&["DataKey", "Note"], vec![path(&["who"])]),
            Some(path(&["text"])),
            41,
        ))],
    );
    match &mut files[0].items {
        Ok(items) => match &mut items[0] {
            FileItem::Impl { fns, .. } => fns.push(note),
            _ => panic!("the contract is one impl block"),
        },
        Err(_) => panic!("the contract parses"),
    }
    let (after, errors) = analyze_path("fixtures/hot_counter", &files);
    assert!(errors.is_empty());
    let key = |r: &Report| {
        r.findings
            .iter()
            .map(|f| (f.severity, f.access.function.clone(), f.access.line, f.summary.clone(), f.also_touched_by.clone()))
            .collect::<Vec<_>>()
    };
    assert_eq!(key(&after), key(&before));
    assert_eq!(after.conflict_edges.len(), before.conflict_edges.len());
    assert_eq!(
        after.parallel_safe_entry_points,
        vec!["__constructor".to_string(), "get_job".to_string(), "note".to_string()]
    );
}

#[test]
fn findings_list_the_other_touchers_in_order() {
    let r = run("instance_trap");
    let dep = r.findings.iter().find(|f| f.access.function == "deposit").unwrap();
    assert_eq!(dep.also_touched_by, vec!["withdraw".to_string()]);
    let wd = r.findings.iter().find(|f| f.access.function == "withdraw").unwrap();
    assert_eq!(wd.also_touched_by, vec!["deposit".to_string()]);
    assert!(r.self_conflicting_entry_points.is_empty());
}

// ----- the same corpus as source text -------------------------------------------

/// A source text with each given line at its line number and blank lines
/// between.
fn at(lines: &[(usize, &str)]) -> String {
    let mut out: Vec<String> = Vec::new();
    for (n, text) in lines {
        while out.len() + 1 < *n {
            out.push(String::new());
        }
        out.push(text.to_string());
    }
    out.join("\n") + "\n"
}

const HEAD: [(usize, &str); 5] = [
    (1, "use soroban_sdk::{contract, contractimpl, Address, Env};"),
    (3, "#[contract]"),
    (4, "pub struct Fixture;"),
    (6, "#[contractimpl]"),
    (7, "impl Fixture {"),
];

const CONSTRUCTOR: [(usize, &str); 3] = [
    (18, "    pub fn __constructor(env: Env, admin: Address) {"),
    (19, "        env.storage().instance().set(&DataKey::Admin, &admin);"),
    (20, "    }"),
];

fn source_text(name: &str) -> String {
    let mut lines: Vec<(usize, &str)> = HEAD.to_vec();
    let body: Vec<(usize, &str)> = match name {
        "hot_counter" => vec![
            (20, "    pub fn __constructor(env: Env, admin: Address) {"),
            (21, "        env.storage().instance().set(&DataKey::Admin, &admin);"),
            (22, "        env.storage().persistent().set(&DataKey::Seq, &0u64);"),
            (23, "    }"),
            (25, "    pub fn create_job(env: Env, owner: Address, job: Job) -> u64 {"),
            (26, "        let id: u64 = env.storage().persistent().get(&DataKey::Seq).unwrap_or(0);"),
            (27, "        env.storage().persistent().set(&DataKey::Seq, &(id + 1));"),
            (28, "        env.storage().persistent().set(&DataKey::Job(id), &job);"),
            (29, "        id"),
            (30, "    }"),
            (32, "    pub fn get_job(env: Env, id: u64) -> Job {"),
            (33, "        env.storage().persistent().get(&DataKey::Job(id)).unwrap()"),
            (34, "    }"),
        ],
        "clean_token" => [
            CONSTRUCTOR.to_vec(),
            vec![
                (24, "    pub fn balance(env: Env, id: Address) -> i128 {"),
                (25, "        env.storage().persistent().get(&DataKey::Balance(id)).unwrap_or(0)"),
                (26, "    }"),
                (28, "    pub fn transfer(env: Env, from: Address, to: Address, amount: i128) {"),
                (29, "        let fb: i128 = env.storage().persistent().get(&DataKey::Balance(from.clone())).unwrap_or(0);"),
                (30, "        let tb: i128 = env.storage().persistent().get(&DataKey::Balance(to.clone())).unwrap_or(0);"),
                (31, "        env.storage().persistent().set(&DataKey::Balance(from), &(fb - amount));"),
                (32, "        env.storage().persistent().set(&DataKey::Balance(to), &(tb + amount));"),
                (33, "    }"),
            ],
        ]
        .concat(),
        "instance_trap" => [
            CONSTRUCTOR.to_vec(),
            vec![
                (24, "    pub fn deposit(env: Env, user: Address, amount: i128) {"),
                (25, "        let cur: i128 = env.storage().instance().get(&DataKey::Balance(user.clone())).unwrap_or(0);"),
                (26, "        env.storage().instance().set(&DataKey::Balance(user), &(cur + amount));"),
                (27, "    }"),
                (30, "    pub fn withdraw(env: Env, user: Address, amount: i128) {"),
                (31, "        let cur: i128 = env.storage().instance().get(&DataKey::Balance(user.clone())).unwrap_or(0);"),
                (32, "        env.storage().instance().set(&DataKey::Balance(user), &(cur - amount));"),
                (33, "    }"),
            ],
        ]
        .concat(),
        "global_supply" => [
            CONSTRUCTOR.to_vec(),
            vec![
                (24, "    pub fn mint(env: Env, to: Address, amount: i128) {"),
                (25, "        let bal: i128 = env.storage().persistent().get(&DataKey::Balance(to.clone())).unwrap_or(0);"),
                (26, "        env.storage().persistent().set(&DataKey::Balance(to), &(bal + amount));"),
                (27, "        let supply: i128 = env.storage().persistent().get(&DataKey::TotalSupply).unwrap_or(0);"),
                (28, "        env.storage().persistent().set(&DataKey::TotalSupply, &(supply + amount));"),
                (29, "    }"),
                (31, "    pub fn burn(env: Env, from: Address, amount: i128) {"),
                (32, "        let bal: i128 = env.storage().persistent().get(&DataKey::Balance(from.clone())).unwrap_or(0);"),
                (33, "        env.storage().persistent().set(&DataKey::Balance(from), &(bal - amount));"),
                (34, "        let supply: i128 = env.storage().persistent().get(&DataKey::TotalSupply).unwrap_or(0);"),
                (35, "        env.storage().persistent().set(&DataKey::TotalSupply, &(supply - amount));"),
                (36, "    }"),
                (38, "    pub fn set_fee(env: Env, bps: u32) {"),
                (39, "        env.storage().persistent().set(&DataKey::FeeBps, &bps);"),
                (40, "    }"),
                (42, "    pub fn quote(env: Env, amount: i128) -> i128 {"),
                (43, "        let bps: i128 = env.storage().persistent().get(&DataKey::FeeBps).unwrap_or(0);"),
                (44, "        amount * bps"),
                (45, "    }"),
            ],
        ]
        .concat(),
        "good_registry" => [
            CONSTRUCTOR.to_vec(),
            vec![
                (24, "    pub fn register(env: Env, owner: Address, name: Symbol, record: Record) {"),
                (25, "        env.storage().persistent().set(&DataKey::Record(owner, name), &record);"),
                (26, "    }"),
                (28, "    pub fn lookup(env: Env, owner: Address, name: Symbol) -> Option<Record> {"),
                (29, "        env.storage().persistent().get(&DataKey::Record(owner, name))"),
                (30, "    }"),
            ],
        ]
        .concat(),
        other => panic!("no fixture {other}"),
    };
    lines.extend(body);
    lines.push((60, "}"));
    at(&lines)
}

fn run_source(name: &str) -> Report {
    let files = vec![(format!("fixtures/{name}/src/lib.rs"), Ok(source_text(name)))];
    let (report, errors) = analyze_sources(&format!("fixtures/{name}"), &files).expect("columns fit");
    assert!(errors.is_empty(), "{name}: parse errors: {errors:?}");
    report
}

/// What a report says, leaving out the columns, which the hand-built trees
/// do not give as the parser does.
fn gist(r: &Report) -> Vec<String> {
    let mut out: Vec<String> = r
        .findings
        .iter()
        .map(|f| {
            format!(
                "{:?} {} {} {} {} {:?} {:?} {:?} | {} | {} | {:?}",
                f.severity,
                f.access.function,
                f.access.line,
                f.access.key_expr,
                f.access.key_root,
                f.access.class,
                f.access.durability,
                f.access.access,
                f.summary,
                f.remediation,
                f.also_touched_by
            )
        })
        .collect();
    out.extend(r.conflict_edges.iter().map(|e| format!("{} <-> {} {} {}", e.a, e.b, e.key_root, e.reason)));
    out.push(format!("{:?} {:?}", r.parallel_safe_entry_points, r.self_conflicting_entry_points));
    let s = &r.summary;
    out.push(format!(
        "{} {} {} {} {} {} {}",
        s.files_scanned, s.functions_scanned, s.accesses_found, s.entry_points, s.critical, s.warning, s.info
    ));
    out
}

#[test]
fn source_texts_report_like_the_trees() {
    for fixture in ["hot_counter", "clean_token", "instance_trap", "global_supply", "good_registry"] {
        assert_eq!(gist(&run_source(fixture)), gist(&run(fixture)), "{fixture}");
    }
}

#[test]
fn hot_counter_from_source_flags_the_shared_counter_write() {
    let r = run_source("hot_counter");
    assert_eq!(severities(&r, Severity::Critical), vec!["create_job"]);
    let crit = &r.findings[0];
    assert_eq!((crit.access.line, crit.access.column), (27, 36));
    assert_eq!(crit.access.key_expr, "DataKey::Seq");
    let job = r.findings.iter().find(|f| f.access.key_root == "DataKey::Job").unwrap();
    assert!(matches!(&job.access.class, KeyClass::SequenceDerived { counter } if counter == "DataKey::Seq"));
}

#[test]
fn instance_trap_from_source_conflicts_on_the_instance() {
    let r = run_source("instance_trap");
    assert_eq!(severities(&r, Severity::Critical), vec!["deposit", "withdraw"]);
    assert_eq!(r.conflict_edges.len(), 1);
    assert_eq!(r.conflict_edges[0].key_root, INSTANCE_DOMAIN);
    assert_eq!(r.exit_code(Some(Severity::Warning)), 1);
}

#[test]
fn clean_sources_have_nothing_actionable() {
    for fixture in ["clean_token", "good_registry"] {
        let r = run_source(fixture);
        assert!(r.findings.iter().all(|f| f.severity == Severity::Info), "{fixture}");
        assert!(r.conflict_edges.is_empty(), "{fixture}");
        assert_eq!(r.exit_code(Some(Severity::Warning)), 0);
    }
}
