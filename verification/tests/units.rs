//! Tests of the library's pieces on concrete values: the model, the text
//! helpers, the syntactic scan, the report operations and both renderers.

use braid::parse::{
    arg_origin, collect_pat_idents, decompose_key, param_names, path_string, scan, should_scan,
    storage_target, strip_refs, tokens_to_string, ArgOrigin, FunctionInfo, LetBinding, RawAccess,
    ScanResult,
};
use braid::render_html::{a_sev, esc};
use braid::syntax::{Expression, FnDecl, FileItem, LetStmt, Node, Pattern, SourceFile};
use braid::text::{
    chars_of, decimal_string, join, lower_ascii, lt, owned, replace, same, starts_with, string_of,
};
use braid::parse::scan_sources;
use braid::{
    analyze, analyze_path, analyze_sources, attach_source, fail_on_threshold, hide_info, recount, render_html, render_text, Access,
    ConflictEdge, Durability, Finding, KeyClass, Report, Severity, SourceLine, StorageAccess,
    Summary, SCHEMA_VERSION,
};

fn path(segs: &[&str]) -> Expression {
    Expression::Path { pre: vec![], segments: segs.iter().map(|s| s.to_string()).collect(), tokens: segs.join(" :: ") }
}

fn method(receiver: Expression, name: &str, args: Vec<Expression>, tokens: &str) -> Expression {
    Expression::MethodCall {
        pre: vec![],
        mid: vec![],
        receiver: Box::new(receiver),
        method: name.to_string(),
        args,
        line: 7,
        column: 30,
        tokens: tokens.to_string(),
    }
}

fn chain(durability: &str) -> Expression {
    let st = method(path(&["env"]), "storage", vec![], "env . storage ()");
    method(st, durability, vec![], "env . storage () . x ()")
}

fn access(function: &str, severity_class: KeyClass, acc: Access, d: Durability) -> StorageAccess {
    StorageAccess {
        file: "src/lib.rs".to_string(),
        line: 5,
        column: 9,
        function: function.to_string(),
        entry_point: true,
        admin_path: false,
        durability: d,
        access: acc,
        key_expr: "DataKey::Total".to_string(),
        key_root: "DataKey::Total".to_string(),
        class: severity_class,
    }
}

fn finding(severity: Severity, function: &str, line: usize) -> Finding {
    let mut a = access(function, KeyClass::Static, Access::Write, Durability::Persistent);
    a.line = line;
    Finding {
        severity,
        access: a,
        summary: "writes <Total> & \"more\"".to_string(),
        remediation: "shard it\nthen sum".to_string(),
        also_touched_by: vec![],
        context: vec![],
    }
}

fn report(findings: Vec<Finding>) -> Report {
    Report {
        schema_version: SCHEMA_VERSION,
        target: "demo".to_string(),
        summary: Summary {
            files_scanned: 1,
            functions_scanned: 2,
            accesses_found: 3,
            entry_points: 2,
            critical: 0,
            warning: 0,
            info: 0,
        },
        findings,
        conflict_edges: vec![],
        parallel_safe_entry_points: vec![],
        self_conflicting_entry_points: vec![],
    }
}

// ----- model -------------------------------------------------------------------

#[test]
fn storage_methods_map_to_access_kinds() {
    for m in ["get", "try_get", "has", "extend_ttl", "bump"] {
        assert_eq!(Access::from_method(m), Some(Access::Read), "{m}");
    }
    for m in ["set", "remove", "update"] {
        assert_eq!(Access::from_method(m), Some(Access::Write), "{m}");
    }
    assert_eq!(Access::from_method("push"), None);
    assert_eq!(Access::from_method("GET"), None);
}

#[test]
fn names_print_as_the_report_shows_them() {
    assert_eq!(KeyClass::Static.label(), "static");
    assert_eq!(KeyClass::SubjectDerived { param: "a".into() }.label(), "subject-derived");
    assert_eq!(KeyClass::SequenceDerived { counter: "c".into() }.label(), "sequence-derived");
    assert_eq!(KeyClass::Unresolvable { reason: "r".into() }.label(), "unresolvable");
    assert_eq!(Severity::Critical.label(), "critical");
    assert_eq!(Severity::Warning.label(), "warning");
    assert_eq!(Severity::Info.label(), "info");
    assert_eq!(Durability::Temporary.as_str(), "temporary");
    assert_eq!(Durability::Instance.as_str(), "instance");
    assert_eq!(Access::Write.as_str(), "write");
    assert_eq!(Severity::Warning.rank(), 1);
}

#[test]
fn severity_parses_ignoring_case_and_short_forms() {
    assert_eq!(Severity::parse("critical"), Some(Severity::Critical));
    assert_eq!(Severity::parse("CRIT"), Some(Severity::Critical));
    assert_eq!(Severity::parse("Warn"), Some(Severity::Warning));
    assert_eq!(Severity::parse("warning"), Some(Severity::Warning));
    assert_eq!(Severity::parse("INFO"), Some(Severity::Info));
    assert_eq!(Severity::parse("none"), None);
    assert_eq!(Severity::parse(""), None);
    for s in [Severity::Info, Severity::Warning, Severity::Critical] {
        assert_eq!(Severity::parse(s.label()), Some(s));
    }
}

#[test]
fn fail_on_values_name_a_threshold() {
    assert_eq!(fail_on_threshold(None), Ok(None));
    assert_eq!(fail_on_threshold(Some("none")), Ok(None));
    assert_eq!(fail_on_threshold(Some("Critical")), Ok(Some(Severity::Critical)));
    assert_eq!(fail_on_threshold(Some("warn")), Ok(Some(Severity::Warning)));
    assert_eq!(
        fail_on_threshold(Some("NONE")),
        Err("unknown severity `NONE` \u{2014} use critical, warning, info, or none".to_string())
    );
    assert!(fail_on_threshold(Some("high")).is_err());
}

#[test]
fn worst_severity_and_exit_codes() {
    let empty = report(vec![]);
    assert_eq!(empty.worst_severity(), None);
    assert_eq!(empty.exit_code(Some(Severity::Info)), 0);
    let r = report(vec![finding(Severity::Info, "a", 1), finding(Severity::Warning, "b", 2)]);
    assert_eq!(r.worst_severity(), Some(Severity::Warning));
    assert_eq!(r.exit_code(Some(Severity::Info)), 1);
    assert_eq!(r.exit_code(Some(Severity::Warning)), 1);
    assert_eq!(r.exit_code(Some(Severity::Critical)), 0);
    assert_eq!(r.exit_code(None), 0);
}

#[test]
fn summary_defaults_to_zero() {
    let s = Summary::default();
    assert_eq!(s, Summary {
        files_scanned: 0,
        functions_scanned: 0,
        accesses_found: 0,
        entry_points: 0,
        critical: 0,
        warning: 0,
        info: 0,
    });
}

// ----- text --------------------------------------------------------------------

#[test]
fn text_helpers() {
    assert_eq!(decimal_string(0), "0");
    assert_eq!(decimal_string(4072), "4072");
    assert_eq!(join(&vec!["a".to_string(), "b".to_string(), "c".to_string()], ", "), "a, b, c");
    assert_eq!(join(&vec![], ", "), "");
    assert_eq!(lower_ascii("MiXeD-Ä"), "mixed-Ä");
    assert_eq!(replace("a::b::c", "::", "."), "a.b.c");
    assert_eq!(replace("aaa", "aa", "b"), "ba");
    assert!(same("abc", "abc"));
    assert!(!same("abc", "abd"));
    assert!(lt("abc", "abd"));
    assert!(lt("ab", "abc"));
    assert!(!lt("b", "abc"));
    assert!(!lt("x", "x"));
    assert!(starts_with("set_fee", "set_"));
    assert!(!starts_with("se", "set_"));
    assert_eq!(owned("x"), "x");
    assert_eq!(chars_of("hé"), vec!['h', 'é']);
    assert_eq!(string_of(&vec!['o', 'k', '!']), "ok!");
}

// ----- scan ----------------------------------------------------------------------

#[test]
fn token_text_is_tidied() {
    let e = Expression::Call {
        pre: vec![],
        func: Box::new(path(&["DataKey", "Balance"])),
        args: vec![path(&["addr"])],
        tokens: "DataKey :: Balance (addr . clone () , x)".to_string(),
    };
    assert_eq!(tokens_to_string(&e), "DataKey::Balance(addr.clone(), x)");
    assert_eq!(path_string(&vec!["DataKey".to_string(), "Admin".to_string()]), "DataKey::Admin");
}

#[test]
fn keys_decompose_into_root_and_origins() {
    let inner = Expression::Call {
        pre: vec![],
        func: Box::new(path(&["DataKey", "Balance"])),
        args: vec![method(path(&["addr"]), "clone", vec![], "addr . clone ()"), path(&["Kind", "A"])],
        tokens: "DataKey :: Balance (addr . clone () , Kind :: A)".to_string(),
    };
    let key = Expression::Reference { pre: vec![], inner: Box::new(inner), tokens: "& DataKey :: Balance (..)".to_string() };
    let stripped = strip_refs(&key);
    let (root, args) = decompose_key(stripped);
    assert_eq!(root, "DataKey::Balance");
    assert_eq!(args.len(), 2);
    assert!(matches!(&args[0], ArgOrigin::Ident(n) if n == "addr"));
    assert!(matches!(&args[1], ArgOrigin::Opaque(t) if t == "Kind::A"));

    let (root, args) = decompose_key(&Expression::Macro { pre: vec![], tokens: "symbol_short ! (\"bal\")".to_string() });
    assert_eq!(root, "symbol_short !(\"bal\")");
    assert!(args.is_empty());

    let seq = method(path(&["env"]), "ledger", vec![], "env . ledger ()");
    assert!(matches!(arg_origin(&seq), ArgOrigin::Opaque(t) if t == "env.ledger()"));
}

#[test]
fn only_storage_chains_are_storage_targets() {
    let set = method(chain("persistent"), "set", vec![path(&["k"])], "..");
    assert_eq!(storage_target(&set), Some((Durability::Persistent, Access::Write)));
    let get = method(chain("instance"), "get", vec![path(&["k"])], "..");
    assert_eq!(storage_target(&get), Some((Durability::Instance, Access::Read)));
    let map_get = method(path(&["map"]), "get", vec![path(&["k"])], "map . get (k)");
    assert_eq!(storage_target(&map_get), None);
    let other = method(chain("persistent"), "len", vec![], "..");
    assert_eq!(storage_target(&other), None);
    let not_storage = method(method(path(&["env"]), "events", vec![], "env . events ()"), "temporary", vec![], "..");
    assert_eq!(storage_target(&method(not_storage, "set", vec![], "..")), None);
}

#[test]
fn patterns_bind_each_name_once() {
    let p = Pattern::Tuple(vec![
        Pattern::Ident("a".into()),
        Pattern::Reference(Box::new(Pattern::Ident("b".into()))),
        Pattern::Or(vec![Pattern::Ident("a".into()), Pattern::Other]),
    ]);
    let mut out = vec![];
    collect_pat_idents(&p, &mut out);
    assert_eq!(out, vec!["a".to_string(), "b".to_string()]);
    let params = param_names(&vec![Pattern::Type(Box::new(Pattern::Ident("env".into()))), Pattern::Struct(vec![Pattern::Ident("x".into())])]);
    assert_eq!(params, vec!["env".to_string(), "x".to_string()]);
}

#[test]
fn admin_paths_are_recognised_by_prefix() {
    let f = |name: &str| FunctionInfo {
        name: name.to_string(),
        file: "f.rs".to_string(),
        line: 1,
        entry_point: true,
        params: vec![],
        lets: vec![],
        accesses: vec![],
    };
    assert!(f("set_fee").is_admin_path());
    assert!(f("initialize").is_admin_path());
    assert!(f("upgrade").is_admin_path());
    assert!(f("pause_all").is_admin_path());
    assert!(!f("transfer").is_admin_path());
    assert!(!f("reset").is_admin_path());
}

#[test]
fn build_output_and_other_languages_are_not_scanned() {
    let c = |v: &[&str]| v.iter().map(|s| s.to_string()).collect::<Vec<_>>();
    assert!(should_scan(Some("rs"), &c(&["src", "lib.rs"])));
    assert!(!should_scan(Some("toml"), &c(&["Cargo.toml"])));
    assert!(!should_scan(None, &c(&["Makefile"])));
    assert!(!should_scan(Some("rs"), &c(&["target", "debug", "build.rs"])));
    assert!(!should_scan(Some("rs"), &c(&["node_modules", "x.rs"])));
}

#[test]
fn scan_records_functions_lets_and_accesses() {
    let key = Expression::Call {
        pre: vec![],
        func: Box::new(path(&["DataKey", "Item"])),
        args: vec![path(&["n"])],
        tokens: "DataKey :: Item (n)".to_string(),
    };
    let get = Expression::MethodCall {
        pre: vec![],
        mid: vec![],
        receiver: Box::new(chain("temporary")),
        method: "get".to_string(),
        args: vec![Expression::Reference { pre: vec![], inner: Box::new(key), tokens: "& DataKey :: Item (n)".to_string() }],
        line: 12,
        column: 40,
        tokens: "env . storage () . temporary () . get (& DataKey :: Item (n))".to_string(),
    };
    let body = vec![Node::LetStmt(LetStmt {
        pre: vec![],
        pat: Pattern::Ident("n".to_string()),
        line: 11,
        init: Some(Box::new(Expression::Call {
            pre: vec![],
            func: Box::new(path(&["next_id"])),
            args: vec![path(&["env"])],
            tokens: "next_id (env)".to_string(),
        })),
        diverge: None,
    }), Node::Expression(get)];
    let decl = FnDecl { name: "load".to_string(), line: 10, is_pub: true, params: vec![], body };
    let free = FnDecl { name: "helper".to_string(), line: 20, is_pub: true, params: vec![], body: vec![] };
    let qualified = FnDecl { name: "other".to_string(), line: 30, is_pub: true, params: vec![], body: vec![] };
    let files = vec![SourceFile {
        path: "src/lib.rs".to_string(),
        items: Ok(vec![
            FileItem::Impl { attrs: vec![vec!["doc".to_string()], vec!["contractimpl".to_string()]], fns: vec![decl] },
            FileItem::Fn(free),
            FileItem::Impl {
                attrs: vec![vec!["soroban_sdk".to_string(), "contractimpl".to_string()]],
                fns: vec![qualified],
            },
        ]),
    }];
    let s = scan(&files);
    assert_eq!(s.files_scanned, 1);
    assert_eq!(s.functions.len(), 3);
    assert!(!s.functions[2].entry_point, "only a bare `contractimpl` attribute marks a contract impl");
    let f = &s.functions[0];
    assert_eq!(f.name, "load");
    assert!(f.entry_point);
    assert_eq!(f.lets.len(), 1);
    assert_eq!(f.lets[0].name, "n");
    assert_eq!(f.lets[0].from_call.as_deref(), Some("next_id"));
    assert_eq!(f.lets[0].from_storage_key, None);
    assert_eq!(f.accesses.len(), 1);
    let a = &f.accesses[0];
    assert_eq!((a.line, a.column), (12, 41));
    assert_eq!(a.durability, Durability::Temporary);
    assert_eq!(a.access, Access::Read);
    assert_eq!(a.key_expr, "DataKey::Item(n)");
    assert_eq!(a.key_root, "DataKey::Item");
    assert!(s.functions[1].entry_point, "a public free function in a contract crate is an entry point");

    let (r, _) = analyze_path("t", &files);
    assert_eq!(r.summary.accesses_found, 1);
    match &r.findings.len() {
        0 => {}
        n => panic!("a temporary read keyed by an unbound local is not reported, got {n}"),
    }
}

#[test]
fn instance_ttl_bump_is_an_instance_read() {
    let bump = Expression::MethodCall {
        pre: vec![],
        mid: vec![],
        receiver: Box::new(chain("instance")),
        method: "extend_ttl".to_string(),
        args: vec![],
        line: 3,
        column: 4,
        tokens: "env . storage () . instance () . extend_ttl ()".to_string(),
    };
    let decl = FnDecl { name: "bump".to_string(), line: 2, is_pub: true, params: vec![], body: vec![Node::Expression(bump)] };
    let files = vec![SourceFile {
        path: "a.rs".to_string(),
        items: Ok(vec![FileItem::Impl { attrs: vec![vec!["contractimpl".to_string()]], fns: vec![decl] }]),
    }];
    let s = scan(&files);
    let a = &s.functions[0].accesses[0];
    assert_eq!(a.key_expr, "<contract instance>");
    assert_eq!(a.key_root, "<instance>");
    assert_eq!(a.access, Access::Read);
    assert!(a.key_args.is_empty());
}

// ----- report operations --------------------------------------------------------

#[test]
fn recount_and_hide_info() {
    let mut r = report(vec![
        finding(Severity::Critical, "a", 1),
        finding(Severity::Info, "b", 2),
        finding(Severity::Warning, "c", 3),
        finding(Severity::Info, "d", 4),
    ]);
    recount(&mut r);
    assert_eq!((r.summary.critical, r.summary.warning, r.summary.info), (1, 1, 2));
    hide_info(&mut r);
    let names: Vec<&str> = r.findings.iter().map(|f| f.access.function.as_str()).collect();
    assert_eq!(names, vec!["a", "c"]);
    assert_eq!((r.summary.critical, r.summary.warning, r.summary.info), (1, 1, 0));
    assert_eq!(r.summary.files_scanned, 1);
}

#[test]
fn source_context_is_attached_around_the_line() {
    let mut r = report(vec![finding(Severity::Critical, "a", 2), finding(Severity::Warning, "b", 9)]);
    r.findings[1].access.file = "other.rs".to_string();
    let lines: Vec<String> = (1..=6).map(|n| format!("line {n}")).collect();
    let sources = vec![("src/lib.rs".to_string(), lines)];
    attach_source(&mut r, 1, &sources);
    let ctx: Vec<(usize, &str, bool)> =
        r.findings[0].context.iter().map(|l: &SourceLine| (l.number, l.text.as_str(), l.hit)).collect();
    assert_eq!(ctx, vec![(1, "line 1", false), (2, "line 2", true), (3, "line 3", false)]);
    assert!(r.findings[1].context.is_empty(), "a file without lines gets no context");
}

// ----- rendering -------------------------------------------------------------------

#[test]
fn html_escapes_markup() {
    assert_eq!(esc("a<b> & \"c\""), "a&lt;b&gt; &amp; &quot;c&quot;");
    assert_eq!(esc("&lt;"), "&amp;lt;");
    assert_eq!(a_sev(Severity::Critical), "critical");
    assert_eq!(a_sev(Severity::Info), "info");
}

#[test]
fn html_report_shows_findings_sources_and_sections() {
    let mut r = report(vec![finding(Severity::Critical, "mint", 3)]);
    r.findings[0].also_touched_by = vec!["burn".to_string()];
    r.conflict_edges.push(ConflictEdge {
        a: "burn".to_string(),
        b: "mint".to_string(),
        key_root: "DataKey::Total".to_string(),
        reason: "static key".to_string(),
    });
    r.parallel_safe_entry_points = vec!["quote".to_string()];
    recount(&mut r);
    let lines: Vec<String> = (1..=4).map(|n| format!("let x{n} = a < b;")).collect();
    let html = render_html::render(&r, &vec![("src/lib.rs".to_string(), lines)]);
    assert!(html.starts_with("<!doctype html>"));
    assert!(html.contains("<title>Braid — demo</title>"));
    assert!(html.contains("1 file(s) · 2 function(s) · 2 entry point(s) · 3 storage access(es)"));
    assert!(html.contains("data-sev=\"critical\">1 critical</button>"));
    assert!(html.contains("<article class=\"finding critical\" data-sev=\"critical\">"));
    assert!(html.contains("<span class=\"loc\">src/lib.rs:3:9</span>"));
    assert!(html.contains("<p class=\"summary\">writes &lt;Total&gt; &amp; &quot;more&quot;</p>"));
    assert!(html.contains("<span class=\"tag\">persistent write</span><span class=\"tag\">static</span><span class=\"tag\">entry point</span>"));
    assert!(html.contains("<span class=\"ln\"><span class=\"no\">1</span>let x1 = a &lt; b;</span>"));
    assert!(html.contains("<span class=\"ln hit\"><span class=\"no\">3</span>"));
    assert!(html.contains("<span class=\"no\">4</span>"));
    assert!(html.contains("touched by: <span class=\"loc\">burn</span>"));
    assert!(html.contains("<details><summary>How to fix this</summary><pre>shard it\nthen sum</pre></details>"));
    assert!(html.contains("<tr><td class=\"m\">burn</td><td class=\"m\">mint</td><td>static key</td></tr>"));
    assert!(html.contains("<p class=\"loc pass\">quote</p>"));
    assert!(html.ends_with("</html>\n"));
    assert!(!html.contains("No conflicts found."));
}

#[test]
fn html_report_without_findings_says_so() {
    let html = render_html::render(&report(vec![]), &vec![]);
    assert!(html.contains("No conflicts found."));
    assert!(!html.contains("<article"));
    assert!(!html.contains("<table>"));
}

#[test]
fn text_report_without_findings_passes() {
    let out = render_text::render(&report(vec![]), false);
    assert_eq!(
        out,
        "\nbraid \u{2014} demo\n1 file(s), 2 function(s), 2 entry point(s), 3 storage access(es)\n\n  PASS no conflicts found \u{2014} every mutable entry is keyed by caller input\n\n"
    );
}

#[test]
fn text_report_lists_findings_with_fixes() {
    let mut r = report(vec![finding(Severity::Critical, "mint", 3), finding(Severity::Info, "quote", 8)]);
    r.findings[0].also_touched_by = vec!["burn".to_string(), "swap".to_string()];
    r.parallel_safe_entry_points = vec!["quote".to_string()];
    recount(&mut r);
    let out = render_text::render(&r, false);
    let expected = [
        "\nbraid \u{2014} demo\n1 file(s), 2 function(s), 2 entry point(s), 3 storage access(es)\n",
        "\n  1 critical  0 warning  1 info\n\n",
        "critical src/lib.rs:3:9  in mint()\n",
        "         writes <Total> & \"more\"\n",
        "         persistent write \u{b7} key class: static\n",
        "         same ledger entry is also touched by: burn, swap\n",
        "\n",
        "         shard it\n",
        "         then sum\n",
        "\n",
        "info     src/lib.rs:8:9  in quote()\n",
        "         writes <Total> & \"more\"\n",
        "         persistent write \u{b7} key class: static\n",
        "\nParallel-safe entry points: quote\n\n",
    ]
    .concat();
    assert_eq!(out, expected);
    let coloured = render_text::render(&r, true);
    assert!(coloured.contains("\x1b[1;31mcritical\x1b[0m"));
    assert!(coloured.contains("\x1b[1msrc/lib.rs:3:9\x1b[0m"));
}

// ----- classification on a scan built by hand -----------------------------------------

fn raw(line: usize, durability: Durability, acc: Access, root: &str, args: Vec<ArgOrigin>) -> RawAccess {
    RawAccess {
        line,
        column: 5,
        durability,
        access: acc,
        key_expr: root.to_string(),
        key_root: root.to_string(),
        key_args: args,
    }
}

fn entry(name: &str, params: &[&str], lets: Vec<LetBinding>, accesses: Vec<RawAccess>) -> FunctionInfo {
    FunctionInfo {
        name: name.to_string(),
        file: "c.rs".to_string(),
        line: 1,
        entry_point: true,
        params: params.iter().map(|p| p.to_string()).collect(),
        lets,
        accesses,
    }
}

fn scanned(functions: Vec<FunctionInfo>) -> ScanResult {
    ScanResult { functions, files_scanned: 1, parse_errors: vec![] }
}

#[test]
fn temporary_storage_is_judged_like_persistent() {
    for d in [Durability::Temporary, Durability::Persistent] {
        let s = scanned(vec![entry("bump", &[], vec![], vec![raw(3, d, Access::Write, "DataKey::Hits", vec![])])]);
        let r = analyze("t", &s);
        assert_eq!(r.findings.len(), 1);
        assert_eq!(r.findings[0].severity, Severity::Critical);
    }
}

#[test]
fn one_minted_argument_makes_the_key_sequence_derived() {
    let minted = LetBinding {
        name: "id".to_string(),
        line: 2,
        from_storage_key: None,
        from_call: Some("next_id".to_string()),
    };
    let counter = entry(
        "next_id",
        &[],
        vec![],
        vec![
            raw(10, Durability::Persistent, Access::Read, "DataKey::Next", vec![]),
            raw(11, Durability::Persistent, Access::Write, "DataKey::Next", vec![]),
        ],
    );
    let mut counter = counter;
    counter.entry_point = false;
    let user = entry(
        "open",
        &["owner"],
        vec![minted],
        vec![raw(
            3,
            Durability::Persistent,
            Access::Write,
            "DataKey::Slot",
            vec![ArgOrigin::Ident("owner".to_string()), ArgOrigin::Ident("id".to_string())],
        )],
    );
    let r = analyze("t", &scanned(vec![counter, user]));
    let f = r.findings.iter().find(|f| f.access.key_root == "DataKey::Slot").unwrap();
    match &f.access.class {
        KeyClass::SequenceDerived { counter } => assert_eq!(counter, "DataKey::Next (via next_id())"),
        other => panic!("expected sequence-derived, got {other:?}"),
    }
    assert_eq!(f.severity, Severity::Warning);
}

#[test]
fn unattributed_arguments_are_never_taken_for_safe() {
    let user = entry(
        "store",
        &["owner"],
        vec![],
        vec![raw(
            3,
            Durability::Persistent,
            Access::Write,
            "DataKey::Slot",
            vec![ArgOrigin::Ident("owner".to_string()), ArgOrigin::Opaque("env.ledger().sequence()".to_string())],
        )],
    );
    let r = analyze("t", &scanned(vec![user]));
    assert_eq!(r.findings.len(), 1);
    match &r.findings[0].access.class {
        KeyClass::Unresolvable { reason } => {
            assert_eq!(reason, "`env.ledger().sequence()` does not reduce to a named binding")
        }
        other => panic!("expected unresolvable, got {other:?}"),
    }
    assert_eq!(r.findings[0].severity, Severity::Warning);
}

#[test]
fn subject_keys_outside_instance_storage_are_never_reported() {
    let user = entry(
        "save",
        &["owner"],
        vec![],
        vec![raw(3, Durability::Persistent, Access::Write, "DataKey::Slot", vec![ArgOrigin::Ident("owner".to_string())])],
    );
    let other = entry(
        "load",
        &["owner"],
        vec![],
        vec![raw(7, Durability::Persistent, Access::Read, "DataKey::Slot", vec![ArgOrigin::Ident("owner".to_string())])],
    );
    let r = analyze("t", &scanned(vec![user, other]));
    assert!(r.findings.is_empty());
    assert!(r.conflict_edges.is_empty());
    assert_eq!(r.parallel_safe_entry_points, vec!["load".to_string(), "save".to_string()]);
}

#[test]
fn hiding_info_keeps_warning_and_critical_exit_codes() {
    let mut r = report(vec![finding(Severity::Info, "a", 1), finding(Severity::Warning, "b", 2)]);
    let before: Vec<i32> = [Some(Severity::Warning), Some(Severity::Critical)].iter().map(|t| r.exit_code(*t)).collect();
    assert_eq!(r.exit_code(Some(Severity::Info)), 1);
    hide_info(&mut r);
    let after: Vec<i32> = [Some(Severity::Warning), Some(Severity::Critical)].iter().map(|t| r.exit_code(*t)).collect();
    assert_eq!(before, after);
    assert_eq!(after, vec![1, 0]);
    assert!(r.findings.iter().all(|f| f.severity != Severity::Info));
}

// ----- from source text --------------------------------------------------------------

const HOT_COUNTER: &str = r#"use soroban_sdk::{contract, contractimpl, Env};

#[contract]
pub struct Registry;

#[contractimpl]
impl Registry {
    pub fn create_job(env: Env, job: u64) -> u64 {
        let id: u64 = env.storage().persistent().get(&DataKey::Seq).unwrap_or(0);
        env.storage().persistent().set(&DataKey::Seq, &(id + 1));
        env.storage().persistent().set(&DataKey::Job(id), &job);
        id
    }
}

pub fn helper(env: Env, who: Address) {
    env.storage().temporary().set(&DataKey::Seen(who.clone()), &true);
}
"#;

#[test]
fn source_text_is_parsed_and_scanned() {
    let files = vec![
        ("src/lib.rs".to_string(), Ok(HOT_COUNTER.to_string())),
        ("src/broken.rs".to_string(), Ok("fn (".to_string())),
        ("src/gone.rs".to_string(), Err("No such file or directory".to_string())),
    ];
    let s = scan_sources(&files).expect("columns fit");
    assert_eq!(s.files_scanned, 1);
    assert_eq!(s.parse_errors.len(), 2);
    assert_eq!(s.parse_errors[0].0, "src/broken.rs");
    assert_eq!(s.parse_errors[1], ("src/gone.rs".to_string(), "No such file or directory".to_string()));
    assert_eq!(s.functions.len(), 2);
    let f = &s.functions[0];
    assert_eq!((f.name.as_str(), f.line, f.entry_point), ("create_job", 8, true));
    assert_eq!(f.params, vec!["env".to_string(), "job".to_string()]);
    assert_eq!(f.lets.len(), 1);
    assert_eq!(f.lets[0].from_storage_key.as_deref(), Some("DataKey::Seq"));
    assert_eq!(f.accesses.len(), 3);
    let a = &f.accesses[0];
    assert_eq!((a.line, a.column), (9, 50));
    assert_eq!(a.access, Access::Read);
    assert_eq!(a.key_expr, "DataKey::Seq");
    let job = &f.accesses[2];
    assert_eq!(job.key_expr, "DataKey::Job(id)");
    assert_eq!(job.key_root, "DataKey::Job");
    let h = &s.functions[1];
    assert_eq!(h.name, "helper");
    assert!(h.entry_point, "a public free function in a contract crate is an entry point");
    assert_eq!(h.accesses[0].key_expr, "DataKey::Seen(who.clone())");
    assert!(matches!(&h.accesses[0].key_args[0], ArgOrigin::Ident(n) if n == "who"));
}

#[test]
fn source_text_reports_like_the_tree() {
    let files = vec![("src/lib.rs".to_string(), Ok(HOT_COUNTER.to_string()))];
    let (r, errors) = analyze_sources("demo", &files).expect("columns fit");
    assert!(errors.is_empty());
    let crit: Vec<&str> = r
        .findings
        .iter()
        .filter(|f| f.severity == Severity::Critical)
        .map(|f| f.access.function.as_str())
        .collect();
    assert_eq!(crit, vec!["create_job"]);
    let job = r.findings.iter().find(|f| f.access.key_root == "DataKey::Job").unwrap();
    assert!(matches!(&job.access.class, KeyClass::SequenceDerived { counter } if counter == "DataKey::Seq"));
    // `helper` writes a per-caller temporary key: parallel-safe.
    assert!(r.parallel_safe_entry_points.contains(&"helper".to_string()));
}

const TUCKED_AWAY: &str = r#"#[contractimpl]
impl Odd {
    pub fn odd(env: Env) {
        let v = env.storage().persistent().get::<DataKey, [u8; { env.storage().temporary().get::<DataKey, u8>(&DataKey::InTurbofish); 1 }]>(&DataKey::Outer);
        let w = 0u8 as [u8; { env.storage().instance().set(&DataKey::InCast, &1u8); 1 }];
        let x: [u8; { env.storage().persistent().set(&DataKey::InPattern, &2u8); 1 }] = [0];
        let y = Vec::<[u8; { env.storage().persistent().get::<DataKey, u8>(&DataKey::InPath); 1 }]>::new();
        let z = Point { x: 1, y: [0u8; { env.storage().temporary().set(&DataKey::InField, &3u8); 1 }] };
    }
}
"#;

#[test]
fn accesses_in_generic_arguments_cast_types_and_let_patterns_are_found() {
    let s = scan_sources(&vec![("lib.rs".to_string(), Ok(TUCKED_AWAY.to_string()))]).unwrap();
    let f = &s.functions[0];
    let keys: Vec<&str> = f.accesses.iter().map(|a| a.key_expr.as_str()).collect();
    assert_eq!(
        keys,
        vec![
            "DataKey::Outer",
            "DataKey::InTurbofish",
            "DataKey::InCast",
            "DataKey::InPattern",
            "DataKey::InPath",
            "DataKey::InField"
        ]
    );
    assert_eq!(f.accesses[1].durability, Durability::Temporary);
    assert_eq!(f.accesses[1].line, 4);
    assert_eq!(f.lets[0].from_storage_key.as_deref(), Some("DataKey::Outer"));
    // The read in `y`'s path is found by the search for a key read too.
    let y = f.lets.iter().find(|l| l.name == "y").unwrap();
    assert_eq!(y.from_storage_key.as_deref(), Some("DataKey::InPath"));
}

#[test]
fn free_functions_outside_a_contract_crate_are_not_entry_points() {
    let text = "pub fn helper(env: Env) { env.storage().persistent().set(&DataKey::Total, &1); }";
    let s = scan_sources(&vec![("lib.rs".to_string(), Ok(text.to_string()))]).unwrap();
    assert_eq!(s.functions.len(), 1);
    assert!(!s.functions[0].entry_point);
}

fn without_styles(s: &str) -> String {
    let mut out = String::new();
    let cs: Vec<char> = s.chars().collect();
    let mut i = 0;
    while i < cs.len() {
        if cs[i] == '\x1b' && i + 1 < cs.len() && cs[i + 1] == '[' {
            let mut j = i + 2;
            while j < cs.len() && (cs[j].is_ascii_digit() || cs[j] == ';') {
                j += 1;
            }
            if j < cs.len() && cs[j] == 'm' {
                i = j + 1;
                continue;
            }
        }
        out.push(cs[i]);
        i += 1;
    }
    out
}

#[test]
fn colour_only_adds_style_sequences() {
    let mut r = report(vec![finding(Severity::Critical, "mint", 3), finding(Severity::Info, "quote", 8)]);
    r.findings[0].also_touched_by = vec!["burn".to_string()];
    r.conflict_edges.push(ConflictEdge {
        a: "burn".to_string(),
        b: "mint".to_string(),
        key_root: "DataKey::Total".to_string(),
        reason: "static key".to_string(),
    });
    r.parallel_safe_entry_points = vec!["quote".to_string()];
    recount(&mut r);
    assert_eq!(without_styles(&render_text::render(&r, true)), render_text::render(&r, false));
    let empty = report(vec![]);
    assert_eq!(without_styles(&render_text::render(&empty, true)), render_text::render(&empty, false));
}

#[test]
fn severity_labels_in_upper_case_parse_back() {
    for s in [Severity::Info, Severity::Warning, Severity::Critical] {
        assert_eq!(Severity::parse(&s.label().to_ascii_uppercase()), Some(s));
    }
    assert_eq!(Severity::parse("WARN"), Some(Severity::Warning));
    assert_eq!(Severity::parse("NONE"), None);
}

#[test]
fn colourless_report_holds_no_escape() {
    let mut r = report(vec![finding(Severity::Warning, "mint", 3), finding(Severity::Info, "quote", 8)]);
    r.conflict_edges.push(ConflictEdge {
        a: "burn".to_string(),
        b: "mint".to_string(),
        key_root: "DataKey::Total".to_string(),
        reason: "static key `DataKey::Total`, written by at least one of them".to_string(),
    });
    r.parallel_safe_entry_points = vec!["quote".to_string()];
    recount(&mut r);
    assert!(!render_text::render(&r, false).contains('\x1b'));
    assert!(render_text::render(&r, true).contains('\x1b'));
    assert!(!render_text::render(&report(vec![]), false).contains('\x1b'));
}

#[test]
fn plain_report_lists_findings_fixes_and_edges_in_order() {
    let mut r = report(vec![
        finding(Severity::Critical, "mint", 3),
        finding(Severity::Warning, "burn", 5),
        finding(Severity::Info, "quote", 8),
    ]);
    r.findings[1].remediation = "first line\r\nsecond line\n\nfourth".to_string();
    r.conflict_edges.push(ConflictEdge {
        a: "burn".to_string(),
        b: "mint".to_string(),
        key_root: "DataKey::Total".to_string(),
        reason: "static key `DataKey::Total`, written by at least one of them".to_string(),
    });
    r.conflict_edges.push(ConflictEdge {
        a: "mint".to_string(),
        b: "quote".to_string(),
        key_root: "DataKey::Fee".to_string(),
        reason: "shared key `DataKey::Fee`, written by at least one of them".to_string(),
    });
    recount(&mut r);
    let out = render_text::render(&r, false);
    let at = |s: &str| out.find(s).unwrap_or_else(|| panic!("missing {s:?} in {out}"));
    let mint = at("\ncritical src/lib.rs:3:9  in mint()\n         writes <Total> & \"more\"\n");
    let burn = at("\nwarning  src/lib.rs:5:9  in burn()\n         writes <Total> & \"more\"\n");
    let quote = at("\ninfo     src/lib.rs:8:9  in quote()\n         writes <Total> & \"more\"\n");
    assert!(mint < burn && burn < quote);
    let fix = at("\n         first line\n         second line\n         \n         fourth\n");
    assert!(burn < fix && fix < quote);
    let section = at("\nEntry points that cannot run in parallel\n");
    assert!(quote < section);
    let e1 = at("\n  burn <-> mint   static key `DataKey::Total`, written by at least one of them\n");
    let e2 = at("\n  mint <-> quote   shared key `DataKey::Fee`, written by at least one of them\n");
    assert!(section < e1 && e1 < e2);

    r.conflict_edges.clear();
    let without = render_text::render(&r, false);
    assert!(!without.contains("Entry points that cannot run in parallel"));
    assert!(!without.contains("<->"));
}
