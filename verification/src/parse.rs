//! Source scanning: find every Soroban storage access and the local bindings
//! that feed its key expression.
//!
//! The pass is syntactic. It works on the syntax tree of `crate::syntax`,
//! which holds what the scan reads of a Rust source file, and records what it
//! cannot see as unresolvable rather than guessing.
use vstd::prelude::*;
use crate::model::{method_access, Access, Durability};
use crate::rust_parser::{parse_source, parsed_items};
use crate::syntax::{
    expr_fits, exprs_fit, field_fits, fields_fit, file_fits, fn_fits, item_fits, items_fit,
    items_fit_exec, node_fits, nodes_fit, opt_fits, Expression, FieldInit, FnDecl, FileItem,
    LetStmt, Node, Pattern, SourceFile,
};
use crate::text::{join, owned, replace, replaced, same, seq_join, starts_with, views};

verus! {

/// Where an argument to a key constructor came from, as far as syntax shows.
#[derive(Debug)]
pub enum ArgOrigin {
    /// A named binding: a parameter, or a local we can look up.
    Ident(String),
    /// Something that does not reduce to a name, with the expression text.
    Opaque(String),
}

pub enum ArgOriginView {
    Ident(Seq<char>),
    Opaque(Seq<char>),
}

impl View for ArgOrigin {
    type V = ArgOriginView;

    open spec fn view(&self) -> ArgOriginView {
        match self {
            ArgOrigin::Ident(s) => ArgOriginView::Ident(s@),
            ArgOrigin::Opaque(s) => ArgOriginView::Opaque(s@),
        }
    }
}

/// A storage access site, before classification.
#[derive(Debug)]
pub struct RawAccess {
    pub line: usize,
    pub column: usize,
    pub durability: Durability,
    pub access: Access,
    pub key_expr: String,
    pub key_root: String,
    pub key_args: Vec<ArgOrigin>,
}

pub struct RawAccessView {
    pub line: usize,
    pub column: usize,
    pub durability: Durability,
    pub access: Access,
    pub key_expr: Seq<char>,
    pub key_root: Seq<char>,
    pub key_args: Seq<ArgOriginView>,
}

impl View for RawAccess {
    type V = RawAccessView;

    open spec fn view(&self) -> RawAccessView {
        RawAccessView {
            line: self.line,
            column: self.column,
            durability: self.durability,
            access: self.access,
            key_expr: self.key_expr@,
            key_root: self.key_root@,
            key_args: self.key_args@.map_values(|a: ArgOrigin| a@),
        }
    }
}

pub open spec fn opt_view(o: Option<String>) -> Option<Seq<char>> {
    match o {
        Some(s) => Some(s@),
        None => None,
    }
}

/// A `let` binding, recorded so the analysis can tell whether a key
/// parameter was supplied by the caller or minted from shared state.
#[derive(Debug)]
pub struct LetBinding {
    pub name: String,
    pub line: usize,
    /// Set when the initialiser reads a storage key directly.
    pub from_storage_key: Option<String>,
    /// Set when the initialiser calls a function, which may turn out to be a
    /// counter.
    pub from_call: Option<String>,
}

pub struct LetBindingView {
    pub name: Seq<char>,
    pub line: usize,
    pub from_storage_key: Option<Seq<char>>,
    pub from_call: Option<Seq<char>>,
}

impl View for LetBinding {
    type V = LetBindingView;

    open spec fn view(&self) -> LetBindingView {
        LetBindingView {
            name: self.name@,
            line: self.line,
            from_storage_key: opt_view(self.from_storage_key),
            from_call: opt_view(self.from_call),
        }
    }
}

#[derive(Debug)]
pub struct FunctionInfo {
    pub name: String,
    pub file: String,
    pub line: usize,
    /// A public function inside a `#[contractimpl]` block, or a public free
    /// function in a contract crate.
    pub entry_point: bool,
    /// The names the parameter patterns bind, each once.
    pub params: Vec<String>,
    pub lets: Vec<LetBinding>,
    pub accesses: Vec<RawAccess>,
}

pub struct FunctionInfoView {
    pub name: Seq<char>,
    pub file: Seq<char>,
    pub line: usize,
    pub entry_point: bool,
    pub params: Seq<Seq<char>>,
    pub lets: Seq<LetBindingView>,
    pub accesses: Seq<RawAccessView>,
}

impl View for FunctionInfo {
    type V = FunctionInfoView;

    open spec fn view(&self) -> FunctionInfoView {
        FunctionInfoView {
            name: self.name@,
            file: self.file@,
            line: self.line,
            entry_point: self.entry_point,
            params: views(self.params@),
            lets: self.lets@.map_values(|l: LetBinding| l@),
            accesses: self.accesses@.map_values(|a: RawAccess| a@),
        }
    }
}

/// Whether a function name looks like an administrative or configuration
/// path: it begins with one of these prefixes.
pub open spec fn admin_name(n: Seq<char>) -> bool {
    let p = |s: Seq<char>| s.len() <= n.len() && n.take(s.len() as int) == s;
    ||| p("set_"@)
    ||| p("init"@)
    ||| p("__constructor"@)
    ||| p("initialize"@)
    ||| p("upgrade"@)
    ||| p("migrate"@)
    ||| p("configure"@)
    ||| p("config"@)
    ||| p("pause"@)
    ||| p("unpause"@)
    ||| p("transfer_admin"@)
    ||| p("set_config"@)
    ||| p("rotate"@)
    ||| p("register_asset"@)
}

impl FunctionInfo {
    /// Whether this looks like an administrative or configuration path.
    ///
    /// Heuristic, and it only moves severity between critical and warning,
    /// never between "finding" and "no finding".
    pub fn is_admin_path(&self) -> (r: bool)
        ensures
            r == admin_name(self.name@),
    {
        let n = self.name.as_str();
        starts_with(n, "set_") || starts_with(n, "init") || starts_with(n, "__constructor")
            || starts_with(n, "initialize") || starts_with(n, "upgrade") || starts_with(
            n,
            "migrate",
        ) || starts_with(n, "configure") || starts_with(n, "config") || starts_with(n, "pause")
            || starts_with(n, "unpause") || starts_with(n, "transfer_admin") || starts_with(
            n,
            "set_config",
        ) || starts_with(n, "rotate") || starts_with(n, "register_asset")
    }
}

pub struct ScanResult {
    pub functions: Vec<FunctionInfo>,
    pub files_scanned: usize,
    /// Files that could not be read or parsed, with the reason.
    pub parse_errors: Vec<(String, String)>,
}

pub struct ScanResultView {
    pub functions: Seq<FunctionInfoView>,
    pub files_scanned: usize,
    pub parse_errors: Seq<(Seq<char>, Seq<char>)>,
}

impl View for ScanResult {
    type V = ScanResultView;

    open spec fn view(&self) -> ScanResultView {
        ScanResultView {
            functions: self.functions@.map_values(|f: FunctionInfo| f@),
            files_scanned: self.files_scanned,
            parse_errors: self.parse_errors@.map_values(|e: (String, String)| (e.0@, e.1@)),
        }
    }
}


// ----- reading expressions --------------------------------------------------

/// The token text of an expression.
pub open spec fn tokens_of(e: Expression) -> Seq<char> {
    match e {
        Expression::MethodCall { tokens, .. } => tokens@,
        Expression::Path { tokens, .. } => tokens@,
        Expression::Call { tokens, .. } => tokens@,
        Expression::Struct { tokens, .. } => tokens@,
        Expression::Lit { tokens, .. } => tokens@,
        Expression::Macro { tokens, .. } => tokens@,
        Expression::Tuple { tokens, .. } => tokens@,
        Expression::Reference { tokens, .. } => tokens@,
        Expression::Paren { tokens, .. } => tokens@,
        Expression::Group { tokens, .. } => tokens@,
        Expression::Cast { tokens, .. } => tokens@,
        Expression::Other { tokens, .. } => tokens@,
    }
}

fn tokens_ref(e: &Expression) -> (r: &String)
    ensures
        r@ == tokens_of(*e),
{
    match e {
        Expression::MethodCall { tokens, .. } => tokens,
        Expression::Path { tokens, .. } => tokens,
        Expression::Call { tokens, .. } => tokens,
        Expression::Struct { tokens, .. } => tokens,
        Expression::Lit { tokens, .. } => tokens,
        Expression::Macro { tokens, .. } => tokens,
        Expression::Tuple { tokens, .. } => tokens,
        Expression::Reference { tokens, .. } => tokens,
        Expression::Paren { tokens, .. } => tokens,
        Expression::Group { tokens, .. } => tokens,
        Expression::Cast { tokens, .. } => tokens,
        Expression::Other { tokens, .. } => tokens,
    }
}

/// Token text with the printer's spaces around `::`, brackets, commas and
/// dots taken out, so `DataKey :: Balance (addr)` reads `DataKey::Balance(addr)`.
pub open spec fn tidy(s: Seq<char>) -> Seq<char> {
    let s1 = replaced(s, " :: "@, "::"@);
    let s2 = replaced(s1, " ("@, "("@);
    let s3 = replaced(s2, "( "@, "("@);
    let s4 = replaced(s3, " )"@, ")"@);
    let s5 = replaced(s4, " ,"@, ","@);
    replaced(s5, " . "@, "."@)
}

/// The tidied token text of an expression.
pub fn tokens_to_string(e: &Expression) -> (r: String)
    ensures
        r@ == tidy(tokens_of(*e)),
{
    let t = tokens_ref(e);
    proof {
        reveal_strlit(" :: ");
        reveal_strlit(" (");
        reveal_strlit("( ");
        reveal_strlit(" )");
        reveal_strlit(" ,");
        reveal_strlit(" . ");
    }
    let s1 = replace(t.as_str(), " :: ", "::");
    let s2 = replace(s1.as_str(), " (", "(");
    let s3 = replace(s2.as_str(), "( ", "(");
    let s4 = replace(s3.as_str(), " )", ")");
    let s5 = replace(s4.as_str(), " ,", ",");
    replace(s5.as_str(), " . ", ".")
}

/// The segments of a path joined by `::`.
pub open spec fn path_text(segments: Seq<String>) -> Seq<char> {
    seq_join(views(segments), "::"@)
}

pub fn path_string(segments: &Vec<String>) -> (r: String)
    ensures
        r@ == path_text(segments@),
{
    join(segments, "::")
}

/// The expression inside any references, parentheses and groups.
pub open spec fn strip(e: Expression) -> Expression
    decreases e,
{
    match e {
        Expression::Reference { inner, .. } => strip(*inner),
        Expression::Paren { inner, .. } => strip(*inner),
        Expression::Group { inner, .. } => strip(*inner),
        _ => e,
    }
}

pub fn strip_refs(e: &Expression) -> (r: &Expression)
    ensures
        *r == strip(*e),
    decreases e,
{
    match e {
        Expression::Reference { inner, .. } => strip_refs(inner),
        Expression::Paren { inner, .. } => strip_refs(inner),
        Expression::Group { inner, .. } => strip_refs(inner),
        _ => e,
    }
}

/// Method calls that hand back their receiver's value unchanged, as far as
/// the origin of a key argument goes.
pub open spec fn transparent(method: Seq<char>) -> bool {
    ||| method == "clone"@
    ||| method == "into"@
    ||| method == "to_owned"@
    ||| method == "as_ref"@
    ||| method == "copied"@
    ||| method == "cloned"@
}

/// Where the argument `orig` comes from, looking through references,
/// parentheses, groups, casts and transparent method calls; `e` is what is
/// left of `orig` after the references, parentheses and groups seen so far.
pub open spec fn arg_from(e: Expression, orig: Expression) -> ArgOriginView
    decreases e,
{
    match e {
        Expression::Reference { inner, .. } => arg_from(*inner, orig),
        Expression::Paren { inner, .. } => arg_from(*inner, orig),
        Expression::Group { inner, .. } => arg_from(*inner, orig),
        Expression::Path { segments, .. } => if segments@.len() == 1 {
            ArgOriginView::Ident(segments@[0]@)
        } else {
            ArgOriginView::Opaque(path_text(segments@))
        },
        Expression::MethodCall { receiver, method, .. } => if transparent(method@) {
            arg_from(*receiver, *receiver)
        } else {
            ArgOriginView::Opaque(tidy(tokens_of(orig)))
        },
        Expression::Cast { inner, .. } => arg_from(*inner, *inner),
        _ => ArgOriginView::Opaque(tidy(tokens_of(e))),
    }
}

/// Where an argument to a key constructor comes from.
pub open spec fn arg_origin_of(e: Expression) -> ArgOriginView {
    arg_from(e, e)
}

fn arg_origin_from(e: &Expression, orig: &Expression) -> (r: ArgOrigin)
    ensures
        r@ == arg_from(*e, *orig),
    decreases e,
{
    match e {
        Expression::Reference { inner, .. } => arg_origin_from(inner, orig),
        Expression::Paren { inner, .. } => arg_origin_from(inner, orig),
        Expression::Group { inner, .. } => arg_origin_from(inner, orig),
        Expression::Path { segments, .. } => {
            if segments.len() == 1 {
                ArgOrigin::Ident(segments[0].clone())
            } else {
                ArgOrigin::Opaque(path_string(segments))
            }
        },
        Expression::MethodCall { receiver, method, .. } => {
            let m = method.as_str();
            if same(m, "clone") || same(m, "into") || same(m, "to_owned") || same(m, "as_ref")
                || same(m, "copied") || same(m, "cloned") {
                arg_origin_from(receiver, receiver)
            } else {
                ArgOrigin::Opaque(tokens_to_string(orig))
            }
        },
        Expression::Cast { inner, .. } => arg_origin_from(inner, inner),
        _ => ArgOrigin::Opaque(tokens_to_string(e)),
    }
}

/// Reduce an argument to the name it ultimately comes from.
pub fn arg_origin(e: &Expression) -> (r: ArgOrigin)
    ensures
        r@ == arg_origin_of(*e),
{
    arg_origin_from(e, e)
}

pub open spec fn origins(args: Seq<Expression>) -> Seq<ArgOriginView> {
    args.map_values(|a: Expression| arg_origin_of(a))
}

fn origins_of(args: &Vec<Expression>) -> (r: Vec<ArgOrigin>)
    ensures
        r@.map_values(|a: ArgOrigin| a@) == origins(args@),
{
    let mut r: Vec<ArgOrigin> = Vec::new();
    let mut i: usize = 0;
    while i < args.len()
        invariant
            0 <= i <= args.len(),
            r@.map_values(|a: ArgOrigin| a@) == origins(args@).take(i as int),
        decreases args.len() - i,
    {
        let o = arg_origin(&args[i]);
        let ghost prev = r@;
        r.push(o);
        proof {
            assert(r@ == prev.push(o));
            assert(o@ == origins(args@)[i as int]);
            assert(r@.map_values(|a: ArgOrigin| a@) =~= prev.map_values(|a: ArgOrigin| a@).push(o@));
            assert(r@.map_values(|a: ArgOrigin| a@) =~= origins(args@).take((i + 1) as int));
        }
        i += 1;
    }
    assert(origins(args@).take(args.len() as int) =~= origins(args@));
    r
}

/// The value expressions of a struct expression's fields, in order.
pub open spec fn field_values(s: Seq<FieldInit>) -> Seq<Expression> {
    s.map_values(|f: FieldInit| f.value)
}

fn field_origins(fields: &Vec<FieldInit>) -> (r: Vec<ArgOrigin>)
    ensures
        r@.map_values(|a: ArgOrigin| a@) == origins(field_values(fields@)),
{
    let mut r: Vec<ArgOrigin> = Vec::new();
    let mut i: usize = 0;
    while i < fields.len()
        invariant
            0 <= i <= fields.len(),
            r@.map_values(|a: ArgOrigin| a@) == origins(field_values(fields@)).take(i as int),
        decreases fields.len() - i,
    {
        let o = arg_origin(&fields[i].value);
        let ghost prev = r@;
        r.push(o);
        proof {
            assert(r@ == prev.push(o));
            assert(o@ == origins(field_values(fields@))[i as int]);
            assert(r@.map_values(|a: ArgOrigin| a@) =~= prev.map_values(|a: ArgOrigin| a@).push(o@));
            assert(r@.map_values(|a: ArgOrigin| a@) =~= origins(field_values(fields@)).take(
                (i + 1) as int,
            ));
        }
        i += 1;
    }
    assert(origins(field_values(fields@)).take(fields.len() as int) =~= origins(
        field_values(fields@),
    ));
    r
}

/// The root and the argument origins of a key expression (with references
/// already stripped): `DataKey::Balance(addr)` is `DataKey::Balance` with
/// the argument `addr`.
pub open spec fn key_parts(e: Expression) -> (Seq<char>, Seq<ArgOriginView>) {
    match e {
        Expression::Path { segments, .. } => (path_text(segments@), Seq::empty()),
        Expression::Call { func, args, .. } => (
            match *func {
                Expression::Path { segments, .. } => path_text(segments@),
                f => tidy(tokens_of(f)),
            },
            origins(args@),
        ),
        Expression::Struct { path, fields, .. } => (path_text(path@), origins(field_values(fields@))),
        Expression::Lit { tokens, .. } => (tidy(tokens@), Seq::empty()),
        // `symbol_short!("balance")` and similar are constant keys.
        Expression::Macro { tokens, .. } => (tidy(tokens@), Seq::empty()),
        Expression::Tuple { elems, .. } => ("<tuple>"@, origins(elems@)),
        _ => (tidy(tokens_of(e)), seq![ArgOriginView::Opaque(tidy(tokens_of(e)))]),
    }
}

pub fn decompose_key(e: &Expression) -> (r: (String, Vec<ArgOrigin>))
    ensures
        (r.0@, r.1@.map_values(|a: ArgOrigin| a@)) == key_parts(*e),
{
    match e {
        Expression::Path { segments, .. } => (path_string(segments), Vec::new()),
        Expression::Call { func, args, .. } => {
            let root = match &**func {
                Expression::Path { segments, .. } => path_string(segments),
                other => tokens_to_string(other),
            };
            (root, origins_of(args))
        },
        Expression::Struct { path, fields, .. } => (path_string(path), field_origins(fields)),
        Expression::Lit { .. } => (tokens_to_string(e), Vec::new()),
        Expression::Macro { .. } => (tokens_to_string(e), Vec::new()),
        Expression::Tuple { elems, .. } => (owned("<tuple>"), origins_of(elems)),
        _ => {
            let t = tokens_to_string(e);
            let mut v: Vec<ArgOrigin> = Vec::new();
            v.push(ArgOrigin::Opaque(tokens_to_string(e)));
            assert(v@.map_values(|a: ArgOrigin| a@) =~= seq![ArgOriginView::Opaque(tidy(tokens_of(*e)))]);
            (t, v)
        },
    }
}

/// The durability a storage accessor's name selects.
pub open spec fn durability_named(m: Seq<char>) -> Option<Durability> {
    if m == "instance"@ {
        Some(Durability::Instance)
    } else if m == "persistent"@ {
        Some(Durability::Persistent)
    } else if m == "temporary"@ {
        Some(Durability::Temporary)
    } else {
        None
    }
}

/// `env.storage().persistent().set(..)` and friends: a storage method called
/// on a durability accessor called on `.storage()`. Matching on the whole
/// chain keeps `map.get(k)` and `vec.set(i, v)` out.
pub open spec fn storage_kind(e: Expression) -> Option<(Durability, Access)> {
    match e {
        Expression::MethodCall { receiver, method, .. } => match method_access(method@) {
            Some(acc) => match *receiver {
                Expression::MethodCall { receiver: inner, method: m2, .. } => match durability_named(m2@) {
                    Some(d) => match *inner {
                        Expression::MethodCall { method: m3, .. } => if m3@ == "storage"@ {
                            Some((d, acc))
                        } else {
                            None
                        },
                        _ => None,
                    },
                    None => None,
                },
                _ => None,
            },
            None => None,
        },
        _ => None,
    }
}

pub fn storage_target(e: &Expression) -> (r: Option<(Durability, Access)>)
    ensures
        r == storage_kind(*e),
{
    match e {
        Expression::MethodCall { receiver, method, .. } => {
            let acc = match Access::from_method(method.as_str()) {
                Some(a) => a,
                None => return None,
            };
            match &**receiver {
                Expression::MethodCall { receiver: inner, method: m2, .. } => {
                    let m = m2.as_str();
                    let d = if same(m, "instance") {
                        Durability::Instance
                    } else if same(m, "persistent") {
                        Durability::Persistent
                    } else if same(m, "temporary") {
                        Durability::Temporary
                    } else {
                        return None;
                    };
                    match &**inner {
                        Expression::MethodCall { method: m3, .. } => {
                            if same(m3.as_str(), "storage") {
                                Some((d, acc))
                            } else {
                                None
                            }
                        },
                        _ => None,
                    }
                },
                _ => None,
            }
        },
        _ => None,
    }
}


// ----- what a function body holds -------------------------------------------

/// The storage access at a method call itself, if it is one. A call with a
/// key names that key; `instance().extend_ttl(a, b)` has none, its entry is
/// the contract instance.
pub open spec fn own_accesses(e: Expression) -> Seq<RawAccessView> {
    match e {
        Expression::MethodCall { method, args, line, column, .. } => match storage_kind(e) {
            Some((d, acc)) => if args@.len() > 0 {
                let k = strip(args@[0]);
                let parts = key_parts(k);
                seq![
                    RawAccessView {
                        line,
                        column: (column + 1) as usize,
                        durability: d,
                        access: acc,
                        key_expr: tidy(tokens_of(k)),
                        key_root: parts.0,
                        key_args: parts.1,
                    },
                ]
            } else if method@ == "extend_ttl"@ {
                seq![
                    RawAccessView {
                        line,
                        column: (column + 1) as usize,
                        durability: d,
                        access: acc,
                        key_expr: "<contract instance>"@,
                        key_root: "<instance>"@,
                        key_args: Seq::empty(),
                    },
                ]
            } else {
                Seq::empty()
            },
            None => Seq::empty(),
        },
        _ => Seq::empty(),
    }
}

/// What a search looks for at an expression itself: with `reads`, the key
/// root a storage read names; otherwise the name of a called function.
pub open spec fn own_hit(reads: bool, e: Expression) -> Option<Seq<char>> {
    if reads {
        match storage_kind(e) {
            Some((_, Access::Read)) => match e {
                Expression::MethodCall { args, .. } => if args@.len() > 0 {
                    Some(key_parts(strip(args@[0])).0)
                } else {
                    None
                },
                _ => None,
            },
            _ => None,
        }
    } else {
        match e {
            Expression::Call { func, .. } => match *func {
                Expression::Path { segments, .. } => if segments@.len() > 0 {
                    Some(segments@.last()@)
                } else {
                    None
                },
                _ => None,
            },
            _ => None,
        }
    }
}

pub open spec fn either(a: Option<Seq<char>>, b: Option<Seq<char>>) -> Option<Seq<char>> {
    if a is Some {
        a
    } else {
        b
    }
}

/// The first hit of a search, the expression before its parts and the parts
/// in source order.
pub open spec fn hit_expr(reads: bool, e: Expression) -> Option<Seq<char>>
    decreases e,
{
    either(
        own_hit(reads, e),
        match e {
            Expression::MethodCall { pre, receiver, mid, args, .. } => either(
                hit_nodes(reads, pre@),
                either(
                    hit_expr(reads, *receiver),
                    either(hit_nodes(reads, mid@), hit_exprs(reads, args@)),
                ),
            ),
            Expression::Path { pre, .. } => hit_nodes(reads, pre@),
            Expression::Call { pre, func, args, .. } => either(
                hit_nodes(reads, pre@),
                either(hit_expr(reads, *func), hit_exprs(reads, args@)),
            ),
            Expression::Struct { pre, fields, rest, .. } => either(
                hit_nodes(reads, pre@),
                either(hit_fields(reads, fields@), hit_opt(reads, rest)),
            ),
            Expression::Lit { pre, .. } => hit_nodes(reads, pre@),
            Expression::Macro { pre, .. } => hit_nodes(reads, pre@),
            Expression::Tuple { pre, elems, .. } => either(
                hit_nodes(reads, pre@),
                hit_exprs(reads, elems@),
            ),
            Expression::Reference { pre, inner, .. } => either(
                hit_nodes(reads, pre@),
                hit_expr(reads, *inner),
            ),
            Expression::Paren { pre, inner, .. } => either(
                hit_nodes(reads, pre@),
                hit_expr(reads, *inner),
            ),
            Expression::Group { pre, inner, .. } => either(
                hit_nodes(reads, pre@),
                hit_expr(reads, *inner),
            ),
            Expression::Cast { pre, inner, post, .. } => either(
                hit_nodes(reads, pre@),
                either(hit_expr(reads, *inner), hit_nodes(reads, post@)),
            ),
            Expression::Other { children, .. } => hit_nodes(reads, children@),
        },
    )
}

pub open spec fn hit_field(reads: bool, f: FieldInit) -> Option<Seq<char>>
    decreases f,
{
    either(hit_nodes(reads, f.pre@), hit_expr(reads, f.value))
}

pub open spec fn hit_fields(reads: bool, s: Seq<FieldInit>) -> Option<Seq<char>>
    decreases s,
{
    if s.len() == 0 {
        None
    } else {
        either(hit_fields(reads, s.drop_last()), hit_field(reads, s.last()))
    }
}

pub open spec fn hit_exprs(reads: bool, s: Seq<Expression>) -> Option<Seq<char>>
    decreases s,
{
    if s.len() == 0 {
        None
    } else {
        either(hit_exprs(reads, s.drop_last()), hit_expr(reads, s.last()))
    }
}

pub open spec fn hit_opt(reads: bool, o: Option<Box<Expression>>) -> Option<Seq<char>>
    decreases o,
{
    match o {
        Some(b) => hit_expr(reads, *b),
        None => None,
    }
}

pub open spec fn hit_node(reads: bool, n: Node) -> Option<Seq<char>>
    decreases n,
{
    match n {
        Node::Expression(e) => hit_expr(reads, e),
        Node::LetStmt(l) => either(
            hit_nodes(reads, l.pre@),
            either(hit_opt(reads, l.init), hit_opt(reads, l.diverge)),
        ),
    }
}

pub open spec fn hit_nodes(reads: bool, s: Seq<Node>) -> Option<Seq<char>>
    decreases s,
{
    if s.len() == 0 {
        None
    } else {
        either(hit_nodes(reads, s.drop_last()), hit_node(reads, s.last()))
    }
}

/// The names a pattern binds, in source order.
pub open spec fn pat_names(p: Pattern) -> Seq<Seq<char>>
    decreases p,
{
    match p {
        Pattern::Ident(n) => seq![n@],
        Pattern::Type(q) => pat_names(*q),
        Pattern::Reference(q) => pat_names(*q),
        Pattern::Tuple(ps) => pats_names(ps@),
        Pattern::TupleStruct(ps) => pats_names(ps@),
        Pattern::Struct(ps) => pats_names(ps@),
        Pattern::Or(ps) => pats_names(ps@),
        Pattern::Other => Seq::empty(),
    }
}

pub open spec fn pats_names(s: Seq<Pattern>) -> Seq<Seq<char>>
    decreases s,
{
    if s.len() == 0 {
        Seq::empty()
    } else {
        pats_names(s.drop_last()) + pat_names(s.last())
    }
}

/// `base` with each of `names` appended unless it is already there.
pub open spec fn add_names(base: Seq<Seq<char>>, names: Seq<Seq<char>>) -> Seq<Seq<char>>
    decreases names.len(),
{
    if names.len() == 0 {
        base
    } else {
        let t = add_names(base, names.drop_last());
        if t.contains(names.last()) {
            t
        } else {
            t.push(names.last())
        }
    }
}

/// The bindings a `let` makes: one per name its pattern binds, each with
/// where its initialiser comes from. A `let` without initialiser makes none.
pub open spec fn let_records(l: LetStmt) -> Seq<LetBindingView> {
    match l.init {
        Some(b) => add_names(Seq::empty(), pat_names(l.pat)).map_values(
            |n: Seq<char>|
                LetBindingView {
                    name: n,
                    line: l.line,
                    from_storage_key: hit_expr(true, *b),
                    from_call: hit_expr(false, *b),
                },
        ),
        None => Seq::empty(),
    }
}

/// The storage accesses in an expression, in source order.
pub open spec fn accs_expr(e: Expression) -> Seq<RawAccessView>
    decreases e,
{
    own_accesses(e) + match e {
        Expression::MethodCall { pre, receiver, mid, args, .. } => accs_nodes(pre@) + accs_expr(
            *receiver,
        ) + accs_nodes(mid@) + accs_exprs(args@),
        Expression::Path { pre, .. } => accs_nodes(pre@),
        Expression::Call { pre, func, args, .. } => accs_nodes(pre@) + accs_expr(*func) + accs_exprs(
            args@,
        ),
        Expression::Struct { pre, fields, rest, .. } => accs_nodes(pre@) + accs_fields(fields@)
            + accs_opt(rest),
        Expression::Lit { pre, .. } => accs_nodes(pre@),
        Expression::Macro { pre, .. } => accs_nodes(pre@),
        Expression::Tuple { pre, elems, .. } => accs_nodes(pre@) + accs_exprs(elems@),
        Expression::Reference { pre, inner, .. } => accs_nodes(pre@) + accs_expr(*inner),
        Expression::Paren { pre, inner, .. } => accs_nodes(pre@) + accs_expr(*inner),
        Expression::Group { pre, inner, .. } => accs_nodes(pre@) + accs_expr(*inner),
        Expression::Cast { pre, inner, post, .. } => accs_nodes(pre@) + accs_expr(*inner)
            + accs_nodes(post@),
        Expression::Other { children, .. } => accs_nodes(children@),
    }
}

pub open spec fn accs_field(f: FieldInit) -> Seq<RawAccessView>
    decreases f,
{
    accs_nodes(f.pre@) + accs_expr(f.value)
}

pub open spec fn accs_fields(s: Seq<FieldInit>) -> Seq<RawAccessView>
    decreases s,
{
    if s.len() == 0 {
        Seq::empty()
    } else {
        accs_fields(s.drop_last()) + accs_field(s.last())
    }
}

pub open spec fn accs_exprs(s: Seq<Expression>) -> Seq<RawAccessView>
    decreases s,
{
    if s.len() == 0 {
        Seq::empty()
    } else {
        accs_exprs(s.drop_last()) + accs_expr(s.last())
    }
}

pub open spec fn accs_opt(o: Option<Box<Expression>>) -> Seq<RawAccessView>
    decreases o,
{
    match o {
        Some(b) => accs_expr(*b),
        None => Seq::empty(),
    }
}

pub open spec fn accs_node(n: Node) -> Seq<RawAccessView>
    decreases n,
{
    match n {
        Node::Expression(e) => accs_expr(e),
        Node::LetStmt(l) => accs_nodes(l.pre@) + accs_opt(l.init) + accs_opt(l.diverge),
    }
}

pub open spec fn accs_nodes(s: Seq<Node>) -> Seq<RawAccessView>
    decreases s,
{
    if s.len() == 0 {
        Seq::empty()
    } else {
        accs_nodes(s.drop_last()) + accs_node(s.last())
    }
}

/// The `let` bindings in an expression, in source order.
pub open spec fn lets_expr(e: Expression) -> Seq<LetBindingView>
    decreases e,
{
    match e {
        Expression::MethodCall { pre, receiver, mid, args, .. } => lets_nodes(pre@) + lets_expr(
            *receiver,
        ) + lets_nodes(mid@) + lets_exprs(args@),
        Expression::Path { pre, .. } => lets_nodes(pre@),
        Expression::Call { pre, func, args, .. } => lets_nodes(pre@) + lets_expr(*func) + lets_exprs(
            args@,
        ),
        Expression::Struct { pre, fields, rest, .. } => lets_nodes(pre@) + lets_fields(fields@)
            + lets_opt(rest),
        Expression::Lit { pre, .. } => lets_nodes(pre@),
        Expression::Macro { pre, .. } => lets_nodes(pre@),
        Expression::Tuple { pre, elems, .. } => lets_nodes(pre@) + lets_exprs(elems@),
        Expression::Reference { pre, inner, .. } => lets_nodes(pre@) + lets_expr(*inner),
        Expression::Paren { pre, inner, .. } => lets_nodes(pre@) + lets_expr(*inner),
        Expression::Group { pre, inner, .. } => lets_nodes(pre@) + lets_expr(*inner),
        Expression::Cast { pre, inner, post, .. } => lets_nodes(pre@) + lets_expr(*inner)
            + lets_nodes(post@),
        Expression::Other { children, .. } => lets_nodes(children@),
    }
}

pub open spec fn lets_field(f: FieldInit) -> Seq<LetBindingView>
    decreases f,
{
    lets_nodes(f.pre@) + lets_expr(f.value)
}

pub open spec fn lets_fields(s: Seq<FieldInit>) -> Seq<LetBindingView>
    decreases s,
{
    if s.len() == 0 {
        Seq::empty()
    } else {
        lets_fields(s.drop_last()) + lets_field(s.last())
    }
}

pub open spec fn lets_exprs(s: Seq<Expression>) -> Seq<LetBindingView>
    decreases s,
{
    if s.len() == 0 {
        Seq::empty()
    } else {
        lets_exprs(s.drop_last()) + lets_expr(s.last())
    }
}

pub open spec fn lets_opt(o: Option<Box<Expression>>) -> Seq<LetBindingView>
    decreases o,
{
    match o {
        Some(b) => lets_expr(*b),
        None => Seq::empty(),
    }
}

pub open spec fn lets_node(n: Node) -> Seq<LetBindingView>
    decreases n,
{
    match n {
        Node::Expression(e) => lets_expr(e),
        Node::LetStmt(l) => let_records(l) + lets_nodes(l.pre@) + lets_opt(l.init) + lets_opt(
            l.diverge,
        ),
    }
}

pub open spec fn lets_nodes(s: Seq<Node>) -> Seq<LetBindingView>
    decreases s,
{
    if s.len() == 0 {
        Seq::empty()
    } else {
        lets_nodes(s.drop_last()) + lets_node(s.last())
    }
}


// ----- searching an initialiser ---------------------------------------------

fn own_hit_exec(reads: bool, e: &Expression) -> (r: Option<String>)
    ensures
        opt_view(r) == own_hit(reads, *e),
{
    if reads {
        match storage_target(e) {
            Some((_, Access::Read)) => match e {
                Expression::MethodCall { args, .. } => {
                    if args.len() > 0 {
                        let (root, _) = decompose_key(strip_refs(&args[0]));
                        Some(root)
                    } else {
                        None
                    }
                },
                _ => None,
            },
            _ => None,
        }
    } else {
        match e {
            Expression::Call { func, .. } => match &**func {
                Expression::Path { segments, .. } => {
                    if segments.len() > 0 {
                        Some(segments[segments.len() - 1].clone())
                    } else {
                        None
                    }
                },
                _ => None,
            },
            _ => None,
        }
    }
}

/// The first hit of a search through an expression.
pub fn find_hit(reads: bool, e: &Expression) -> (r: Option<String>)
    ensures
        opt_view(r) == hit_expr(reads, *e),
    decreases e,
{
    let own = own_hit_exec(reads, e);
    if own.is_some() {
        return own;
    }
    match e {
        Expression::MethodCall { pre, receiver, mid, args, .. } => {
            let a = find_hit_nodes(reads, pre);
            if a.is_some() {
                return a;
            }
            let b = find_hit(reads, receiver);
            if b.is_some() {
                return b;
            }
            let c = find_hit_nodes(reads, mid);
            if c.is_some() {
                return c;
            }
            find_hit_exprs(reads, args)
        },
        Expression::Path { pre, .. } => find_hit_nodes(reads, pre),
        Expression::Call { pre, func, args, .. } => {
            let a = find_hit_nodes(reads, pre);
            if a.is_some() {
                return a;
            }
            let b = find_hit(reads, func);
            if b.is_some() {
                return b;
            }
            find_hit_exprs(reads, args)
        },
        Expression::Struct { pre, fields, rest, .. } => {
            let a = find_hit_nodes(reads, pre);
            if a.is_some() {
                return a;
            }
            let b = find_hit_fields(reads, fields);
            if b.is_some() {
                return b;
            }
            find_hit_opt(reads, rest)
        },
        Expression::Lit { pre, .. } => find_hit_nodes(reads, pre),
        Expression::Macro { pre, .. } => find_hit_nodes(reads, pre),
        Expression::Tuple { pre, elems, .. } => {
            let a = find_hit_nodes(reads, pre);
            if a.is_some() {
                return a;
            }
            find_hit_exprs(reads, elems)
        },
        Expression::Reference { pre, inner, .. } => {
            let a = find_hit_nodes(reads, pre);
            if a.is_some() {
                return a;
            }
            find_hit(reads, inner)
        },
        Expression::Paren { pre, inner, .. } => {
            let a = find_hit_nodes(reads, pre);
            if a.is_some() {
                return a;
            }
            find_hit(reads, inner)
        },
        Expression::Group { pre, inner, .. } => {
            let a = find_hit_nodes(reads, pre);
            if a.is_some() {
                return a;
            }
            find_hit(reads, inner)
        },
        Expression::Cast { pre, inner, post, .. } => {
            let a = find_hit_nodes(reads, pre);
            if a.is_some() {
                return a;
            }
            let b = find_hit(reads, inner);
            if b.is_some() {
                return b;
            }
            find_hit_nodes(reads, post)
        },
        Expression::Other { children, .. } => find_hit_nodes(reads, children),
    }
}

fn find_hit_fields(reads: bool, s: &Vec<FieldInit>) -> (r: Option<String>)
    ensures
        opt_view(r) == hit_fields(reads, s@),
    decreases s,
{
    let mut i: usize = 0;
    while i < s.len()
        invariant
            0 <= i <= s.len(),
            hit_fields(reads, s@.take(i as int)) is None,
        decreases s.len() - i,
    {
        proof {
            assert(s@.take((i + 1) as int).drop_last() =~= s@.take(i as int));
        }
        let f = &s[i];
        let a = find_hit_nodes(reads, &f.pre);
        let h = if a.is_some() {
            a
        } else {
            find_hit(reads, &f.value)
        };
        proof {
            assert(opt_view(h) == hit_field(reads, s@[i as int]));
        }
        if h.is_some() {
            proof {
                lemma_hit_fields_prefix(reads, s@, (i + 1) as int);
            }
            return h;
        }
        i += 1;
    }
    assert(s@.take(s.len() as int) =~= s@);
    None
}

proof fn lemma_hit_fields_prefix(reads: bool, s: Seq<FieldInit>, i: int)
    requires
        0 <= i <= s.len(),
        hit_fields(reads, s.take(i)) is Some,
    ensures
        hit_fields(reads, s) == hit_fields(reads, s.take(i)),
    decreases s.len(),
{
    if i < s.len() {
        assert(s.drop_last().take(i) =~= s.take(i));
        lemma_hit_fields_prefix(reads, s.drop_last(), i);
    } else {
        assert(s.take(i) =~= s);
    }
}

fn find_hit_exprs(reads: bool, s: &Vec<Expression>) -> (r: Option<String>)
    ensures
        opt_view(r) == hit_exprs(reads, s@),
    decreases s,
{
    let mut i: usize = 0;
    while i < s.len()
        invariant
            0 <= i <= s.len(),
            hit_exprs(reads, s@.take(i as int)) is None,
        decreases s.len() - i,
    {
        proof {
            assert(s@.take((i + 1) as int).drop_last() =~= s@.take(i as int));
        }
        let h = find_hit(reads, &s[i]);
        if h.is_some() {
            proof {
                lemma_hit_exprs_prefix(reads, s@, (i + 1) as int);
            }
            return h;
        }
        i += 1;
    }
    assert(s@.take(s.len() as int) =~= s@);
    None
}

/// A hit within the first `i` expressions is the first hit of them all.
proof fn lemma_hit_exprs_prefix(reads: bool, s: Seq<Expression>, i: int)
    requires
        0 <= i <= s.len(),
        hit_exprs(reads, s.take(i)) is Some,
    ensures
        hit_exprs(reads, s) == hit_exprs(reads, s.take(i)),
    decreases s.len(),
{
    if i < s.len() {
        assert(s.drop_last().take(i) =~= s.take(i));
        lemma_hit_exprs_prefix(reads, s.drop_last(), i);
    } else {
        assert(s.take(i) =~= s);
    }
}

proof fn lemma_hit_nodes_prefix(reads: bool, s: Seq<Node>, i: int)
    requires
        0 <= i <= s.len(),
        hit_nodes(reads, s.take(i)) is Some,
    ensures
        hit_nodes(reads, s) == hit_nodes(reads, s.take(i)),
    decreases s.len(),
{
    if i < s.len() {
        assert(s.drop_last().take(i) =~= s.take(i));
        lemma_hit_nodes_prefix(reads, s.drop_last(), i);
    } else {
        assert(s.take(i) =~= s);
    }
}

fn find_hit_opt(reads: bool, o: &Option<Box<Expression>>) -> (r: Option<String>)
    ensures
        opt_view(r) == hit_opt(reads, *o),
    decreases o,
{
    match o {
        Some(b) => find_hit(reads, b),
        None => None,
    }
}

fn find_hit_nodes(reads: bool, s: &Vec<Node>) -> (r: Option<String>)
    ensures
        opt_view(r) == hit_nodes(reads, s@),
    decreases s,
{
    let mut i: usize = 0;
    while i < s.len()
        invariant
            0 <= i <= s.len(),
            hit_nodes(reads, s@.take(i as int)) is None,
        decreases s.len() - i,
    {
        proof {
            assert(s@.take((i + 1) as int).drop_last() =~= s@.take(i as int));
        }
        let h = match &s[i] {
            Node::Expression(e) => find_hit(reads, e),
            Node::LetStmt(l) => {
                let p = find_hit_nodes(reads, &l.pre);
                if p.is_some() {
                    p
                } else {
                    let a = find_hit_opt(reads, &l.init);
                    if a.is_some() {
                        a
                    } else {
                        find_hit_opt(reads, &l.diverge)
                    }
                }
            },
        };
        proof {
            assert(opt_view(h) == hit_node(reads, s@[i as int]));
        }
        if h.is_some() {
            proof {
                lemma_hit_nodes_prefix(reads, s@, (i + 1) as int);
            }
            return h;
        }
        i += 1;
    }
    assert(s@.take(s.len() as int) =~= s@);
    None
}


// ----- walking a function body ------------------------------------------------

pub open spec fn let_views(v: Seq<LetBinding>) -> Seq<LetBindingView> {
    v.map_values(|l: LetBinding| l@)
}

pub open spec fn raw_views(v: Seq<RawAccess>) -> Seq<RawAccessView> {
    v.map_values(|a: RawAccess| a@)
}

proof fn lemma_add_names_concat(base: Seq<Seq<char>>, a: Seq<Seq<char>>, b: Seq<Seq<char>>)
    ensures
        add_names(base, a + b) == add_names(add_names(base, a), b),
    decreases b.len(),
{
    if b.len() == 0 {
        assert(a + b =~= a);
    } else {
        assert((a + b).drop_last() =~= a + b.drop_last());
        assert((a + b).last() == b.last());
        lemma_add_names_concat(base, a, b.drop_last());
    }
}

/// Add the names a pattern binds to `out`, each unless already there.
pub fn collect_pat_idents(p: &Pattern, out: &mut Vec<String>)
    ensures
        views(final(out)@) == add_names(views(old(out)@), pat_names(*p)),
    decreases p,
{
    match p {
        Pattern::Ident(n) => {
            let ghost before = views(out@);
            proof {
                assert(seq![n@].drop_last() =~= Seq::<Seq<char>>::empty());
                assert(seq![n@].last() == n@);
                assert(add_names(before, Seq::<Seq<char>>::empty()) == before);
                assert(pat_names(*p) == seq![n@]);
            }
            if !crate::analyze::contains_name(out, n) {
                out.push(n.clone());
                assert(views(out@) =~= before.push(n@));
            }
        },
        Pattern::Type(q) => collect_pat_idents(q, out),
        Pattern::Reference(q) => collect_pat_idents(q, out),
        Pattern::Tuple(ps) => collect_pats(ps, out),
        Pattern::TupleStruct(ps) => collect_pats(ps, out),
        Pattern::Struct(ps) => collect_pats(ps, out),
        Pattern::Or(ps) => collect_pats(ps, out),
        Pattern::Other => {},
    }
}

fn collect_pats(ps: &Vec<Pattern>, out: &mut Vec<String>)
    ensures
        views(final(out)@) == add_names(views(old(out)@), pats_names(ps@)),
    decreases ps,
{
    let ghost start = views(out@);
    let mut i: usize = 0;
    while i < ps.len()
        invariant
            0 <= i <= ps.len(),
            views(out@) == add_names(start, pats_names(ps@.take(i as int))),
        decreases ps.len() - i,
    {
        proof {
            let t = ps@.take((i + 1) as int);
            assert(t.drop_last() =~= ps@.take(i as int));
            lemma_add_names_concat(start, pats_names(ps@.take(i as int)), pat_names(ps@[i as int]));
        }
        collect_pat_idents(&ps[i], out);
        i += 1;
    }
    assert(ps@.take(ps.len() as int) =~= ps@);
}

/// The names the parameter patterns of a function bind, each once.
pub fn param_names(params: &Vec<Pattern>) -> (r: Vec<String>)
    ensures
        views(r@) == add_names(Seq::empty(), pats_names(params@)),
{
    let mut r: Vec<String> = Vec::new();
    assert(views(r@) =~= Seq::<Seq<char>>::empty());
    collect_pats(params, &mut r);
    r
}

fn clone_opt(o: &Option<String>) -> (r: Option<String>)
    ensures
        opt_view(r) == opt_view(*o),
{
    match o {
        Some(s) => Some(s.clone()),
        None => None,
    }
}

/// Record the bindings a `let` makes.
fn record_let(l: &LetStmt, lets: &mut Vec<LetBinding>)
    ensures
        let_views(final(lets)@) == let_views(old(lets)@) + let_records(*l),
{
    match &l.init {
        Some(b) => {
            let mut names: Vec<String> = Vec::new();
            assert(views(names@) =~= Seq::<Seq<char>>::empty());
            collect_pat_idents(&l.pat, &mut names);
            let from_storage_key = find_hit(true, b);
            let from_call = find_hit(false, b);
            let ghost start = let_views(lets@);
            let ghost recs = let_records(*l);
            let mut i: usize = 0;
            while i < names.len()
                invariant
                    0 <= i <= names.len(),
                    recs == let_records(*l),
                    l.init == Some(*b),
                    views(names@) == add_names(Seq::empty(), pat_names(l.pat)),
                    opt_view(from_storage_key) == hit_expr(true, **b),
                    opt_view(from_call) == hit_expr(false, **b),
                    let_views(lets@) == start + recs.take(i as int),
                decreases names.len() - i,
            {
                let rec = LetBinding {
                    name: names[i].clone(),
                    line: l.line,
                    from_storage_key: clone_opt(&from_storage_key),
                    from_call: clone_opt(&from_call),
                };
                let ghost prev = lets@;
                let ghost rv = rec@;
                proof {
                    assert(views(names@)[i as int] == names@[i as int]@);
                    assert(rv == recs[i as int]);
                }
                lets.push(rec);
                proof {
                    assert(let_views(lets@) =~= let_views(prev).push(rv));
                    assert(recs.take((i + 1) as int) =~= recs.take(i as int).push(rv));
                }
                i += 1;
            }
            assert(recs.take(names.len() as int) =~= recs);
        },
        None => {
            assert(let_views(lets@) =~= let_views(lets@) + let_records(*l));
        },
    }
}

/// Record the storage access at a method call itself, if it is one.
fn record_own_access(e: &Expression, accs: &mut Vec<RawAccess>)
    requires
        expr_fits(*e),
    ensures
        raw_views(final(accs)@) == raw_views(old(accs)@) + own_accesses(*e),
{
    let ghost prev = accs@;
    match e {
        Expression::MethodCall { method, args, line, column, .. } => {
            match storage_target(e) {
                Some((durability, access)) => {
                    if args.len() > 0 {
                        let stripped = strip_refs(&args[0]);
                        let (key_root, key_args) = decompose_key(stripped);
                        let a = RawAccess {
                            line: *line,
                            column: *column + 1,
                            durability,
                            access,
                            key_expr: tokens_to_string(stripped),
                            key_root,
                            key_args,
                        };
                        let ghost av = a@;
                        accs.push(a);
                        assert(raw_views(accs@) =~= raw_views(prev) + seq![av]);
                    } else if same(method.as_str(), "extend_ttl") {
                        let a = RawAccess {
                            line: *line,
                            column: *column + 1,
                            durability,
                            access,
                            key_expr: owned("<contract instance>"),
                            key_root: owned("<instance>"),
                            key_args: Vec::new(),
                        };
                        let ghost av = a@;
                        assert(av.key_args =~= Seq::<ArgOriginView>::empty());
                        accs.push(a);
                        assert(raw_views(accs@) =~= raw_views(prev) + seq![av]);
                    } else {
                        assert(raw_views(accs@) =~= raw_views(prev) + own_accesses(*e));
                    }
                },
                None => {
                    assert(raw_views(accs@) =~= raw_views(prev) + own_accesses(*e));
                },
            }
        },
        _ => {
            assert(raw_views(accs@) =~= raw_views(prev) + own_accesses(*e));
        },
    }
}

/// Walk an expression, recording every `let` and every storage access in
/// source order.
pub fn visit_expr(e: &Expression, lets: &mut Vec<LetBinding>, accs: &mut Vec<RawAccess>)
    requires
        expr_fits(*e),
    ensures
        let_views(final(lets)@) == let_views(old(lets)@) + lets_expr(*e),
        raw_views(final(accs)@) == raw_views(old(accs)@) + accs_expr(*e),
    decreases e,
{
    let ghost l0 = let_views(lets@);
    let ghost a0 = raw_views(accs@);
    record_own_access(e, accs);
    let ghost a1 = raw_views(accs@);
    match e {
        Expression::MethodCall { pre, receiver, mid, args, .. } => {
            visit_nodes(pre, lets, accs);
            visit_expr(receiver, lets, accs);
            visit_nodes(mid, lets, accs);
            visit_exprs(args, lets, accs);
        },
        Expression::Path { pre, .. } => visit_nodes(pre, lets, accs),
        Expression::Call { pre, func, args, .. } => {
            visit_nodes(pre, lets, accs);
            visit_expr(func, lets, accs);
            visit_exprs(args, lets, accs);
        },
        Expression::Struct { pre, fields, rest, .. } => {
            visit_nodes(pre, lets, accs);
            visit_fields(fields, lets, accs);
            visit_opt(rest, lets, accs);
        },
        Expression::Lit { pre, .. } => visit_nodes(pre, lets, accs),
        Expression::Macro { pre, .. } => visit_nodes(pre, lets, accs),
        Expression::Tuple { pre, elems, .. } => {
            visit_nodes(pre, lets, accs);
            visit_exprs(elems, lets, accs);
        },
        Expression::Reference { pre, inner, .. } => {
            visit_nodes(pre, lets, accs);
            visit_expr(inner, lets, accs);
        },
        Expression::Paren { pre, inner, .. } => {
            visit_nodes(pre, lets, accs);
            visit_expr(inner, lets, accs);
        },
        Expression::Group { pre, inner, .. } => {
            visit_nodes(pre, lets, accs);
            visit_expr(inner, lets, accs);
        },
        Expression::Cast { pre, inner, post, .. } => {
            visit_nodes(pre, lets, accs);
            visit_expr(inner, lets, accs);
            visit_nodes(post, lets, accs);
        },
        Expression::Other { children, .. } => visit_nodes(children, lets, accs),
    }
    proof {
        assert(let_views(lets@) =~= l0 + lets_expr(*e));
        assert(raw_views(accs@) =~= a0 + accs_expr(*e));
    }
}

fn visit_opt(o: &Option<Box<Expression>>, lets: &mut Vec<LetBinding>, accs: &mut Vec<RawAccess>)
    requires
        opt_fits(*o),
    ensures
        let_views(final(lets)@) == let_views(old(lets)@) + lets_opt(*o),
        raw_views(final(accs)@) == raw_views(old(accs)@) + accs_opt(*o),
    decreases o,
{
    match o {
        Some(b) => visit_expr(b, lets, accs),
        None => {
            assert(let_views(lets@) =~= let_views(lets@) + lets_opt(*o));
            assert(raw_views(accs@) =~= raw_views(accs@) + accs_opt(*o));
        },
    }
}

fn visit_exprs(s: &Vec<Expression>, lets: &mut Vec<LetBinding>, accs: &mut Vec<RawAccess>)
    requires
        exprs_fit(s@),
    ensures
        let_views(final(lets)@) == let_views(old(lets)@) + lets_exprs(s@),
        raw_views(final(accs)@) == raw_views(old(accs)@) + accs_exprs(s@),
    decreases s,
{
    let ghost l0 = let_views(lets@);
    let ghost a0 = raw_views(accs@);
    let mut i: usize = 0;
    while i < s.len()
        invariant
            0 <= i <= s.len(),
            exprs_fit(s@),
            let_views(lets@) == l0 + lets_exprs(s@.take(i as int)),
            raw_views(accs@) == a0 + accs_exprs(s@.take(i as int)),
        decreases s.len() - i,
    {
        proof {
            let t = s@.take((i + 1) as int);
            assert(t.drop_last() =~= s@.take(i as int));
            lemma_exprs_fit_at(s@, i as int);
        }
        visit_expr(&s[i], lets, accs);
        proof {
            assert(let_views(lets@) =~= l0 + lets_exprs(s@.take((i + 1) as int)));
            assert(raw_views(accs@) =~= a0 + accs_exprs(s@.take((i + 1) as int)));
        }
        i += 1;
    }
    assert(s@.take(s.len() as int) =~= s@);
}

fn visit_fields(s: &Vec<FieldInit>, lets: &mut Vec<LetBinding>, accs: &mut Vec<RawAccess>)
    requires
        fields_fit(s@),
    ensures
        let_views(final(lets)@) == let_views(old(lets)@) + lets_fields(s@),
        raw_views(final(accs)@) == raw_views(old(accs)@) + accs_fields(s@),
    decreases s,
{
    let ghost l0 = let_views(lets@);
    let ghost a0 = raw_views(accs@);
    let mut i: usize = 0;
    while i < s.len()
        invariant
            0 <= i <= s.len(),
            fields_fit(s@),
            let_views(lets@) == l0 + lets_fields(s@.take(i as int)),
            raw_views(accs@) == a0 + accs_fields(s@.take(i as int)),
        decreases s.len() - i,
    {
        proof {
            let t = s@.take((i + 1) as int);
            assert(t.drop_last() =~= s@.take(i as int));
            lemma_fields_fit_at(s@, i as int);
        }
        let ghost lb = let_views(lets@);
        let ghost ab = raw_views(accs@);
        visit_nodes(&s[i].pre, lets, accs);
        visit_expr(&s[i].value, lets, accs);
        proof {
            assert(let_views(lets@) =~= lb + lets_field(s@[i as int]));
            assert(raw_views(accs@) =~= ab + accs_field(s@[i as int]));
            assert(let_views(lets@) =~= l0 + lets_fields(s@.take((i + 1) as int)));
            assert(raw_views(accs@) =~= a0 + accs_fields(s@.take((i + 1) as int)));
        }
        i += 1;
    }
    assert(s@.take(s.len() as int) =~= s@);
}

proof fn lemma_fields_fit_at(s: Seq<FieldInit>, i: int)
    requires
        fields_fit(s),
        0 <= i < s.len(),
    ensures
        field_fits(s[i]),
    decreases s.len(),
{
    if i < s.len() - 1 {
        assert(s.drop_last()[i] == s[i]);
        lemma_fields_fit_at(s.drop_last(), i);
    }
}

proof fn lemma_exprs_fit_at(s: Seq<Expression>, i: int)
    requires
        exprs_fit(s),
        0 <= i < s.len(),
    ensures
        expr_fits(s[i]),
    decreases s.len(),
{
    if i < s.len() - 1 {
        assert(s.drop_last()[i] == s[i]);
        lemma_exprs_fit_at(s.drop_last(), i);
    }
}

proof fn lemma_nodes_fit_at(s: Seq<Node>, i: int)
    requires
        nodes_fit(s),
        0 <= i < s.len(),
    ensures
        node_fits(s[i]),
    decreases s.len(),
{
    if i < s.len() - 1 {
        assert(s.drop_last()[i] == s[i]);
        lemma_nodes_fit_at(s.drop_last(), i);
    }
}

/// Walk a sequence of statements and expressions.
pub fn visit_nodes(s: &Vec<Node>, lets: &mut Vec<LetBinding>, accs: &mut Vec<RawAccess>)
    requires
        nodes_fit(s@),
    ensures
        let_views(final(lets)@) == let_views(old(lets)@) + lets_nodes(s@),
        raw_views(final(accs)@) == raw_views(old(accs)@) + accs_nodes(s@),
    decreases s,
{
    let ghost l0 = let_views(lets@);
    let ghost a0 = raw_views(accs@);
    let mut i: usize = 0;
    while i < s.len()
        invariant
            0 <= i <= s.len(),
            nodes_fit(s@),
            let_views(lets@) == l0 + lets_nodes(s@.take(i as int)),
            raw_views(accs@) == a0 + accs_nodes(s@.take(i as int)),
        decreases s.len() - i,
    {
        proof {
            let t = s@.take((i + 1) as int);
            assert(t.drop_last() =~= s@.take(i as int));
            lemma_nodes_fit_at(s@, i as int);
        }
        let ghost lb = let_views(lets@);
        let ghost ab = raw_views(accs@);
        match &s[i] {
            Node::Expression(e) => visit_expr(e, lets, accs),
            Node::LetStmt(l) => {
                record_let(l, lets);
                visit_nodes(&l.pre, lets, accs);
                visit_opt(&l.init, lets, accs);
                visit_opt(&l.diverge, lets, accs);
            },
        }
        proof {
            assert(let_views(lets@) =~= lb + lets_node(s@[i as int]));
            assert(raw_views(accs@) =~= ab + accs_node(s@[i as int]));
            assert(let_views(lets@) =~= l0 + lets_nodes(s@.take((i + 1) as int)));
            assert(raw_views(accs@) =~= a0 + accs_nodes(s@.take((i + 1) as int)));
        }
        i += 1;
    }
    assert(s@.take(s.len() as int) =~= s@);
}


// ----- files ------------------------------------------------------------------

/// Some attribute of an `impl` block is `#[contractimpl]`.
pub open spec fn contract_attr(attrs: Seq<Vec<String>>) -> bool {
    exists|k: int| 0 <= k < attrs.len() && views((#[trigger] attrs[k])@) == seq!["contractimpl"@]
}

/// What the scan records of a function in `file`; `in_contract` says it is
/// inside a `#[contractimpl]` block.
pub open spec fn fn_info(file: Seq<char>, d: FnDecl, in_contract: bool) -> FunctionInfoView {
    FunctionInfoView {
        name: d.name@,
        file,
        line: d.line,
        entry_point: d.is_pub && in_contract,
        params: add_names(Seq::empty(), pats_names(d.params@)),
        lets: lets_nodes(d.body@),
        accesses: accs_nodes(d.body@),
    }
}

/// The functions an item holds; `contract` says the scanned sources form a
/// contract crate, which makes its public free functions entry points.
pub open spec fn item_functions(file: Seq<char>, it: FileItem, contract: bool) -> Seq<
    FunctionInfoView,
> {
    match it {
        FileItem::Fn(d) => seq![fn_info(file, d, contract)],
        FileItem::Impl { attrs, fns } => fns@.map_values(
            |d: FnDecl| fn_info(file, d, contract_attr(attrs@)),
        ),
    }
}

pub open spec fn items_functions(file: Seq<char>, items: Seq<FileItem>, contract: bool) -> Seq<
    FunctionInfoView,
>
    decreases items.len(),
{
    if items.len() == 0 {
        Seq::empty()
    } else {
        items_functions(file, items.drop_last(), contract) + item_functions(
            file,
            items.last(),
            contract,
        )
    }
}

/// Some item is an `impl` block marked `#[contractimpl]`.
pub open spec fn holds_contract_impl(items: Seq<FileItem>) -> bool {
    exists|k: int|
        0 <= k < items.len() && (#[trigger] items[k] matches FileItem::Impl { attrs, .. }
            && contract_attr(attrs@))
}

/// A source file as the scan sees it: its path, and its items or why it
/// could not be read or parsed.
pub open spec fn file_view(f: SourceFile) -> (Seq<char>, Result<Seq<FileItem>, Seq<char>>) {
    (
        f.path@,
        match f.items {
            Ok(items) => Ok(items@),
            Err(m) => Err(m@),
        },
    )
}

pub open spec fn file_views(files: Seq<SourceFile>) -> Seq<
    (Seq<char>, Result<Seq<FileItem>, Seq<char>>),
> {
    files.map_values(|f: SourceFile| file_view(f))
}

/// The scanned sources form a contract crate: some file that parsed holds a
/// `#[contractimpl]` block.
pub open spec fn contract_crate(fs: Seq<(Seq<char>, Result<Seq<FileItem>, Seq<char>>)>) -> bool {
    exists|k: int|
        0 <= k < fs.len() && ((#[trigger] fs[k]).1 matches Ok(items) && holds_contract_impl(items))
}

/// The scan of a list of source files: the functions of those that parsed,
/// how many parsed, and why each other one did not.
pub open spec fn scan_of(files: Seq<SourceFile>) -> ScanResultView {
    scan_views(file_views(files), contract_crate(file_views(files)))
}

/// The scan of source files as the scan sees them, `contract` saying whether
/// they form a contract crate.
pub open spec fn scan_views(fs: Seq<(Seq<char>, Result<Seq<FileItem>, Seq<char>>)>, contract: bool) -> ScanResultView
    decreases fs.len(),
{
    if fs.len() == 0 {
        ScanResultView { functions: Seq::empty(), files_scanned: 0, parse_errors: Seq::empty() }
    } else {
        let prev = scan_views(fs.drop_last(), contract);
        let f = fs.last();
        match f.1 {
            Ok(items) => ScanResultView {
                functions: prev.functions + items_functions(f.0, items, contract),
                files_scanned: (prev.files_scanned + 1) as usize,
                parse_errors: prev.parse_errors,
            },
            Err(msg) => ScanResultView {
                functions: prev.functions,
                files_scanned: prev.files_scanned,
                parse_errors: prev.parse_errors.push((f.0, msg)),
            },
        }
    }
}

pub open spec fn files_fit(files: Seq<SourceFile>) -> bool {
    forall|k: int| 0 <= k < files.len() ==> file_fits(#[trigger] files[k])
}

fn is_contract_impl(attrs: &Vec<Vec<String>>) -> (r: bool)
    ensures
        r == contract_attr(attrs@),
{
    let mut k: usize = 0;
    while k < attrs.len()
        invariant
            0 <= k <= attrs.len(),
            forall|j: int| 0 <= j < k ==> views((#[trigger] attrs@[j])@) != seq!["contractimpl"@],
        decreases attrs.len() - k,
    {
        let a = &attrs[k];
        if a.len() == 1 && same(a[0].as_str(), "contractimpl") {
            assert(views(a@) =~= seq!["contractimpl"@]);
            return true;
        }
        proof {
            if views(a@) == seq!["contractimpl"@] {
                assert(views(a@).len() == 1);
                assert(views(a@)[0] == a@[0]@);
            }
        }
        k += 1;
    }
    false
}

/// What the scan records of one function.
fn record_fn(file: &String, d: &FnDecl, in_contract: bool) -> (r: FunctionInfo)
    requires
        fn_fits(*d),
    ensures
        r@ == fn_info(file@, *d, in_contract),
{
    let params = param_names(&d.params);
    let mut lets: Vec<LetBinding> = Vec::new();
    let mut accesses: Vec<RawAccess> = Vec::new();
    visit_nodes(&d.body, &mut lets, &mut accesses);
    let r = FunctionInfo {
        name: d.name.clone(),
        file: file.clone(),
        line: d.line,
        entry_point: d.is_pub && in_contract,
        params,
        lets,
        accesses,
    };
    assert(r@.lets =~= lets_nodes(d.body@));
    assert(r@.accesses =~= accs_nodes(d.body@));
    r
}

pub open spec fn fn_views(v: Seq<FunctionInfo>) -> Seq<FunctionInfoView> {
    v.map_values(|f: FunctionInfo| f@)
}

/// Record the functions of one parsed file.
fn visit_file(file: &String, items: &Vec<FileItem>, contract: bool, out: &mut Vec<FunctionInfo>)
    requires
        items_fit(items@),
    ensures
        fn_views(final(out)@) == fn_views(old(out)@) + items_functions(file@, items@, contract),
{
    let ghost start = fn_views(out@);
    let mut i: usize = 0;
    while i < items.len()
        invariant
            0 <= i <= items.len(),
            items_fit(items@),
            fn_views(out@) == start + items_functions(file@, items@.take(i as int), contract),
        decreases items.len() - i,
    {
        proof {
            assert(items@.take((i + 1) as int).drop_last() =~= items@.take(i as int));
            assert(item_fits(items@[i as int]));
        }
        let ghost before = fn_views(out@);
        match &items[i] {
            FileItem::Fn(d) => {
                let f = record_fn(file, d, contract);
                let ghost fv = f@;
                out.push(f);
                assert(fn_views(out@) =~= before + seq![fv]);
            },
            FileItem::Impl { attrs, fns } => {
                let in_contract = is_contract_impl(attrs);
                let ghost want = fns@.map_values(|d: FnDecl| fn_info(file@, d, contract_attr(attrs@)));
                let mut j: usize = 0;
                while j < fns.len()
                    invariant
                        0 <= j <= fns.len(),
                        in_contract == contract_attr(attrs@),
                        want == fns@.map_values(|d: FnDecl| fn_info(file@, d, contract_attr(attrs@))),
                        forall|k: int| 0 <= k < fns@.len() ==> fn_fits(#[trigger] fns@[k]),
                        fn_views(out@) == before + want.take(j as int),
                    decreases fns.len() - j,
                {
                    let f = record_fn(file, &fns[j], in_contract);
                    let ghost fv = f@;
                    let ghost prev = fn_views(out@);
                    out.push(f);
                    proof {
                        assert(fv == want[j as int]);
                        assert(fn_views(out@) =~= prev.push(fv));
                        assert(want.take((j + 1) as int) =~= want.take(j as int).push(fv));
                    }
                    j += 1;
                }
                assert(want.take(fns.len() as int) =~= want);
            },
        }
        proof {
            assert(fn_views(out@) =~= start + items_functions(
                file@,
                items@.take((i + 1) as int),
                contract,
            ));
        }
        i += 1;
    }
    assert(items@.take(items.len() as int) =~= items@);
}

pub open spec fn error_views(v: Seq<(String, String)>) -> Seq<(Seq<char>, Seq<char>)> {
    v.map_values(|e: (String, String)| (e.0@, e.1@))
}

/// Scan a list of source files: record the functions of each file that was
/// read and parsed, and report each one that was not. Failures are reported,
/// never silent.
/// Whether some file that parsed holds a `#[contractimpl]` block.
fn is_contract_crate(files: &Vec<SourceFile>) -> (r: bool)
    ensures
        r == contract_crate(file_views(files@)),
{
    let ghost vs = file_views(files@);
    let mut i: usize = 0;
    while i < files.len()
        invariant
            0 <= i <= files.len(),
            vs == file_views(files@),
            forall|k: int| 0 <= k < i ==> !((#[trigger] vs[k]).1 matches Ok(items) && holds_contract_impl(items)),
        decreases files.len() - i,
    {
        let f = &files[i];
        match &f.items {
            Ok(items) => {
                let mut j: usize = 0;
                while j < items.len()
                    invariant
                        i < files.len(),
                        vs == file_views(files@),
                        files@[i as int] == *f,
                        f.items is Ok,
                        f.items->Ok_0 == *items,
                        0 <= j <= items.len(),
                        forall|k: int|
                            0 <= k < j ==> !(#[trigger] items@[k] matches FileItem::Impl { attrs, .. }
                                && contract_attr(attrs@)),
                    decreases items.len() - j,
                {
                    match &items[j] {
                        FileItem::Impl { attrs, .. } => {
                            if is_contract_impl(attrs) {
                                assert(holds_contract_impl(items@));
                                assert(vs[i as int] == file_view(files@[i as int]));
                                assert(vs[i as int].1 == Ok::<Seq<FileItem>, Seq<char>>(items@));
                                return true;
                            }
                        },
                        _ => {},
                    }
                    j += 1;
                }
            },
            Err(_) => {},
        }
        proof {
            assert(vs[i as int] == file_view(files@[i as int]));
        }
        i += 1;
    }
    false
}

pub fn scan(files: &Vec<SourceFile>) -> (r: ScanResult)
    requires
        files_fit(files@),
    ensures
        r@ == scan_of(files@),
{
    let contract = is_contract_crate(files);
    let ghost vs = file_views(files@);
    let mut functions: Vec<FunctionInfo> = Vec::new();
    let mut files_scanned: usize = 0;
    let mut parse_errors: Vec<(String, String)> = Vec::new();
    let mut i: usize = 0;
    while i < files.len()
        invariant
            0 <= i <= files.len(),
            files_fit(files@),
            files_scanned <= i,
            vs == file_views(files@),
            contract == contract_crate(vs),
            fn_views(functions@) == scan_views(vs.take(i as int), contract).functions,
            files_scanned == scan_views(vs.take(i as int), contract).files_scanned,
            error_views(parse_errors@) == scan_views(vs.take(i as int), contract).parse_errors,
        decreases files.len() - i,
    {
        let f = &files[i];
        proof {
            assert(vs.take((i + 1) as int).drop_last() =~= vs.take(i as int));
            assert(vs.take((i + 1) as int).last() == file_view(*f));
            assert(file_fits(files@[i as int]));
        }
        match &f.items {
            Ok(items) => {
                files_scanned += 1;
                visit_file(&f.path, items, contract, &mut functions);
            },
            Err(msg) => {
                let ghost prev = error_views(parse_errors@);
                parse_errors.push((f.path.clone(), msg.clone()));
                assert(error_views(parse_errors@) =~= prev.push((f.path@, msg@)));
            },
        }
        i += 1;
    }
    assert(vs.take(files.len() as int) =~= vs);
    let r = ScanResult { functions, files_scanned, parse_errors };
    assert(r@.functions =~= fn_views(r.functions@));
    assert(r@.parse_errors =~= error_views(r.parse_errors@));
    r
}

/// Source files as read: a path, and the text or why it could not be read.
/// Each text is taken as `syn` parses it.
pub open spec fn parsed_sources(files: Seq<(String, Result<String, String>)>) -> Seq<
    (Seq<char>, Result<Seq<FileItem>, Seq<char>>),
> {
    files.map_values(
        |f: (String, Result<String, String>)|
            (
                f.0@,
                match f.1 {
                    Ok(text) => parsed_items(text@),
                    Err(e) => Err(e@),
                },
            ),
    )
}

/// Every column of every parsed file is below `usize::MAX`.
pub open spec fn views_fit(fs: Seq<(Seq<char>, Result<Seq<FileItem>, Seq<char>>)>) -> bool {
    forall|k: int| 0 <= k < fs.len() ==> ((#[trigger] fs[k]).1 matches Ok(items) ==> items_fit(items))
}

/// Scan source texts: parse each one that was read, then scan the files.
/// There is no result when a column is too large to report.
pub fn scan_sources(files: &Vec<(String, Result<String, String>)>) -> (r: Option<ScanResult>)
    ensures
        r is Some <==> views_fit(parsed_sources(files@)),
        r matches Some(s) ==> s@ == scan_views(
            parsed_sources(files@),
            contract_crate(parsed_sources(files@)),
        ),
{
    let ghost ps = parsed_sources(files@);
    let mut parsed: Vec<SourceFile> = Vec::new();
    let mut i: usize = 0;
    while i < files.len()
        invariant
            0 <= i <= files.len(),
            ps == parsed_sources(files@),
            parsed.len() == i,
            file_views(parsed@) == ps.take(i as int),
        decreases files.len() - i,
    {
        let f = &files[i];
        let items = match &f.1 {
            Ok(text) => parse_source(text.as_str()),
            Err(e) => Err(e.clone()),
        };
        let sf = SourceFile { path: f.0.clone(), items };
        proof {
            assert(file_view(sf) == ps[i as int]);
        }
        let ghost before = file_views(parsed@);
        parsed.push(sf);
        assert(file_views(parsed@) =~= before.push(ps[i as int]));
        assert(ps.take((i + 1) as int) =~= ps.take(i as int).push(ps[i as int]));
        i += 1;
    }
    assert(ps.take(files.len() as int) =~= ps);
    let mut k: usize = 0;
    while k < parsed.len()
        invariant
            0 <= k <= parsed.len(),
            ps == parsed_sources(files@),
            file_views(parsed@) == ps,
            forall|j: int| 0 <= j < k ==> file_fits(#[trigger] parsed@[j]),
        decreases parsed.len() - k,
    {
        assert(ps[k as int] == file_view(parsed@[k as int]));
        match &parsed[k].items {
            Ok(items) => {
                if !items_fit_exec(items) {
                    assert(ps[k as int].1 == Ok::<Seq<FileItem>, Seq<char>>(items@));
                    assert(!(ps[k as int].1 matches Ok(its) ==> items_fit(its)));
                    assert(!views_fit(ps));
                    return None;
                }
            },
            Err(_) => {},
        }
        k += 1;
    }
    proof {
        assert forall|j: int| 0 <= j < ps.len() implies ((#[trigger] ps[j]).1 matches Ok(items)
            ==> items_fit(items)) by {
            assert(ps[j] == file_view(parsed@[j]));
            assert(file_fits(parsed@[j]));
        }
    }
    Some(scan(&parsed))
}

/// Whether a file found under the scanned path is one to scan: Rust source,
/// outside build output, version control and vendored JavaScript.
pub open spec fn scannable(extension: Option<Seq<char>>, components: Seq<Seq<char>>) -> bool {
    &&& extension == Some("rs"@)
    &&& forall|k: int|
        0 <= k < components.len() ==> !(#[trigger] components[k] == "target"@ || components[k]
            == ".git"@ || components[k] == "node_modules"@)
}

pub fn should_scan(extension: Option<&str>, components: &Vec<String>) -> (r: bool)
    ensures
        r == scannable(
            match extension {
                Some(x) => Some(x@),
                None => None,
            },
            views(components@),
        ),
{
    match extension {
        Some(x) => {
            if !same(x, "rs") {
                return false;
            }
        },
        None => {
            return false;
        },
    }
    let mut k: usize = 0;
    while k < components.len()
        invariant
            0 <= k <= components.len(),
            forall|j: int|
                0 <= j < k ==> !(#[trigger] views(components@)[j] == "target"@ || views(
                    components@,
                )[j] == ".git"@ || views(components@)[j] == "node_modules"@),
        decreases components.len() - k,
    {
        let c = components[k].as_str();
        if same(c, "target") || same(c, ".git") || same(c, "node_modules") {
            assert(views(components@)[k as int] == components@[k as int]@);
            return false;
        }
        k += 1;
    }
    true
}

} // verus!
