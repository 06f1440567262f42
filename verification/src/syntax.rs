//! The syntax tree the scan reads: the parts of a Rust source file that
//! decide where storage is accessed and what feeds its keys.
//!
//! Each expression carries the text of its tokens as the token printer
//! writes it (spaces between tokens); the scan tidies that text itself.
//! Expressions the scan has no rule for keep their sub-expressions and
//! statements, in source order, as the children of `Other`. The others keep,
//! besides the parts the scan reads, the expressions and statements a full
//! walk meets in their other parts (attributes, generic arguments, types),
//! where the walk meets them: `pre` before the parts, `mid` between a method
//! call's receiver and arguments, `post` after a cast's operand.
use vstd::prelude::*;

verus! {

#[derive(Debug)]
pub enum Expression {
    /// `receiver.method::<turbofish>(args)`, with the line and the 0-based
    /// column of the method name.
    MethodCall {
        pre: Vec<Node>,
        receiver: Box<Expression>,
        method: String,
        mid: Vec<Node>,
        args: Vec<Expression>,
        line: usize,
        column: usize,
        tokens: String,
    },
    /// A path such as `DataKey::Admin` or `addr`, by its segments.
    Path { pre: Vec<Node>, segments: Vec<String>, tokens: String },
    /// `func(args)`.
    Call { pre: Vec<Node>, func: Box<Expression>, args: Vec<Expression>, tokens: String },
    /// `Path { field: value, .. }`, with the fields in order.
    Struct {
        pre: Vec<Node>,
        path: Vec<String>,
        fields: Vec<FieldInit>,
        rest: Option<Box<Expression>>,
        tokens: String,
    },
    /// A literal.
    Lit { pre: Vec<Node>, tokens: String },
    /// A macro invocation; its tokens are not parsed further.
    Macro { pre: Vec<Node>, tokens: String },
    /// `(a, b, ..)`.
    Tuple { pre: Vec<Node>, elems: Vec<Expression>, tokens: String },
    /// `&inner` or `&mut inner`.
    Reference { pre: Vec<Node>, inner: Box<Expression>, tokens: String },
    /// `(inner)`.
    Paren { pre: Vec<Node>, inner: Box<Expression>, tokens: String },
    /// An invisible group around `inner`.
    Group { pre: Vec<Node>, inner: Box<Expression>, tokens: String },
    /// `inner as T`.
    Cast { pre: Vec<Node>, inner: Box<Expression>, post: Vec<Node>, tokens: String },
    /// Any other expression, with its sub-expressions and statements.
    Other { children: Vec<Node>, tokens: String },
}

/// One `field: value` of a struct expression, with what its attributes hold.
#[derive(Debug)]
pub struct FieldInit {
    pub pre: Vec<Node>,
    pub value: Expression,
}

/// A piece of a function body: an expression or a `let` statement.
#[derive(Debug)]
pub enum Node {
    Expression(Expression),
    LetStmt(LetStmt),
}

/// `let pat = init else { diverge };`, with the line of `let`; `pre` holds
/// what its attributes and its pattern hold.
#[derive(Debug)]
pub struct LetStmt {
    pub pre: Vec<Node>,
    pub pat: Pattern,
    pub line: usize,
    pub init: Option<Box<Expression>>,
    pub diverge: Option<Box<Expression>>,
}

/// A pattern, as far as the names it binds go.
#[derive(Debug)]
pub enum Pattern {
    /// `name`, `mut name`, `ref name`, or `name @ ..`.
    Ident(String),
    /// `pat: T`.
    Type(Box<Pattern>),
    /// `&pat`.
    Reference(Box<Pattern>),
    /// `(a, b)`.
    Tuple(Vec<Pattern>),
    /// `Path(a, b)`.
    TupleStruct(Vec<Pattern>),
    /// `Path { a, b: c }`, with the field patterns.
    Struct(Vec<Pattern>),
    /// `a | b`.
    Or(Vec<Pattern>),
    /// Any pattern that binds no name the scan follows.
    Other,
}

/// A function, with the line of its name and the patterns of its typed
/// parameters.
#[derive(Debug)]
pub struct FnDecl {
    pub name: String,
    pub line: usize,
    /// Declared `pub`.
    pub is_pub: bool,
    pub params: Vec<Pattern>,
    pub body: Vec<Node>,
}

/// An item the scan records functions from.
#[derive(Debug)]
pub enum FileItem {
    /// A free function.
    Fn(FnDecl),
    /// An `impl` block, with the path of each of its attributes (a leading
    /// `::` as an empty first segment) and its functions.
    Impl { attrs: Vec<Vec<String>>, fns: Vec<FnDecl> },
}

/// A source file: its display path, and its items in the order a full walk
/// of its syntax meets them, or why it could not be read or parsed.
#[derive(Debug)]
pub struct SourceFile {
    pub path: String,
    pub items: Result<Vec<FileItem>, String>,
}

/// Every column is below `usize::MAX`, so the 1-based column fits.
pub open spec fn expr_fits(e: Expression) -> bool
    decreases e,
{
    match e {
        Expression::MethodCall { pre, receiver, mid, args, column, .. } => column < usize::MAX
            && nodes_fit(pre@) && expr_fits(*receiver) && nodes_fit(mid@) && exprs_fit(args@),
        Expression::Path { pre, .. } => nodes_fit(pre@),
        Expression::Call { pre, func, args, .. } => nodes_fit(pre@) && expr_fits(*func) && exprs_fit(
            args@,
        ),
        Expression::Struct { pre, fields, rest, .. } => nodes_fit(pre@) && fields_fit(fields@)
            && match rest {
            Some(r) => expr_fits(*r),
            None => true,
        },
        Expression::Lit { pre, .. } => nodes_fit(pre@),
        Expression::Macro { pre, .. } => nodes_fit(pre@),
        Expression::Tuple { pre, elems, .. } => nodes_fit(pre@) && exprs_fit(elems@),
        Expression::Reference { pre, inner, .. } => nodes_fit(pre@) && expr_fits(*inner),
        Expression::Paren { pre, inner, .. } => nodes_fit(pre@) && expr_fits(*inner),
        Expression::Group { pre, inner, .. } => nodes_fit(pre@) && expr_fits(*inner),
        Expression::Cast { pre, inner, post, .. } => nodes_fit(pre@) && expr_fits(*inner)
            && nodes_fit(post@),
        Expression::Other { children, .. } => nodes_fit(children@),
    }
}

pub open spec fn field_fits(f: FieldInit) -> bool
    decreases f,
{
    nodes_fit(f.pre@) && expr_fits(f.value)
}

pub open spec fn fields_fit(s: Seq<FieldInit>) -> bool
    decreases s,
{
    if s.len() == 0 {
        true
    } else {
        fields_fit(s.drop_last()) && field_fits(s.last())
    }
}

pub open spec fn exprs_fit(s: Seq<Expression>) -> bool
    decreases s,
{
    if s.len() == 0 {
        true
    } else {
        exprs_fit(s.drop_last()) && expr_fits(s.last())
    }
}

pub open spec fn opt_fits(o: Option<Box<Expression>>) -> bool
    decreases o,
{
    match o {
        Some(b) => expr_fits(*b),
        None => true,
    }
}

pub open spec fn node_fits(n: Node) -> bool
    decreases n,
{
    match n {
        Node::Expression(e) => expr_fits(e),
        Node::LetStmt(l) => nodes_fit(l.pre@) && opt_fits(l.init) && opt_fits(l.diverge),
    }
}

pub open spec fn nodes_fit(s: Seq<Node>) -> bool
    decreases s,
{
    if s.len() == 0 {
        true
    } else {
        nodes_fit(s.drop_last()) && node_fits(s.last())
    }
}

pub open spec fn fn_fits(f: FnDecl) -> bool {
    nodes_fit(f.body@)
}

pub open spec fn item_fits(i: FileItem) -> bool {
    match i {
        FileItem::Fn(f) => fn_fits(f),
        FileItem::Impl { fns, .. } => forall|k: int| 0 <= k < fns@.len() ==> fn_fits(#[trigger] fns@[k]),
    }
}

pub open spec fn items_fit(s: Seq<FileItem>) -> bool {
    forall|k: int| 0 <= k < s.len() ==> item_fits(#[trigger] s[k])
}

pub open spec fn file_fits(f: SourceFile) -> bool {
    match f.items {
        Ok(items) => items_fit(items@),
        Err(_) => true,
    }
}

fn expr_fits_exec(e: &Expression) -> (r: bool)
    ensures
        r == expr_fits(*e),
    decreases e,
{
    match e {
        Expression::MethodCall { pre, receiver, mid, args, column, .. } => *column < usize::MAX
            && nodes_fit_exec(pre) && expr_fits_exec(receiver) && nodes_fit_exec(mid)
            && exprs_fit_exec(args),
        Expression::Path { pre, .. } => nodes_fit_exec(pre),
        Expression::Call { pre, func, args, .. } => nodes_fit_exec(pre) && expr_fits_exec(func)
            && exprs_fit_exec(args),
        Expression::Struct { pre, fields, rest, .. } => nodes_fit_exec(pre) && fields_fit_exec(
            fields,
        ) && match rest {
            Some(r) => expr_fits_exec(r),
            None => true,
        },
        Expression::Lit { pre, .. } => nodes_fit_exec(pre),
        Expression::Macro { pre, .. } => nodes_fit_exec(pre),
        Expression::Tuple { pre, elems, .. } => nodes_fit_exec(pre) && exprs_fit_exec(elems),
        Expression::Reference { pre, inner, .. } => nodes_fit_exec(pre) && expr_fits_exec(inner),
        Expression::Paren { pre, inner, .. } => nodes_fit_exec(pre) && expr_fits_exec(inner),
        Expression::Group { pre, inner, .. } => nodes_fit_exec(pre) && expr_fits_exec(inner),
        Expression::Cast { pre, inner, post, .. } => nodes_fit_exec(pre) && expr_fits_exec(inner)
            && nodes_fit_exec(post),
        Expression::Other { children, .. } => nodes_fit_exec(children),
    }
}

fn fields_fit_exec(s: &Vec<FieldInit>) -> (r: bool)
    ensures
        r == fields_fit(s@),
    decreases s,
{
    let mut i: usize = 0;
    while i < s.len()
        invariant
            0 <= i <= s.len(),
            fields_fit(s@.take(i as int)),
        decreases s.len() - i,
    {
        assert(s@.take((i + 1) as int).drop_last() =~= s@.take(i as int));
        let f = &s[i];
        if !(nodes_fit_exec(&f.pre) && expr_fits_exec(&f.value)) {
            proof {
                lemma_fields_fit_prefix(s@, i + 1);
            }
            return false;
        }
        assert(field_fits(s@[i as int]));
        assert(s@.take((i + 1) as int).last() == s@[i as int]);
        i += 1;
    }
    assert(s@.take(s.len() as int) =~= s@);
    true
}

proof fn lemma_fields_fit_prefix(s: Seq<FieldInit>, n: int)
    requires
        0 < n <= s.len(),
        !field_fits(s[n - 1]),
    ensures
        !fields_fit(s),
    decreases s.len(),
{
    if n < s.len() {
        assert(s.drop_last()[n - 1] == s[n - 1]);
        lemma_fields_fit_prefix(s.drop_last(), n);
    }
}

fn exprs_fit_exec(s: &Vec<Expression>) -> (r: bool)
    ensures
        r == exprs_fit(s@),
    decreases s,
{
    let mut i: usize = 0;
    while i < s.len()
        invariant
            0 <= i <= s.len(),
            exprs_fit(s@.take(i as int)),
        decreases s.len() - i,
    {
        assert(s@.take((i + 1) as int).drop_last() =~= s@.take(i as int));
        if !expr_fits_exec(&s[i]) {
            proof {
                lemma_exprs_fit_prefix(s@, i + 1);
            }
            return false;
        }
        i += 1;
    }
    assert(s@.take(s.len() as int) =~= s@);
    true
}

proof fn lemma_exprs_fit_prefix(s: Seq<Expression>, n: int)
    requires
        0 < n <= s.len(),
        !expr_fits(s[n - 1]),
    ensures
        !exprs_fit(s),
    decreases s.len(),
{
    if n < s.len() {
        assert(s.drop_last()[n - 1] == s[n - 1]);
        lemma_exprs_fit_prefix(s.drop_last(), n);
    }
}

proof fn lemma_nodes_fit_prefix(s: Seq<Node>, n: int)
    requires
        0 < n <= s.len(),
        !node_fits(s[n - 1]),
    ensures
        !nodes_fit(s),
    decreases s.len(),
{
    if n < s.len() {
        assert(s.drop_last()[n - 1] == s[n - 1]);
        lemma_nodes_fit_prefix(s.drop_last(), n);
    }
}

fn node_fits_exec(n: &Node) -> (r: bool)
    ensures
        r == node_fits(*n),
    decreases n,
{
    match n {
        Node::Expression(e) => expr_fits_exec(e),
        Node::LetStmt(l) => nodes_fit_exec(&l.pre) && (match &l.init {
            Some(b) => expr_fits_exec(b),
            None => true,
        }) && (match &l.diverge {
            Some(b) => expr_fits_exec(b),
            None => true,
        }),
    }
}

fn nodes_fit_exec(s: &Vec<Node>) -> (r: bool)
    ensures
        r == nodes_fit(s@),
    decreases s,
{
    let mut i: usize = 0;
    while i < s.len()
        invariant
            0 <= i <= s.len(),
            nodes_fit(s@.take(i as int)),
        decreases s.len() - i,
    {
        assert(s@.take((i + 1) as int).drop_last() =~= s@.take(i as int));
        if !node_fits_exec(&s[i]) {
            proof {
                lemma_nodes_fit_prefix(s@, i + 1);
            }
            return false;
        }
        i += 1;
    }
    assert(s@.take(s.len() as int) =~= s@);
    true
}

/// Whether every column in the items is below `usize::MAX`.
pub fn items_fit_exec(items: &Vec<FileItem>) -> (r: bool)
    ensures
        r == items_fit(items@),
{
    let mut i: usize = 0;
    while i < items.len()
        invariant
            0 <= i <= items.len(),
            forall|k: int| 0 <= k < i ==> item_fits(#[trigger] items@[k]),
        decreases items.len() - i,
    {
        let ok = match &items[i] {
            FileItem::Fn(f) => nodes_fit_exec(&f.body),
            FileItem::Impl { fns, .. } => {
                let mut j: usize = 0;
                let mut all = true;
                while j < fns.len()
                    invariant
                        0 <= j <= fns.len(),
                        all == forall|k: int| 0 <= k < j ==> fn_fits(#[trigger] fns@[k]),
                    decreases fns.len() - j,
                {
                    if !nodes_fit_exec(&fns[j].body) {
                        all = false;
                    }
                    j += 1;
                }
                all
            },
        };
        if !ok {
            assert(!item_fits(items@[i as int]));
            return false;
        }
        i += 1;
    }
    true
}

} // verus!
