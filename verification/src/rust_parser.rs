//! Rust source text to the syntax tree the scan reads, by way of `syn`.
//!
//! `syn` parses the text; the functions here convert its tree into
//! `crate::syntax`, node for node. Nothing of this is proved: the result of
//! a parse is named `parsed_items`, and the scan is proved for every value
//! of that name.
use vstd::prelude::*;
use crate::syntax::{Expression, FieldInit, FileItem, FnDecl, LetStmt, Node, Pattern};
use quote::ToTokens;
use syn::visit::Visit;

verus! {

#[verifier::external_type_specification]
#[verifier::external_body]
pub struct ExSynFile(syn::File);

#[verifier::external_type_specification]
#[verifier::external_body]
pub struct ExSynExpr(syn::Expr);

#[verifier::external_type_specification]
#[verifier::external_body]
pub struct ExSynExprMethodCall(syn::ExprMethodCall);

#[verifier::external_type_specification]
#[verifier::external_body]
pub struct ExSynExprStruct(syn::ExprStruct);

#[verifier::external_type_specification]
#[verifier::external_body]
pub struct ExSynExprCast(syn::ExprCast);

#[verifier::external_type_specification]
#[verifier::external_body]
pub struct ExSynAttribute(syn::Attribute);

#[verifier::external_type_specification]
#[verifier::external_body]
pub struct ExSynPath(syn::Path);

#[verifier::external_type_specification]
#[verifier::external_body]
pub struct ExSynPat(syn::Pat);

#[verifier::external_type_specification]
#[verifier::external_body]
pub struct ExSynLocal(syn::Local);

#[verifier::external_type_specification]
#[verifier::external_body]
pub struct ExSynSignature(syn::Signature);

#[verifier::external_type_specification]
#[verifier::external_body]
pub struct ExSynBlock(syn::Block);

#[verifier::external_type_specification]
#[verifier::external_body]
pub struct ExSynItemImpl(syn::ItemImpl);

#[verifier::external_type_specification]
#[verifier::external_body]
pub struct ExSynItemFn(syn::ItemFn);

/// What `syn::parse_file` makes of a source text, converted to the library's
/// syntax tree, or the parser's error message.
pub uninterp spec fn parsed_items(text: Seq<char>) -> Result<Seq<FileItem>, Seq<char>>;

/// Parses Rust source with `syn::parse_file` and converts the tree. The
/// result depends on the text alone; stating it takes Rust's grammar, so it
/// is named `parsed_items` and nothing more is claimed of it.
#[verifier::external_body]
pub(crate) fn parse_source(text: &str) -> (r: Result<Vec<FileItem>, String>)
    ensures
        match r {
            Ok(v) => parsed_items(text@) == Ok::<Seq<FileItem>, Seq<char>>(v@),
            Err(m) => parsed_items(text@) == Err::<Seq<FileItem>, Seq<char>>(m@),
        },
{
    match syn::parse_file(text) {
        Ok(ast) => Ok(file_items(&ast)),
        Err(e) => Err(e.to_string()),
    }
}

/// The functions and `impl` blocks of a parsed file, in the order
/// `syn::visit` walks them.
#[verifier::external_body]
fn file_items(f: &syn::File) -> Vec<FileItem> {
    let mut c = Items { items: Vec::new() };
    c.visit_file(f);
    c.items
}

/// Collects functions and `impl` blocks; it does not walk into them.
struct Items {
    items: Vec<FileItem>,
}

impl<'ast> Visit<'ast> for Items {
    #[verifier::external_body]
    fn visit_item_impl(&mut self, node: &'ast syn::ItemImpl) {
        let attrs = node.attrs.iter().map(|a| attr_path(a.path())).collect();
        let mut fns = Vec::new();
        for item in &node.items {
            if let syn::ImplItem::Fn(f) = item {
                let is_pub = matches!(f.vis, syn::Visibility::Public(_));
                fns.push(fn_decl(&f.sig, &f.block, is_pub));
            }
        }
        self.items.push(FileItem::Impl { attrs, fns });
    }

    #[verifier::external_body]
    fn visit_item_fn(&mut self, node: &'ast syn::ItemFn) {
        let is_pub = matches!(node.vis, syn::Visibility::Public(_));
        self.items.push(FileItem::Fn(fn_decl(&node.sig, &node.block, is_pub)));
    }
}

/// An attribute's path by its segments, a leading `::` as an empty first
/// segment.
#[verifier::external_body]
fn attr_path(p: &syn::Path) -> Vec<String> {
    let lead = p.leading_colon.iter().map(|_| String::new());
    lead.chain(p.segments.iter().map(|s| s.ident.to_string())).collect()
}

/// A path's segments.
#[verifier::external_body]
fn idents(p: &syn::Path) -> Vec<String> {
    p.segments.iter().map(|s| s.ident.to_string()).collect()
}

/// A function: its name and the line of the name, its parameter patterns
/// (a `self` parameter as a pattern that binds nothing), and its body.
#[verifier::external_body]
fn fn_decl(sig: &syn::Signature, block: &syn::Block, is_pub: bool) -> FnDecl {
    let params = sig.inputs.iter().map(|a| match a {
        syn::FnArg::Typed(t) => pattern(&t.pat),
        syn::FnArg::Receiver(_) => Pattern::Other,
    }).collect();
    let mut body = Children { nodes: Vec::new() };
    body.visit_block(block);
    let line = sig.ident.span().start().line;
    FnDecl { name: sig.ident.to_string(), line, is_pub, params, body: body.nodes }
}

/// Collects the expressions and `let` statements directly under a node, in
/// the order `syn::visit` walks them.
struct Children {
    nodes: Vec<Node>,
}

impl<'ast> Visit<'ast> for Children {
    #[verifier::external_body]
    fn visit_expr(&mut self, e: &'ast syn::Expr) {
        self.nodes.push(Node::Expression(expression(e)));
    }

    #[verifier::external_body]
    fn visit_local(&mut self, l: &'ast syn::Local) {
        self.nodes.push(Node::LetStmt(let_stmt(l)));
    }
}

/// A `let` statement; `pre` holds what a walk meets in its attributes and
/// its pattern, which it walks before the initialiser.
#[verifier::external_body]
fn let_stmt(l: &syn::Local) -> LetStmt {
    let mut pre = Children { nodes: attr_nodes(&l.attrs) };
    pre.visit_pat(&l.pat);
    LetStmt {
        pre: pre.nodes,
        pat: pattern(&l.pat),
        line: l.let_token.span.start().line,
        init: l.init.as_ref().map(|i| boxed(&i.expr)),
        diverge: l.init.as_ref().and_then(|i| i.diverge.as_ref()).map(|d| boxed(&d.1)),
    }
}

/// The expressions and `let` statements a walk meets in attributes.
#[verifier::external_body]
fn attr_nodes(attrs: &Vec<syn::Attribute>) -> Vec<Node> {
    let mut c = Children { nodes: Vec::new() };
    for a in attrs {
        c.visit_attribute(a);
    }
    c.nodes
}

#[verifier::external_body]
fn boxed(e: &syn::Expr) -> Box<Expression> {
    Box::new(expression(e))
}

/// An expression, with the text of its tokens. A path, a literal or a
/// macro holds nothing the scan reads beyond what a walk meets in it.
#[verifier::external_body]
fn expression(e: &syn::Expr) -> Expression {
    let tokens = e.to_token_stream().to_string();
    match e {
        syn::Expr::MethodCall(m) => method_call(m, tokens),
        syn::Expr::Struct(s) => struct_expr(s, tokens),
        syn::Expr::Path(p) => Expression::Path { pre: children(e), segments: idents(&p.path), tokens },
        syn::Expr::Call(c) => {
            let args = c.args.iter().map(expression).collect();
            Expression::Call { pre: attr_nodes(&c.attrs), func: boxed(&c.func), args, tokens }
        },
        _ => wrapping(e, tokens),
    }
}

#[verifier::external_body]
fn wrapping(e: &syn::Expr, tokens: String) -> Expression {
    match e {
        syn::Expr::Reference(r) => Expression::Reference { pre: attr_nodes(&r.attrs), inner: boxed(&r.expr), tokens },
        syn::Expr::Paren(p) => Expression::Paren { pre: attr_nodes(&p.attrs), inner: boxed(&p.expr), tokens },
        syn::Expr::Group(g) => Expression::Group { pre: attr_nodes(&g.attrs), inner: boxed(&g.expr), tokens },
        syn::Expr::Cast(c) => cast_expr(c, tokens),
        _ => leaf(e, tokens),
    }
}

#[verifier::external_body]
fn leaf(e: &syn::Expr, tokens: String) -> Expression {
    match e {
        syn::Expr::Tuple(t) => {
            let elems = t.elems.iter().map(expression).collect();
            Expression::Tuple { pre: attr_nodes(&t.attrs), elems, tokens }
        },
        syn::Expr::Lit(_) => Expression::Lit { pre: children(e), tokens },
        syn::Expr::Macro(_) => Expression::Macro { pre: children(e), tokens },
        _ => Expression::Other { children: children(e), tokens },
    }
}

/// The expressions and `let` statements directly under an expression.
#[verifier::external_body]
fn children(e: &syn::Expr) -> Vec<Node> {
    let mut c = Children { nodes: Vec::new() };
    syn::visit::visit_expr(&mut c, e);
    c.nodes
}

/// A method call; `mid` holds what a walk meets in its turbofish.
#[verifier::external_body]
fn method_call(m: &syn::ExprMethodCall, tokens: String) -> Expression {
    let start = m.method.span().start();
    let mut mid = Children { nodes: Vec::new() };
    for t in &m.turbofish {
        mid.visit_angle_bracketed_generic_arguments(t);
    }
    let args = m.args.iter().map(expression).collect();
    let (pre, receiver, method) = (attr_nodes(&m.attrs), boxed(&m.receiver), m.method.to_string());
    let (mid, line, column) = (mid.nodes, start.line, start.column);
    Expression::MethodCall { pre, receiver, method, mid, args, line, column, tokens }
}

/// A struct expression; `pre` holds what a walk meets in its attributes,
/// its qualified self type and its path.
#[verifier::external_body]
fn struct_expr(s: &syn::ExprStruct, tokens: String) -> Expression {
    let mut pre = Children { nodes: attr_nodes(&s.attrs) };
    for q in &s.qself {
        pre.visit_qself(q);
    }
    pre.visit_path(&s.path);
    let fields = s.fields.iter().map(|f| FieldInit { pre: attr_nodes(&f.attrs), value: expression(&f.expr) }).collect();
    let rest = s.rest.as_ref().map(|r| boxed(r));
    Expression::Struct { pre: pre.nodes, path: idents(&s.path), fields, rest, tokens }
}

/// A cast; `post` holds what a walk meets in the target type.
#[verifier::external_body]
fn cast_expr(c: &syn::ExprCast, tokens: String) -> Expression {
    let mut post = Children { nodes: Vec::new() };
    post.visit_type(&c.ty);
    Expression::Cast { pre: attr_nodes(&c.attrs), inner: boxed(&c.expr), post: post.nodes, tokens }
}

/// A pattern, as far as the names it binds go.
#[verifier::external_body]
fn pattern(p: &syn::Pat) -> Pattern {
    match p {
        syn::Pat::Ident(i) => Pattern::Ident(i.ident.to_string()),
        syn::Pat::Type(t) => Pattern::Type(Box::new(pattern(&t.pat))),
        syn::Pat::Reference(r) => Pattern::Reference(Box::new(pattern(&r.pat))),
        _ => pattern_list(p),
    }
}

#[verifier::external_body]
fn pattern_list(p: &syn::Pat) -> Pattern {
    match p {
        syn::Pat::Tuple(t) => Pattern::Tuple(t.elems.iter().map(pattern).collect()),
        syn::Pat::TupleStruct(t) => Pattern::TupleStruct(t.elems.iter().map(pattern).collect()),
        syn::Pat::Struct(s) => Pattern::Struct(s.fields.iter().map(|f| pattern(&f.pat)).collect()),
        syn::Pat::Or(o) => Pattern::Or(o.cases.iter().map(pattern).collect()),
        _ => Pattern::Other,
    }
}

} // verus!
