//! Tokens to a syntax tree: recursive descent for statements and functions, precedence
//! climbing for expressions.
use vstd::prelude::*;

use crate::error::{CompileError, ErrorKind};
use crate::lexer::{
    BinOpKind,
    Keyword,
    Lexer,
    Loc,
    Punct,
    Step,
    Token,
    TokenV,
    loc_is,
    step,
    token_start,
};

verus! {

#[derive(Debug)]
pub struct Ast {
    pub fn_decls: Vec<FnDecl>,
}

#[derive(Debug)]
pub struct Stmt {
    pub loc: Loc,
    pub kind: StmtKind,
}

pub type Block = Vec<Stmt>;

#[derive(Debug)]
pub struct FnDecl {
    pub name: Vec<u8>,
    pub params: Vec<Vec<u8>>,
    pub has_result: bool,
    pub body: Block,
    pub loc: Loc,
}

/// One `else if` arm of a conditional.
#[derive(Debug)]
pub struct ElseIf {
    pub cond: Expr,
    pub then_block: Block,
}

#[derive(Debug)]
pub enum StmtKind {
    /// `x;`
    VarDecl(Vec<u8>),
    /// `x := e;`
    VarDeclAssign { name: Vec<u8>, expr: Expr },
    /// `x = e;`
    VarAssign { name: Vec<u8>, expr: Expr },
    /// `f(a, b);`
    FnCall { name: Vec<u8>, args: Vec<Expr> },
    /// `log(x);` or `cmd("text");`
    BuiltinFnCall { name: Vec<u8>, arg: Vec<u8> },
    If { cond: Expr, then_block: Block, elseifs: Vec<ElseIf>, elze: Block },
    For {
        init: Option<Box<Stmt>>,
        cond: Option<Expr>,
        post: Option<Box<Stmt>>,
        body: Block,
    },
    Break,
    Continue,
    Return,
    ReturnVal(Expr),
}

/// A range of expressions in a buffer of them, with the location of the first.
#[derive(Debug)]
pub struct ExprRange {
    pub loc: Loc,
    pub start: usize,
    pub end: usize,
}

#[derive(Debug)]
pub enum Expr {
    FnCall { name: Vec<u8>, args: Vec<Expr> },
    BinOp { lhs: Box<Expr>, rhs: Box<Expr>, op: BinOpKind },
    Var(Vec<u8>),
    Num(i32),
}

/// The precedence class of a binary operator, from `||` (lowest) to `*` and `/`.
pub open spec fn prec_of(k: BinOpKind) -> nat {
    match k {
        BinOpKind::Or => 0,
        BinOpKind::And => 1,
        BinOpKind::Eq | BinOpKind::Ne => 2,
        BinOpKind::Gt | BinOpKind::Ge | BinOpKind::Lt | BinOpKind::Le => 3,
        BinOpKind::Add | BinOpKind::Sub => 4,
        BinOpKind::Mul | BinOpKind::Div => 5,
    }
}

pub fn bin_op_prec(bin_op_kind: BinOpKind) -> (r: u8)
    ensures
        r as nat == prec_of(bin_op_kind),
{
    match bin_op_kind {
        BinOpKind::Or => 0,
        BinOpKind::And => 1,
        BinOpKind::Eq | BinOpKind::Ne => 2,
        BinOpKind::Gt | BinOpKind::Ge | BinOpKind::Lt | BinOpKind::Le => 3,
        BinOpKind::Add | BinOpKind::Sub => 4,
        BinOpKind::Mul | BinOpKind::Div => 5,
    }
}

/// A token that ends an expression: `;`, `)`, `,` or the `{` that opens a block.
pub open spec fn ends_expr(t: TokenV) -> bool {
    t == TokenV::Punct(Punct::Semicolon) || t == TokenV::Punct(Punct::CloseParen) || t
        == TokenV::Punct(Punct::Comma) || t == TokenV::Punct(Punct::OpenCurly)
}

/// The token at `pos` ends an expression whose operators bind at least as tightly as `prec`.
pub open spec fn stops_expr(src: Seq<u8>, pos: int, prec: nat) -> bool {
    match step(src, pos) {
        Step::Tok(t, _, _) => ends_expr(t) || (t matches TokenV::BinOp(k) && prec_of(k) < prec),
        _ => false,
    }
}

/// A token that can start an expression: a number, a name, or `(`.
pub open spec fn starts_expr(t: TokenV) -> bool {
    t is Number || t is Ident || t == TokenV::Punct(Punct::OpenParen)
}

/// The mathematical value of an expression.
pub enum ExprV {
    Call(Seq<u8>, Seq<ExprV>),
    Bin(Box<ExprV>, Box<ExprV>, BinOpKind),
    Var(Seq<u8>),
    Num(int),
}

pub open spec fn expr_v(e: Expr) -> ExprV
    decreases e,
{
    match e {
        Expr::FnCall { name, args } => ExprV::Call(name@, args_v(args@)),
        Expr::BinOp { lhs, rhs, op } => ExprV::Bin(Box::new(expr_v(*lhs)), Box::new(expr_v(*rhs)), op),
        Expr::Var(n) => ExprV::Var(n@),
        Expr::Num(n) => ExprV::Num(n as int),
    }
}

pub open spec fn args_v(args: Seq<Expr>) -> Seq<ExprV>
    decreases args,
{
    if args.len() == 0 {
        Seq::empty()
    } else {
        args_v(args.drop_last()).push(expr_v(args.last()))
    }
}

/// The token read from `pos`, with where it ends, if there is one.
pub open spec fn tok_at(src: Seq<u8>, pos: int) -> Option<(TokenV, int)> {
    match step(src, pos) {
        Step::Tok(t, _, e) => if pos < e <= src.len() {
            Some((t, e))
        } else {
            None
        },
        _ => None,
    }
}

/// The expression read from `pos` whose operators bind at least as tightly as `prec`, and
/// where it ends: the grammar of expressions, read by precedence climbing with every
/// operator associating to the left.
pub open spec fn sp_expr(src: Seq<u8>, pos: int, prec: nat) -> Option<(ExprV, int)>
    decreases src.len() - pos, 3nat,
{
    match tok_at(src, pos) {
        Some((t, e)) => sp_from(src, t, e, prec),
        None => None,
    }
}

/// The expression whose first token `first` ends at `pos`.
pub open spec fn sp_from(src: Seq<u8>, first: TokenV, pos: int, prec: nat) -> Option<(ExprV, int)>
    decreases src.len() - pos, 6nat,
{
    match sp_primary(src, first, pos) {
        Some((l, p)) => if pos <= p <= src.len() {
            sp_loop(src, l, p, prec)
        } else {
            None
        },
        None => None,
    }
}

/// A number, a variable, a call, or an expression in parentheses, whose first token
/// `first` ends at `pos`.
pub open spec fn sp_primary(src: Seq<u8>, first: TokenV, pos: int) -> Option<(ExprV, int)>
    decreases src.len() - pos, 5nat,
{
    match first {
        TokenV::Number(n) => Some((ExprV::Num(n), pos)),
        TokenV::Ident(w) => match tok_at(src, pos) {
            Some((t, e)) => if t == TokenV::Punct(Punct::OpenParen) {
                match sp_args(src, e) {
                    Some((args, p)) => Some((ExprV::Call(w, args), p)),
                    None => None,
                }
            } else {
                Some((ExprV::Var(w), pos))
            },
            None => None,
        },
        TokenV::Punct(Punct::OpenParen) => match sp_expr(src, pos, 0) {
            Some((inner, p)) => if pos < p {
                match tok_at(src, p) {
                    Some((t, e)) => if t == TokenV::Punct(Punct::CloseParen) {
                        Some((inner, e))
                    } else {
                        None
                    },
                    None => None,
                }
            } else {
                None
            },
            None => None,
        },
        _ => None,
    }
}

/// The operators and operands that follow `lhs` from `pos`, folded to the left.
pub open spec fn sp_loop(src: Seq<u8>, lhs: ExprV, pos: int, prec: nat) -> Option<(ExprV, int)>
    decreases src.len() - pos, 2nat,
{
    match tok_at(src, pos) {
        Some((TokenV::BinOp(k), e)) => if prec_of(k) < prec {
            Some((lhs, pos))
        } else {
            match sp_expr(src, e, prec_of(k) + 1) {
                Some((rhs, p)) => if pos < p <= src.len() {
                    sp_loop(src, ExprV::Bin(Box::new(lhs), Box::new(rhs), k), p, prec)
                } else {
                    None
                },
                None => None,
            }
        },
        Some((t, _)) => if ends_expr(t) {
            Some((lhs, pos))
        } else {
            None
        },
        None => None,
    }
}

/// The arguments of a call whose `(` ends at `pos`, up to and with the `)`.
pub open spec fn sp_args(src: Seq<u8>, pos: int) -> Option<(Seq<ExprV>, int)>
    decreases src.len() - pos, 5nat,
{
    match tok_at(src, pos) {
        Some((t, e)) => if t == TokenV::Punct(Punct::CloseParen) {
            Some((Seq::empty(), e))
        } else {
            sp_args_rest(src, pos, Seq::empty())
        },
        None => None,
    }
}

/// The arguments from `pos` on, after those in `acc`.
pub open spec fn sp_args_rest(src: Seq<u8>, pos: int, acc: Seq<ExprV>) -> Option<(Seq<ExprV>, int)>
    decreases src.len() - pos, 4nat,
{
    match sp_expr(src, pos, 0) {
        Some((a, p)) => if pos < p {
            match tok_at(src, p) {
                Some((t, e)) => if t == TokenV::Punct(Punct::CloseParen) {
                    Some((acc.push(a), e))
                } else if t == TokenV::Punct(Punct::Comma) {
                    sp_args_rest(src, e, acc.push(a))
                } else {
                    None
                },
                None => None,
            }
        } else {
            None
        },
        None => None,
    }
}

/// The mathematical value of a statement (its location aside).
pub enum StmtV {
    VarDecl(Seq<u8>),
    VarDeclAssign(Seq<u8>, ExprV),
    VarAssign(Seq<u8>, ExprV),
    FnCall(Seq<u8>, Seq<ExprV>),
    Builtin(Seq<u8>, Seq<u8>),
    If(ExprV, Seq<StmtV>, Seq<(ExprV, Seq<StmtV>)>, Seq<StmtV>),
    For(Option<Box<StmtV>>, Option<ExprV>, Option<Box<StmtV>>, Seq<StmtV>),
    Break,
    Continue,
    Return,
    ReturnVal(ExprV),
}

/// The mathematical value of a function declaration (its location aside).
pub struct FnV {
    pub name: Seq<u8>,
    pub params: Seq<Seq<u8>>,
    pub has_result: bool,
    pub body: Seq<StmtV>,
}

pub open spec fn stmt_v(s: Stmt) -> StmtV
    decreases s,
{
    match s.kind {
        StmtKind::VarDecl(n) => StmtV::VarDecl(n@),
        StmtKind::VarDeclAssign { name, expr } => StmtV::VarDeclAssign(name@, expr_v(expr)),
        StmtKind::VarAssign { name, expr } => StmtV::VarAssign(name@, expr_v(expr)),
        StmtKind::FnCall { name, args } => StmtV::FnCall(name@, args_v(args@)),
        StmtKind::BuiltinFnCall { name, arg } => StmtV::Builtin(name@, arg@),
        StmtKind::If { cond, then_block, elseifs, elze } => StmtV::If(
            expr_v(cond),
            block_v(then_block@),
            arms_v(elseifs@),
            block_v(elze@),
        ),
        StmtKind::For { init, cond, post, body } => StmtV::For(
            match init {
                Some(b) => Some(Box::new(stmt_v(*b))),
                None => None,
            },
            match cond {
                Some(c) => Some(expr_v(c)),
                None => None,
            },
            match post {
                Some(b) => Some(Box::new(stmt_v(*b))),
                None => None,
            },
            block_v(body@),
        ),
        StmtKind::Break => StmtV::Break,
        StmtKind::Continue => StmtV::Continue,
        StmtKind::Return => StmtV::Return,
        StmtKind::ReturnVal(e) => StmtV::ReturnVal(expr_v(e)),
    }
}

pub open spec fn block_v(b: Seq<Stmt>) -> Seq<StmtV>
    decreases b,
{
    if b.len() == 0 {
        Seq::empty()
    } else {
        block_v(b.drop_last()).push(stmt_v(b.last()))
    }
}

pub open spec fn arms_v(a: Seq<ElseIf>) -> Seq<(ExprV, Seq<StmtV>)>
    decreases a,
{
    if a.len() == 0 {
        Seq::empty()
    } else {
        arms_v(a.drop_last()).push((expr_v(a.last().cond), block_v(a.last().then_block@)))
    }
}

pub open spec fn opt_stmt_v(o: Option<Box<Stmt>>) -> Option<Box<StmtV>> {
    match o {
        Some(b) => Some(Box::new(stmt_v(*b))),
        None => None,
    }
}

pub open spec fn opt_expr_v(o: Option<Expr>) -> Option<ExprV> {
    match o {
        Some(c) => Some(expr_v(c)),
        None => None,
    }
}

pub open spec fn fn_v(f: FnDecl) -> FnV {
    FnV {
        name: f.name@,
        params: names_v(f.params@),
        has_result: f.has_result,
        body: block_v(f.body@),
    }
}

pub open spec fn names_v(v: Seq<Vec<u8>>) -> Seq<Seq<u8>> {
    v.map_values(|p: Vec<u8>| p@)
}

pub open spec fn ast_v(a: Ast) -> Seq<FnV> {
    a.fn_decls@.map_values(|f: FnDecl| fn_v(f))
}

/// Where the token `t` read from `pos` ends, if it is there.
pub open spec fn expect_tok(src: Seq<u8>, pos: int, t: TokenV) -> Option<int> {
    match tok_at(src, pos) {
        Some((u, e)) => if u == t {
            Some(e)
        } else {
            None
        },
        None => None,
    }
}

/// The rest of `w := e` or `w = e` from `pos`, without its `;`.
pub open spec fn sp_assign(src: Seq<u8>, w: Seq<u8>, pos: int) -> Option<(StmtV, int)> {
    match tok_at(src, pos) {
        Some((t, e)) => if t == TokenV::Punct(Punct::Colon) {
            match expect_tok(src, e, TokenV::Punct(Punct::Eq)) {
                Some(e2) => match sp_expr(src, e2, 0) {
                    Some((v, p)) => Some((StmtV::VarDeclAssign(w, v), p)),
                    None => None,
                },
                None => None,
            }
        } else if t == TokenV::Punct(Punct::Eq) {
            match sp_expr(src, e, 0) {
                Some((v, p)) => Some((StmtV::VarAssign(w, v), p)),
                None => None,
            }
        } else {
            None
        },
        None => None,
    }
}

/// A `name := e` or `name = e` clause of a loop head, from `pos`.
pub open spec fn sp_clause(src: Seq<u8>, pos: int) -> Option<(StmtV, int)> {
    match tok_at(src, pos) {
        Some((TokenV::Ident(w), e)) => sp_assign(src, w, e),
        _ => None,
    }
}

/// `s` followed by `;`.
pub open spec fn with_semi(src: Seq<u8>, r: Option<(StmtV, int)>) -> Option<(StmtV, int)> {
    match r {
        Some((s, p)) => match expect_tok(src, p, TokenV::Punct(Punct::Semicolon)) {
            Some(e) => Some((s, e)),
            None => None,
        },
        None => None,
    }
}

/// The rest of a statement that starts with the identifier `w`, from `pos`.
pub open spec fn sp_ident_stmt(src: Seq<u8>, w: Seq<u8>, pos: int) -> Option<(StmtV, int)> {
    match tok_at(src, pos) {
        Some((t, e)) => if t == TokenV::Punct(Punct::Semicolon) {
            if w == word_break() {
                Some((StmtV::Break, e))
            } else if w == word_continue() {
                Some((StmtV::Continue, e))
            } else {
                Some((StmtV::VarDecl(w), e))
            }
        } else if t == TokenV::Punct(Punct::OpenParen) {
            if w == word_log() {
                match tok_at(src, e) {
                    Some((TokenV::Ident(arg), e2)) => match expect_tok(
                        src,
                        e2,
                        TokenV::Punct(Punct::CloseParen),
                    ) {
                        Some(e3) => with_semi(src, Some((StmtV::Builtin(w, arg), e3))),
                        None => None,
                    },
                    _ => None,
                }
            } else if w == word_cmd() {
                match tok_at(src, e) {
                    Some((TokenV::StrLit(text), e2)) => match expect_tok(
                        src,
                        e2,
                        TokenV::Punct(Punct::CloseParen),
                    ) {
                        Some(e3) => with_semi(src, Some((StmtV::Builtin(w, text), e3))),
                        None => None,
                    },
                    _ => None,
                }
            } else {
                match sp_args(src, e) {
                    Some((args, p)) => with_semi(src, Some((StmtV::FnCall(w, args), p))),
                    None => None,
                }
            }
        } else {
            with_semi(src, sp_assign(src, w, pos))
        },
        None => None,
    }
}

/// What a loop head holds, and where its `{` starts.
pub type HeadV = (Option<Box<StmtV>>, Option<ExprV>, Option<Box<StmtV>>, int);

/// A loop head with just a condition, whose first token `t` ends at `e`.
pub open spec fn sp_cond_head(src: Seq<u8>, t: TokenV, e: int) -> Option<HeadV> {
    match sp_from(src, t, e, 0) {
        Some((c, p)) => match tok_at(src, p) {
            Some((u, _)) => if u == TokenV::Punct(Punct::OpenCurly) {
                Some((None, Some(c), None, p))
            } else {
                None
            },
            None => None,
        },
        None => None,
    }
}

/// The `; cond; post` part of a loop head, from the first `;` at `q`.
pub open spec fn sp_head_rest(src: Seq<u8>, init: Option<Box<StmtV>>, q: int) -> Option<HeadV> {
    match expect_tok(src, q, TokenV::Punct(Punct::Semicolon)) {
        Some(e1) => {
            let c = match tok_at(src, e1) {
                Some((u, _)) => if u == TokenV::Punct(Punct::Semicolon) {
                    Some((None::<ExprV>, e1))
                } else {
                    match sp_expr(src, e1, 0) {
                        Some((v, p)) => Some((Some(v), p)),
                        None => None,
                    }
                },
                None => None,
            };
            match c {
                Some((cond, q2)) => match expect_tok(src, q2, TokenV::Punct(Punct::Semicolon)) {
                    Some(e2) => match tok_at(src, e2) {
                        Some((u, _)) => if u == TokenV::Punct(Punct::OpenCurly) {
                            Some((init, cond, None, e2))
                        } else {
                            match sp_clause(src, e2) {
                                Some((st, p3)) => match tok_at(src, p3) {
                                    Some((v, _)) => if v == TokenV::Punct(Punct::OpenCurly) {
                                        Some((init, cond, Some(Box::new(st)), p3))
                                    } else {
                                        None
                                    },
                                    None => None,
                                },
                                None => None,
                            }
                        },
                        None => None,
                    },
                    None => None,
                },
                None => None,
            }
        },
        None => None,
    }
}

/// What stands between `for` and the `{` of the loop's body, from `pos`.
pub open spec fn sp_for_head(src: Seq<u8>, pos: int) -> Option<HeadV> {
    match tok_at(src, pos) {
        Some((t, e)) => if t == TokenV::Punct(Punct::OpenCurly) {
            Some((None, None, None, pos))
        } else if t == TokenV::Punct(Punct::Semicolon) {
            sp_head_rest(src, None, pos)
        } else {
            match t {
                TokenV::Ident(w) => match tok_at(src, e) {
                    Some((u, _)) => if u == TokenV::Punct(Punct::Colon) || u == TokenV::Punct(
                        Punct::Eq,
                    ) {
                        match sp_assign(src, w, e) {
                            Some((st, p)) => sp_head_rest(src, Some(Box::new(st)), p),
                            None => None,
                        }
                    } else {
                        sp_cond_head(src, t, e)
                    },
                    None => None,
                },
                _ => sp_cond_head(src, t, e),
            }
        },
        None => None,
    }
}

/// One statement from `pos`.
pub open spec fn sp_stmt(src: Seq<u8>, pos: int) -> Option<(StmtV, int)>
    decreases src.len() - pos, 3nat,
{
    match tok_at(src, pos) {
        Some((t, e)) => if t == TokenV::Keyword(Keyword::For) {
            match sp_for_head(src, e) {
                Some((i, c, po, p)) => if e <= p <= src.len() {
                    match sp_block(src, p) {
                        Some((b, q)) => Some((StmtV::For(i, c, po, b), q)),
                        None => None,
                    }
                } else {
                    None
                },
                None => None,
            }
        } else if t == TokenV::Keyword(Keyword::If) {
            sp_if(src, e)
        } else if t == TokenV::Keyword(Keyword::Return) {
            match tok_at(src, e) {
                Some((u, e2)) => if u == TokenV::Punct(Punct::Semicolon) {
                    Some((StmtV::Return, e2))
                } else {
                    match sp_expr(src, e, 0) {
                        Some((v, p)) => with_semi(src, Some((StmtV::ReturnVal(v), p))),
                        None => None,
                    }
                },
                None => None,
            }
        } else {
            match t {
                TokenV::Ident(w) => sp_ident_stmt(src, w, e),
                _ => None,
            }
        },
        None => None,
    }
}

/// A conditional from `pos`, after its `if`.
pub open spec fn sp_if(src: Seq<u8>, pos: int) -> Option<(StmtV, int)>
    decreases src.len() - pos, 2nat,
{
    match sp_expr(src, pos, 0) {
        Some((c, p1)) => if pos < p1 <= src.len() {
            match sp_block(src, p1) {
                Some((tb, p2)) => if p1 < p2 <= src.len() {
                    sp_if_rest(src, p2, c, tb, Seq::empty())
                } else {
                    None
                },
                None => None,
            }
        } else {
            None
        },
        None => None,
    }
}

/// The `else if` arms and the `else` block of a conditional, from `pos`.
pub open spec fn sp_if_rest(
    src: Seq<u8>,
    pos: int,
    c: ExprV,
    tb: Seq<StmtV>,
    arms: Seq<(ExprV, Seq<StmtV>)>,
) -> Option<(StmtV, int)>
    decreases src.len() - pos, 1nat,
{
    match step(src, pos) {
        Step::Bad(_, _) => None,
        Step::End => Some((StmtV::If(c, tb, arms, Seq::empty()), pos)),
        Step::Tok(t, _, e) => if !(pos < e <= src.len()) {
            None
        } else if t != TokenV::Keyword(Keyword::Else) {
            Some((StmtV::If(c, tb, arms, Seq::empty()), pos))
        } else {
            match tok_at(src, e) {
                Some((u, e2)) => if u == TokenV::Keyword(Keyword::If) {
                    match sp_expr(src, e2, 0) {
                        Some((c2, p)) => if e2 < p <= src.len() {
                            match sp_block(src, p) {
                                Some((b2, p2)) => if p < p2 <= src.len() {
                                    sp_if_rest(src, p2, c, tb, arms.push((c2, b2)))
                                } else {
                                    None
                                },
                                None => None,
                            }
                        } else {
                            None
                        },
                        None => None,
                    }
                } else {
                    match sp_block(src, e) {
                        Some((eb, p)) => Some((StmtV::If(c, tb, arms, eb), p)),
                        None => None,
                    }
                },
                None => None,
            }
        },
    }
}

/// A block from `pos`: `{`, statements, `}`.
pub open spec fn sp_block(src: Seq<u8>, pos: int) -> Option<(Seq<StmtV>, int)>
    decreases src.len() - pos, 5nat,
{
    match expect_tok(src, pos, TokenV::Punct(Punct::OpenCurly)) {
        Some(e) => if pos < e <= src.len() {
            sp_block_rest(src, e, Seq::empty())
        } else {
            None
        },
        None => None,
    }
}

/// The statements of a block from `pos` on, after those in `acc`, up to and with `}`.
pub open spec fn sp_block_rest(src: Seq<u8>, pos: int, acc: Seq<StmtV>) -> Option<(Seq<StmtV>, int)>
    decreases src.len() - pos, 4nat,
{
    match tok_at(src, pos) {
        Some((t, e)) => if t == TokenV::Punct(Punct::CloseCurly) {
            Some((acc, e))
        } else {
            match sp_stmt(src, pos) {
                Some((st, p)) => if pos < p <= src.len() {
                    sp_block_rest(src, p, acc.push(st))
                } else {
                    None
                },
                None => None,
            }
        },
        None => None,
    }
}

/// The parameters of a function from `pos`, after its `(`, up to and with `)`.
pub open spec fn sp_params(src: Seq<u8>, pos: int) -> Option<(Seq<Seq<u8>>, int)> {
    match tok_at(src, pos) {
        Some((TokenV::Ident(w), e)) => sp_params_rest(src, e, seq![w]),
        Some((t, e)) => if t == TokenV::Punct(Punct::CloseParen) {
            Some((Seq::empty(), e))
        } else {
            None
        },
        None => None,
    }
}

pub open spec fn sp_params_rest(src: Seq<u8>, pos: int, acc: Seq<Seq<u8>>) -> Option<
    (Seq<Seq<u8>>, int),
>
    decreases src.len() - pos,
{
    match tok_at(src, pos) {
        Some((t, e)) => if t == TokenV::Punct(Punct::CloseParen) {
            Some((acc, e))
        } else if t == TokenV::Punct(Punct::Comma) {
            match tok_at(src, e) {
                Some((TokenV::Ident(w), e2)) => if pos < e2 {
                    sp_params_rest(src, e2, acc.push(w))
                } else {
                    None
                },
                _ => None,
            }
        } else {
            None
        },
        None => None,
    }
}

/// A function declaration from `pos`, after its `fn`.
pub open spec fn sp_fn(src: Seq<u8>, pos: int) -> Option<(FnV, int)> {
    match tok_at(src, pos) {
        Some((TokenV::Ident(name), e1)) => match expect_tok(src, e1, TokenV::Punct(Punct::OpenParen)) {
            Some(e2) => match sp_params(src, e2) {
                Some((ps, p)) => match tok_at(src, p) {
                    Some((t, e3)) => if t == TokenV::Keyword(Keyword::Int) {
                        match sp_block(src, e3) {
                            Some((b, q)) => Some((FnV { name, params: ps, has_result: true, body: b }, q)),
                            None => None,
                        }
                    } else if t == TokenV::Punct(Punct::OpenCurly) {
                        match sp_block(src, p) {
                            Some((b, q)) => Some((FnV { name, params: ps, has_result: false, body: b }, q)),
                            None => None,
                        }
                    } else {
                        None
                    },
                    None => None,
                },
                None => None,
            },
            None => None,
        },
        _ => None,
    }
}

/// The function declarations from `pos` to the end of the source, after those in `acc`.
pub open spec fn sp_program(src: Seq<u8>, pos: int, acc: Seq<FnV>) -> Option<Seq<FnV>>
    decreases src.len() - pos,
{
    match step(src, pos) {
        Step::End => Some(acc),
        Step::Tok(t, _, e) => if t == TokenV::Keyword(Keyword::Fn) && pos < e <= src.len() {
            match sp_fn(src, e) {
                Some((f, p)) => if e < p <= src.len() {
                    sp_program(src, p, acc.push(f))
                } else {
                    None
                },
                None => None,
            }
        } else {
            None
        },
        Step::Bad(_, _) => None,
    }
}

/// What a parsing function owes on any outcome: the lexer stays well formed on the same
/// source, and a success has consumed at least one token.
pub open spec fn advanced(old_lex: Lexer, new_lex: Lexer, ok: bool) -> bool {
    &&& new_lex.wf()
    &&& new_lex.source() == old_lex.source()
    &&& new_lex.position() <= new_lex.source().len()
    &&& ok ==> new_lex.position() > old_lex.position()
}

fn unexpected(lex: &Lexer, t: Token) -> (e: CompileError)
    ensures
        e.kind == ErrorKind::UnexpectedToken(t),
{
    lex.unexpected_token_err(t)
}

/// Parses the arguments of a call whose `(` has been consumed, up to and with its `)`.
fn parse_args(lex: &mut Lexer) -> (r: Result<Vec<Expr>, CompileError>)
    requires
        old(lex).wf(),
    ensures
        advanced(*old(lex), *final(lex), r is Ok),
        r is Ok <==> sp_args(old(lex).source(), old(lex).position()) is Some,
        r matches Ok(v) ==> sp_args(old(lex).source(), old(lex).position()) == Some(
            (args_v(v@), final(lex).position()),
        ),
    decreases old(lex).source().len() - old(lex).position(), 4nat,
{
    let ghost start = lex.position();
    let ghost src = lex.source();
    proof {
        lex.lemma_bounds();
    }
    let mut args: Vec<Expr> = Vec::new();
    let first = lex.expect_peek_any();
    match first {
        Err(e) => {
            return Err(e);
        },
        Ok(t) => {
            if t.is_punct(Punct::CloseParen) {
                let _ = lex.next_any();
                proof {
                    assert(args_v(args@) =~= Seq::<ExprV>::empty());
                }
                return Ok(args);
            }
        },
    }
    proof {
        assert(args_v(args@) =~= Seq::<ExprV>::empty());
    }
    loop
        invariant
            lex.wf(),
            lex.source() == old(lex).source(),
            src == old(lex).source(),
            lex.position() >= start,
            start == old(lex).position(),
            sp_args(src, start) == sp_args_rest(src, lex.position(), args_v(args@)),
        decreases lex.source().len() - lex.position(),
    {
        proof {
            lex.lemma_bounds();
        }
        let ghost pos = lex.position();
        let a = parse_expr(lex, 0);
        let a = match a {
            Err(e) => {
                return Err(e);
            },
            Ok(a) => a,
        };
        proof {
            lex.lemma_bounds();
        }
        let ghost before = args@;
        args.push(a);
        proof {
            assert(args@.drop_last() =~= before);
        }
        let t = lex.expect_any();
        match t {
            Err(e) => {
                return Err(e);
            },
            Ok(t) => {
                if t.is_punct(Punct::CloseParen) {
                    return Ok(args);
                } else if !t.is_punct(Punct::Comma) {
                    return Err(unexpected(lex, t));
                }
            },
        }
    }
}

/// Parses an expression whose first token, `first`, has been consumed, and stops before
/// the first token that ends it or an operator that binds less tightly than `prec`.
pub fn parse_expr_from(lex: &mut Lexer, first: Token, prec: u8) -> (r: Result<
    Expr,
    CompileError,
>)
    requires
        old(lex).wf(),
    ensures
        final(lex).wf(),
        final(lex).source() == old(lex).source(),
        final(lex).position() <= final(lex).source().len(),
        r is Ok ==> final(lex).position() >= old(lex).position(),
        r is Ok ==> stops_expr(final(lex).source(), final(lex).position(), prec as nat),
        !starts_expr(first@) ==> (r matches Err(e) && e.kind == ErrorKind::UnexpectedToken(first)),
        r is Ok <==> sp_from(old(lex).source(), first@, old(lex).position(), prec as nat) is Some,
        r matches Ok(e) ==> sp_from(old(lex).source(), first@, old(lex).position(), prec as nat)
            == Some((expr_v(e), final(lex).position())),
        first@ == TokenV::Punct(Punct::OpenParen) ==> match sp_expr(
            old(lex).source(),
            old(lex).position(),
            0,
        ) {
            Some((_, p)) => match tok_at(old(lex).source(), p) {
                Some((t, _)) => t != TokenV::Punct(Punct::CloseParen) ==> (r matches Err(e)
                    && e.kind matches ErrorKind::UnexpectedToken(u) && u@ == t),
                None => true,
            },
            None => true,
        },
    decreases old(lex).source().len() - old(lex).position(), 5nat,
{
    let ghost start = lex.position();
    let ghost first_v = first@;
    proof {
        lex.lemma_bounds();
    }
    let ghost src = lex.source();
    let mut lhs = match first {
        Token::Number(n) => {
            proof {
                assert(sp_primary(src, first_v, start) == Some((ExprV::Num(n as int), start)));
            }
            Expr::Num(n)
        },
        Token::Ident(name) => {
            let p = lex.expect_peek_any();
            match p {
                Err(e) => {
                    return Err(e);
                },
                Ok(t) => {
                    if t.is_punct(Punct::OpenParen) {
                        let _ = lex.next_any();
                        let args = parse_args(lex);
                        match args {
                            Err(e) => {
                                return Err(e);
                            },
                            Ok(args) => {
                                proof {
                                    assert(sp_primary(src, first_v, start) == Some(
                                        (ExprV::Call(name@, args_v(args@)), lex.position()),
                                    ));
                                }
                                Expr::FnCall { name, args }
                            },
                        }
                    } else {
                        proof {
                            assert(sp_primary(src, first_v, start) == Some(
                                (ExprV::Var(name@), start),
                            ));
                        }
                        Expr::Var(name)
                    }
                },
            }
        },
        Token::Punct(Punct::OpenParen) => {
            let inner = parse_expr(lex, 0);
            match inner {
                Err(e) => {
                    return Err(e);
                },
                Ok(inner) => {
                    let ghost mid = lex.position();
                    proof {
                        lex.lemma_bounds();
                    }
                    let t = lex.expect_any();
                    match t {
                        Err(e) => {
                            return Err(e);
                        },
                        Ok(t) => {
                            if !t.is_punct(Punct::CloseParen) {
                                return Err(unexpected(lex, t));
                            }
                        },
                    }
                    proof {
                        assert(tok_at(src, mid) == Some((TokenV::Punct(Punct::CloseParen), lex.position())));
                        assert(sp_primary(src, first_v, start) == Some((expr_v(inner), lex.position())));
                    }
                    inner
                },
            }
        },
        other => {
            return Err(unexpected(lex, other));
        },
    };
    proof {
        lex.lemma_bounds();
        assert(sp_from(src, first_v, start, prec as nat) == sp_loop(
            src,
            expr_v(lhs),
            lex.position(),
            prec as nat,
        ));
    }
    loop
        invariant
            lex.wf(),
            src == old(lex).source(),
            lex.source() == old(lex).source(),
            lex.position() >= start,
            start == old(lex).position(),
            starts_expr(first_v),
            first_v == first@,
            first_v == TokenV::Punct(Punct::OpenParen) ==> match sp_expr(src, start, 0) {
                Some((_, p)) => match tok_at(src, p) {
                    Some((t, _)) => t == TokenV::Punct(Punct::CloseParen),
                    None => false,
                },
                None => false,
            },
            sp_from(old(lex).source(), first_v, start, prec as nat) == sp_loop(
                old(lex).source(),
                expr_v(lhs),
                lex.position(),
                prec as nat,
            ),
        decreases lex.source().len() - lex.position(),
    {
        proof {
            lex.lemma_bounds();
        }
        let t = lex.expect_peek_any();
        match t {
            Err(e) => {
                return Err(e);
            },
            Ok(Token::BinOp(kind)) => {
                let this_prec = bin_op_prec(kind);
                if this_prec < prec {
                    return Ok(lhs);
                }
                let ghost pos = lex.position();
                let _ = lex.next_any();
                let rhs = parse_expr(lex, this_prec + 1);
                match rhs {
                    Err(e) => {
                        return Err(e);
                    },
                    Ok(rhs) => {
                        proof {
                            lex.lemma_bounds();
                            assert(sp_loop(src, expr_v(lhs), pos, prec as nat) == sp_loop(
                                src,
                                ExprV::Bin(Box::new(expr_v(lhs)), Box::new(expr_v(rhs)), kind),
                                lex.position(),
                                prec as nat,
                            ));
                        }
                        lhs = Expr::BinOp { lhs: Box::new(lhs), rhs: Box::new(rhs), op: kind };
                    },
                }
            },
            Ok(t) => {
                if t.is_punct(Punct::Semicolon) || t.is_punct(Punct::CloseParen) || t.is_punct(
                    Punct::Comma,
                ) || t.is_punct(Punct::OpenCurly) {
                    return Ok(lhs);
                }
                return Err(unexpected(lex, t));
            },
        }
    }
}

/// Parses an expression whose operators bind at least as tightly as `prec` (0 takes
/// every operator), and stops before the token that ends it.
pub fn parse_expr(lex: &mut Lexer, prec: u8) -> (r: Result<Expr, CompileError>)
    requires
        old(lex).wf(),
    ensures
        advanced(*old(lex), *final(lex), r is Ok),
        r is Ok ==> stops_expr(final(lex).source(), final(lex).position(), prec as nat),
        r is Ok <==> sp_expr(old(lex).source(), old(lex).position(), prec as nat) is Some,
        r matches Ok(e) ==> sp_expr(old(lex).source(), old(lex).position(), prec as nat) == Some(
            (expr_v(e), final(lex).position()),
        ),
        match step(old(lex).source(), old(lex).position()) {
            Step::Tok(t, _, _) => !starts_expr(t) ==> (r matches Err(e) && e.kind is UnexpectedToken),
            Step::End => r matches Err(e) && e.kind == ErrorKind::UnexpectedEnd,
            Step::Bad(k, _) => r matches Err(e) && e.kind == ErrorKind::Lexical(k),
        },
    decreases old(lex).source().len() - old(lex).position(), 3nat,
{
    proof {
        lex.lemma_bounds();
    }
    let first = lex.expect_any();
    match first {
        Err(e) => Err(e),
        Ok(t) => parse_expr_from(lex, t, prec),
    }
}

pub open spec fn word_break() -> Seq<u8> {
    seq![98u8, 114, 101, 97, 107]
}

pub open spec fn word_continue() -> Seq<u8> {
    seq![99u8, 111, 110, 116, 105, 110, 117, 101]
}

pub open spec fn word_log() -> Seq<u8> {
    seq![108u8, 111, 103]
}

pub open spec fn word_cmd() -> Seq<u8> {
    seq![99u8, 109, 100]
}

/// Whether two byte strings are equal.
pub fn bytes_eq(a: &Vec<u8>, b: &Vec<u8>) -> (r: bool)
    ensures
        r == (a@ == b@),
{
    if a.len() != b.len() {
        return false;
    }
    let mut i: usize = 0;
    while i < a.len()
        invariant
            a@.len() == b@.len(),
            i <= a@.len(),
            forall|q: int| 0 <= q < i ==> a@[q] == b@[q],
        decreases a@.len() - i,
    {
        if a[i] != b[i] {
            return false;
        }
        i = i + 1;
    }
    assert(a@ =~= b@);
    true
}

pub fn is_break(name: &Vec<u8>) -> (r: bool)
    ensures
        r == (name@ == word_break()),
{
    let w: Vec<u8> = vec![98u8, 114, 101, 97, 107];
    assert(w@ =~= word_break());
    bytes_eq(name, &w)
}

pub fn is_continue(name: &Vec<u8>) -> (r: bool)
    ensures
        r == (name@ == word_continue()),
{
    let w: Vec<u8> = vec![99u8, 111, 110, 116, 105, 110, 117, 101];
    assert(w@ =~= word_continue());
    bytes_eq(name, &w)
}

pub fn is_log(name: &Vec<u8>) -> (r: bool)
    ensures
        r == (name@ == word_log()),
{
    let w: Vec<u8> = vec![108u8, 111, 103];
    assert(w@ =~= word_log());
    bytes_eq(name, &w)
}

pub fn is_cmd(name: &Vec<u8>) -> (r: bool)
    ensures
        r == (name@ == word_cmd()),
{
    let w: Vec<u8> = vec![99u8, 109, 100];
    assert(w@ =~= word_cmd());
    bytes_eq(name, &w)
}

/// What a statement that starts with the identifier `w` can be: `break;`, `continue;`,
/// a declaration or assignment of `w`, a call of `w`, or a call of a built-in.
pub open spec fn ident_stmt(s: Stmt, w: Seq<u8>) -> bool {
    match s.kind {
        StmtKind::Break => w == word_break(),
        StmtKind::Continue => w == word_continue(),
        StmtKind::VarDecl(n) => n@ == w && w != word_break() && w != word_continue(),
        StmtKind::VarDeclAssign { name, .. } => name@ == w,
        StmtKind::VarAssign { name, .. } => name@ == w,
        StmtKind::FnCall { name, .. } => name@ == w && w != word_log() && w != word_cmd(),
        StmtKind::BuiltinFnCall { name, .. } => name@ == w && (w == word_log() || w == word_cmd()),
        _ => false,
    }
}

/// The kind of statement that its first token `t` announces.
pub open spec fn stmt_starts_with(s: Stmt, t: TokenV) -> bool {
    match t {
        TokenV::Keyword(Keyword::For) => s.kind is For,
        TokenV::Keyword(Keyword::If) => s.kind is If,
        TokenV::Keyword(Keyword::Return) => s.kind is Return || s.kind is ReturnVal,
        TokenV::Ident(w) => ident_stmt(s, w),
        _ => false,
    }
}

/// A token that can start a statement.
pub open spec fn starts_stmt(t: TokenV) -> bool {
    t is Ident || t == TokenV::Keyword(Keyword::For) || t == TokenV::Keyword(Keyword::If) || t
        == TokenV::Keyword(Keyword::Return)
}

/// Parses the rest of `name := e` or `name = e`, whose `name` has been consumed; the
/// `;` after it is left for the caller.
fn parse_assign(lex: &mut Lexer, name: Vec<u8>, loc: Loc) -> (r: Result<Stmt, CompileError>)
    requires
        old(lex).wf(),
    ensures
        advanced(*old(lex), *final(lex), r is Ok),
        r matches Ok(s) ==> s.loc == loc && match s.kind {
            StmtKind::VarDeclAssign { name: n, .. } => n@ == name@,
            StmtKind::VarAssign { name: n, .. } => n@ == name@,
            _ => false,
        },
        r is Ok <==> sp_assign(old(lex).source(), name@, old(lex).position()) is Some,
        r matches Ok(s) ==> sp_assign(old(lex).source(), name@, old(lex).position()) == Some(
            (stmt_v(s), final(lex).position()),
        ),
{
    proof {
        lex.lemma_bounds();
    }
    let t = lex.expect_any();
    match t {
        Err(e) => Err(e),
        Ok(t) => {
            if t.is_punct(Punct::Colon) {
                proof {
                    lex.lemma_bounds();
                }
                let q = lex.expect_punct(Punct::Eq);
                if let Err(e) = q {
                    return Err(e);
                }
                let expr = parse_expr(lex, 0);
                match expr {
                    Err(e) => Err(e),
                    Ok(expr) => Ok(Stmt { loc, kind: StmtKind::VarDeclAssign { name, expr } }),
                }
            } else if t.is_punct(Punct::Eq) {
                let expr = parse_expr(lex, 0);
                match expr {
                    Err(e) => Err(e),
                    Ok(expr) => Ok(Stmt { loc, kind: StmtKind::VarAssign { name, expr } }),
                }
            } else {
                Err(unexpected(lex, t))
            }
        },
    }
}

/// Parses an optional `name := e` or `name = e` clause of a loop head.
fn parse_clause(lex: &mut Lexer) -> (r: Result<Box<Stmt>, CompileError>)
    requires
        old(lex).wf(),
    ensures
        advanced(*old(lex), *final(lex), r is Ok),
        r is Ok <==> sp_clause(old(lex).source(), old(lex).position()) is Some,
        r matches Ok(b) ==> sp_clause(old(lex).source(), old(lex).position()) == Some(
            (stmt_v(*b), final(lex).position()),
        ),
{
    proof {
        lex.lemma_bounds();
    }
    let name = lex.expect_ident();
    match name {
        Err(e) => Err(e),
        Ok(name) => {
            let loc = lex.current_loc();
            match parse_assign(lex, name, loc) {
                Err(e) => Err(e),
                Ok(s) => Ok(Box::new(s)),
            }
        },
    }
}

/// The three clauses of a loop head.
pub type ForHead = (Option<Box<Stmt>>, Option<Expr>, Option<Box<Stmt>>);

/// What a loop-head parser owes: a well-formed lexer on the same source that has not
/// moved back.
pub open spec fn head_ok(old_lex: Lexer, new_lex: Lexer, ok: bool) -> bool {
    &&& new_lex.wf()
    &&& new_lex.source() == old_lex.source()
    &&& new_lex.position() <= new_lex.source().len()
    &&& ok ==> new_lex.position() >= old_lex.position()
}

pub open spec fn head_v(h: ForHead, pos: int) -> HeadV {
    (opt_stmt_v(h.0), opt_expr_v(h.1), opt_stmt_v(h.2), pos)
}

/// Parses the `; cond; post` part of a loop head, from its first `;` to just before the
/// `{` of the body.
fn parse_head_rest(lex: &mut Lexer, init: Option<Box<Stmt>>) -> (r: Result<ForHead, CompileError>)
    requires
        old(lex).wf(),
    ensures
        head_ok(*old(lex), *final(lex), r is Ok),
        r is Ok <==> sp_head_rest(old(lex).source(), opt_stmt_v(init), old(lex).position()) is Some,
        r matches Ok(h) ==> sp_head_rest(old(lex).source(), opt_stmt_v(init), old(lex).position())
            == Some(head_v(h, final(lex).position())),
{
    let ghost src = lex.source();
    proof {
        lex.lemma_bounds();
    }
    if let Err(e) = lex.expect_punct(Punct::Semicolon) {
        return Err(e);
    }
    let ghost e1 = lex.position();
    proof {
        lex.lemma_bounds();
    }
    let nt = lex.expect_peek_any();
    let nt = match nt {
        Err(e) => {
            return Err(e);
        },
        Ok(nt) => nt,
    };
    let mut cond: Option<Expr> = None;
    if !nt.is_punct(Punct::Semicolon) {
        match parse_expr(lex, 0) {
            Err(e) => {
                return Err(e);
            },
            Ok(c) => {
                cond = Some(c);
            },
        }
    }
    let ghost q2 = lex.position();
    proof {
        lex.lemma_bounds();
        assert(match tok_at(src, e1) {
            Some((u, _)) => if u == TokenV::Punct(Punct::Semicolon) {
                Some((None::<ExprV>, e1))
            } else {
                match sp_expr(src, e1, 0) {
                    Some((v, p)) => Some((Some(v), p)),
                    None => None,
                }
            },
            None => None,
        } == Some((opt_expr_v(cond), q2)));
    }
    if let Err(e) = lex.expect_punct(Punct::Semicolon) {
        return Err(e);
    }
    proof {
        lex.lemma_bounds();
    }
    let nt = lex.expect_peek_any();
    let nt = match nt {
        Err(e) => {
            return Err(e);
        },
        Ok(nt) => nt,
    };
    if nt.is_punct(Punct::OpenCurly) {
        return Ok((init, cond, None));
    }
    let post = match parse_clause(lex) {
        Err(e) => {
            return Err(e);
        },
        Ok(s) => s,
    };
    proof {
        lex.lemma_bounds();
    }
    let nt = lex.expect_peek_any();
    let nt = match nt {
        Err(e) => {
            return Err(e);
        },
        Ok(nt) => nt,
    };
    if !nt.is_punct(Punct::OpenCurly) {
        return Err(unexpected(lex, nt));
    }
    Ok((init, cond, Some(post)))
}

/// Parses a loop head that is just a condition, whose first token `first` has been
/// consumed, up to just before the `{` of the body.
fn parse_cond_head(lex: &mut Lexer, first: Token) -> (r: Result<ForHead, CompileError>)
    requires
        old(lex).wf(),
    ensures
        head_ok(*old(lex), *final(lex), r is Ok),
        r is Ok <==> sp_cond_head(old(lex).source(), first@, old(lex).position()) is Some,
        r matches Ok(h) ==> sp_cond_head(old(lex).source(), first@, old(lex).position()) == Some(
            head_v(h, final(lex).position()),
        ),
{
    let c = match parse_expr_from(lex, first, 0) {
        Err(e) => {
            return Err(e);
        },
        Ok(c) => c,
    };
    proof {
        lex.lemma_bounds();
    }
    let nt = lex.expect_peek_any();
    let nt = match nt {
        Err(e) => {
            return Err(e);
        },
        Ok(nt) => nt,
    };
    if nt.is_punct(Punct::OpenCurly) {
        Ok((None, Some(c), None))
    } else {
        Err(unexpected(lex, nt))
    }
}

/// Parses what stands between `for` and the `{` of the loop's body: nothing; a condition;
/// or `init; cond; post` with each of the three optional.
fn parse_for_head(lex: &mut Lexer) -> (r: Result<ForHead, CompileError>)
    requires
        old(lex).wf(),
    ensures
        head_ok(*old(lex), *final(lex), r is Ok),
        r is Ok <==> sp_for_head(old(lex).source(), old(lex).position()) is Some,
        r matches Ok(h) ==> sp_for_head(old(lex).source(), old(lex).position()) == Some(
            head_v(h, final(lex).position()),
        ),
{
    proof {
        lex.lemma_bounds();
    }
    let t = lex.expect_peek_any();
    let t = match t {
        Err(e) => {
            return Err(e);
        },
        Ok(t) => t,
    };
    if t.is_punct(Punct::OpenCurly) {
        return Ok((None, None, None));
    }
    if t.is_punct(Punct::Semicolon) {
        return parse_head_rest(lex, None);
    }
    let first = lex.expect_any();
    let first = match first {
        Err(e) => {
            return Err(e);
        },
        Ok(first) => first,
    };
    let loc = lex.current_loc();
    match first {
        Token::Ident(name) => {
            proof {
                lex.lemma_bounds();
            }
            let nt = lex.expect_peek_any();
            let nt = match nt {
                Err(e) => {
                    return Err(e);
                },
                Ok(nt) => nt,
            };
            if nt.is_punct(Punct::Colon) || nt.is_punct(Punct::Eq) {
                let st = match parse_assign(lex, name, loc) {
                    Err(e) => {
                        return Err(e);
                    },
                    Ok(st) => st,
                };
                parse_head_rest(lex, Some(Box::new(st)))
            } else {
                parse_cond_head(lex, Token::Ident(name))
            }
        },
        other => parse_cond_head(lex, other),
    }
}

/// Parses `;` after a statement and returns the statement.
fn end_stmt(lex: &mut Lexer, s: Stmt) -> (r: Result<Stmt, CompileError>)
    requires
        old(lex).wf(),
    ensures
        advanced(*old(lex), *final(lex), r is Ok),
        r matches Ok(t) ==> t == s,
        r is Ok <==> expect_tok(old(lex).source(), old(lex).position(), TokenV::Punct(Punct::Semicolon))
            is Some,
        r is Ok ==> expect_tok(old(lex).source(), old(lex).position(), TokenV::Punct(Punct::Semicolon))
            == Some(final(lex).position()),
{
    proof {
        lex.lemma_bounds();
    }
    match lex.expect_punct(Punct::Semicolon) {
        Err(e) => Err(e),
        Ok(()) => Ok(s),
    }
}

/// Parses the rest of a statement that starts with the identifier `name`.
fn parse_ident_stmt(lex: &mut Lexer, name: Vec<u8>, loc: Loc) -> (r: Result<Stmt, CompileError>)
    requires
        old(lex).wf(),
    ensures
        advanced(*old(lex), *final(lex), r is Ok),
        r matches Ok(s) ==> s.loc == loc && ident_stmt(s, name@),
        r is Ok <==> sp_ident_stmt(old(lex).source(), name@, old(lex).position()) is Some,
        r matches Ok(s) ==> sp_ident_stmt(old(lex).source(), name@, old(lex).position()) == Some(
            (stmt_v(s), final(lex).position()),
        ),
{
    proof {
        lex.lemma_bounds();
    }
    let nt = lex.expect_peek_any();
    let nt = match nt {
        Err(e) => {
            return Err(e);
        },
        Ok(nt) => nt,
    };
    if nt.is_punct(Punct::Semicolon) {
        let _ = lex.next_any();
        if is_break(&name) {
            return Ok(Stmt { loc, kind: StmtKind::Break });
        } else if is_continue(&name) {
            return Ok(Stmt { loc, kind: StmtKind::Continue });
        }
        return Ok(Stmt { loc, kind: StmtKind::VarDecl(name) });
    }
    if nt.is_punct(Punct::OpenParen) {
        let _ = lex.next_any();
        proof {
            lex.lemma_bounds();
        }
        if is_log(&name) {
            let arg = lex.expect_ident();
            let arg = match arg {
                Err(e) => {
                    return Err(e);
                },
                Ok(arg) => arg,
            };
            proof {
                lex.lemma_bounds();
            }
            if let Err(e) = lex.expect_punct(Punct::CloseParen) {
                return Err(e);
            }
            return end_stmt(lex, Stmt { loc, kind: StmtKind::BuiltinFnCall { name, arg } });
        }
        if is_cmd(&name) {
            let arg = lex.expect_any();
            let arg = match arg {
                Err(e) => {
                    return Err(e);
                },
                Ok(Token::StrLit(text)) => text,
                Ok(t) => {
                    return Err(unexpected(lex, t));
                },
            };
            proof {
                lex.lemma_bounds();
            }
            if let Err(e) = lex.expect_punct(Punct::CloseParen) {
                return Err(e);
            }
            return end_stmt(lex, Stmt { loc, kind: StmtKind::BuiltinFnCall { name, arg } });
        }
        let args = parse_args(lex);
        return match args {
            Err(e) => Err(e),
            Ok(args) => end_stmt(lex, Stmt { loc, kind: StmtKind::FnCall { name, args } }),
        };
    }
    match parse_assign(lex, name, loc) {
        Err(e) => Err(e),
        Ok(s) => end_stmt(lex, s),
    }
}

/// Parses one statement.
pub fn parse_stmt(lex: &mut Lexer) -> (r: Result<Stmt, CompileError>)
    requires
        old(lex).wf(),
    ensures
        advanced(*old(lex), *final(lex), r is Ok),
        match step(old(lex).source(), old(lex).position()) {
            Step::Tok(t, _, _) => (r matches Ok(s) ==> stmt_starts_with(s, t) && loc_is(
                s.loc,
                old(lex).source(),
                token_start(old(lex).source(), old(lex).position()),
            )) && (!starts_stmt(t) ==> (r matches Err(e) && e.kind is UnexpectedToken)),
            Step::End => r matches Err(e) && e.kind == ErrorKind::UnexpectedEnd,
            Step::Bad(k, _) => r matches Err(e) && e.kind == ErrorKind::Lexical(k),
        },
        r is Ok <==> sp_stmt(old(lex).source(), old(lex).position()) is Some,
        r matches Ok(s) ==> sp_stmt(old(lex).source(), old(lex).position()) == Some(
            (stmt_v(s), final(lex).position()),
        ),
    decreases old(lex).source().len() - old(lex).position(),
{
    proof {
        lex.lemma_bounds();
    }
    let t = lex.expect_any();
    let t = match t {
        Err(e) => {
            return Err(e);
        },
        Ok(t) => t,
    };
    let loc = lex.current_loc();
    match t {
        Token::Keyword(Keyword::For) => {
            let head = parse_for_head(lex);
            match head {
                Err(e) => Err(e),
                Ok((init, cond, post)) => {
                    let body = parse_block(lex);
                    match body {
                        Err(e) => Err(e),
                        Ok(body) => Ok(Stmt { loc, kind: StmtKind::For { init, cond, post, body } }),
                    }
                },
            }
        },
        Token::Keyword(Keyword::If) => parse_if(lex, loc),
        Token::Keyword(Keyword::Return) => {
            proof {
                lex.lemma_bounds();
            }
            let nt = lex.expect_peek_any();
            match nt {
                Err(e) => Err(e),
                Ok(nt) => {
                    if nt.is_punct(Punct::Semicolon) {
                        let _ = lex.next_any();
                        Ok(Stmt { loc, kind: StmtKind::Return })
                    } else {
                        match parse_expr(lex, 0) {
                            Err(e) => Err(e),
                            Ok(e) => end_stmt(lex, Stmt { loc, kind: StmtKind::ReturnVal(e) }),
                        }
                    }
                },
            }
        },
        Token::Ident(name) => parse_ident_stmt(lex, name, loc),
        other => Err(unexpected(lex, other)),
    }
}

/// Parses the rest of a conditional whose `if` has been consumed: its condition and block,
/// each `else if` arm, and the `else` block.
fn parse_if(lex: &mut Lexer, loc: Loc) -> (r: Result<Stmt, CompileError>)
    requires
        old(lex).wf(),
    ensures
        advanced(*old(lex), *final(lex), r is Ok),
        r matches Ok(s) ==> s.kind is If && s.loc == loc,
        r is Ok <==> sp_if(old(lex).source(), old(lex).position()) is Some,
        r matches Ok(s) ==> sp_if(old(lex).source(), old(lex).position()) == Some(
            (stmt_v(s), final(lex).position()),
        ),
    decreases old(lex).source().len() - old(lex).position(),
{
    let ghost start = lex.position();
    let ghost src = lex.source();
    let cond = parse_expr(lex, 0);
    let cond = match cond {
        Err(e) => {
            return Err(e);
        },
        Ok(c) => c,
    };
    let then_block = parse_block(lex);
    let then_block = match then_block {
        Err(e) => {
            return Err(e);
        },
        Ok(b) => b,
    };
    let mut elseifs: Vec<ElseIf> = Vec::new();
    proof {
        lex.lemma_bounds();
        assert(arms_v(elseifs@) =~= Seq::<(ExprV, Seq<StmtV>)>::empty());
    }
    loop
        invariant
            lex.wf(),
            lex.source() == old(lex).source(),
            src == old(lex).source(),
            sp_if(src, start) == sp_if_rest(
                src,
                lex.position(),
                expr_v(cond),
                block_v(then_block@),
                arms_v(elseifs@),
            ),
            lex.position() <= lex.source().len(),
            lex.position() > start,
            start == old(lex).position(),
        decreases lex.source().len() - lex.position(),
    {
        proof {
            lex.lemma_bounds();
        }
        let nt = lex.peek_any();
        let is_else = match nt {
            Err(e) => {
                return Err(e);
            },
            Ok(Some(Token::Keyword(Keyword::Else))) => true,
            Ok(_) => false,
        };
        if !is_else {
            let elze: Block = Vec::new();
            proof {
                assert(block_v(elze@) =~= Seq::<StmtV>::empty());
            }
            return Ok(Stmt { loc, kind: StmtKind::If { cond, then_block, elseifs, elze } });
        }
        let _ = lex.next_any();
        proof {
            lex.lemma_bounds();
        }
        let nt = lex.expect_peek_any();
        let is_if = match nt {
            Err(e) => {
                return Err(e);
            },
            Ok(Token::Keyword(Keyword::If)) => true,
            Ok(_) => false,
        };
        if is_if {
            let _ = lex.next_any();
            let c = parse_expr(lex, 0);
            let c = match c {
                Err(e) => {
                    return Err(e);
                },
                Ok(c) => c,
            };
            let b = parse_block(lex);
            match b {
                Err(e) => {
                    return Err(e);
                },
                Ok(b) => {
                    let ghost before = elseifs@;
                    elseifs.push(ElseIf { cond: c, then_block: b });
                    proof {
                        assert(elseifs@.drop_last() =~= before);
                        lex.lemma_bounds();
                    }
                },
            }
        } else {
            let elze = parse_block(lex);
            return match elze {
                Err(e) => Err(e),
                Ok(elze) => Ok(Stmt { loc, kind: StmtKind::If { cond, then_block, elseifs, elze } }),
            };
        }
    }
}

/// Parses a block: `{`, statements, `}`.
pub fn parse_block(lex: &mut Lexer) -> (r: Result<Block, CompileError>)
    requires
        old(lex).wf(),
    ensures
        advanced(*old(lex), *final(lex), r is Ok),
        r is Ok ==> (step(old(lex).source(), old(lex).position()) matches Step::Tok(t, _, _) && t
            == TokenV::Punct(Punct::OpenCurly)),
        r is Ok <==> sp_block(old(lex).source(), old(lex).position()) is Some,
        r matches Ok(b) ==> sp_block(old(lex).source(), old(lex).position()) == Some(
            (block_v(b@), final(lex).position()),
        ),
    decreases old(lex).source().len() - old(lex).position(),
{
    let ghost start = lex.position();
    let ghost src = lex.source();
    proof {
        lex.lemma_bounds();
    }
    if let Err(e) = lex.expect_punct(Punct::OpenCurly) {
        return Err(e);
    }
    let mut block: Block = Vec::new();
    proof {
        assert(block_v(block@) =~= Seq::<StmtV>::empty());
    }
    loop
        invariant
            src == old(lex).source(),
            sp_block(src, start) == sp_block_rest(src, lex.position(), block_v(block@)),
            lex.wf(),
            lex.source() == old(lex).source(),
            lex.position() <= lex.source().len(),
            lex.position() > start,
            start == old(lex).position(),
            step(old(lex).source(), start) matches Step::Tok(t, _, _) && t == TokenV::Punct(
                Punct::OpenCurly,
            ),
        decreases lex.source().len() - lex.position(),
    {
        proof {
            lex.lemma_bounds();
        }
        let nt = lex.expect_peek_any();
        match nt {
            Err(e) => {
                return Err(e);
            },
            Ok(t) => {
                if t.is_punct(Punct::CloseCurly) {
                    let _ = lex.next_any();
                    return Ok(block);
                }
            },
        }
        match parse_stmt(lex) {
            Err(e) => {
                return Err(e);
            },
            Ok(s) => {
                let ghost before = block@;
                block.push(s);
                proof {
                    assert(block@.drop_last() =~= before);
                }
            },
        }
    }
}

/// Parses the parameter list of a function whose `(` has been consumed, up to and with
/// its `)`.
fn parse_params(lex: &mut Lexer) -> (r: Result<Vec<Vec<u8>>, CompileError>)
    requires
        old(lex).wf(),
    ensures
        advanced(*old(lex), *final(lex), r is Ok),
        r is Ok <==> sp_params(old(lex).source(), old(lex).position()) is Some,
        r matches Ok(v) ==> sp_params(old(lex).source(), old(lex).position()) == Some(
            (names_v(v@), final(lex).position()),
        ),
{
    let ghost start = lex.position();
    let ghost src = lex.source();
    proof {
        lex.lemma_bounds();
    }
    let mut params: Vec<Vec<u8>> = Vec::new();
    let t = lex.expect_any();
    match t {
        Err(e) => {
            return Err(e);
        },
        Ok(Token::Ident(name)) => {
            params.push(name);
            proof {
                assert(names_v(params@) =~= seq![params@[0]@]);
            }
        },
        Ok(t) => {
            if t.is_punct(Punct::CloseParen) {
                proof {
                    assert(names_v(params@) =~= Seq::<Seq<u8>>::empty());
                }
                return Ok(params);
            }
            return Err(unexpected(lex, t));
        },
    }
    loop
        invariant
            src == old(lex).source(),
            sp_params(src, start) == sp_params_rest(src, lex.position(), names_v(params@)),
            lex.wf(),
            lex.source() == old(lex).source(),
            lex.position() <= lex.source().len(),
            lex.position() > start,
            start == old(lex).position(),
        decreases lex.source().len() - lex.position(),
    {
        proof {
            lex.lemma_bounds();
        }
        let t = lex.expect_any();
        let t = match t {
            Err(e) => {
                return Err(e);
            },
            Ok(t) => t,
        };
        if t.is_punct(Punct::CloseParen) {
            return Ok(params);
        }
        if !t.is_punct(Punct::Comma) {
            return Err(unexpected(lex, t));
        }
        proof {
            lex.lemma_bounds();
        }
        let name = lex.expect_ident();
        let name = match name {
            Err(e) => {
                return Err(e);
            },
            Ok(name) => name,
        };
        let ghost before = params@;
        params.push(name);
        proof {
            assert(names_v(params@) =~= names_v(before).push(name@));
        }
    }
}

/// Parses a function declaration whose `fn` has been consumed.
fn parse_fn_decl(lex: &mut Lexer, loc: Loc) -> (r: Result<FnDecl, CompileError>)
    requires
        old(lex).wf(),
    ensures
        advanced(*old(lex), *final(lex), r is Ok),
        r is Ok <==> sp_fn(old(lex).source(), old(lex).position()) is Some,
        r matches Ok(f) ==> sp_fn(old(lex).source(), old(lex).position()) == Some(
            (fn_v(f), final(lex).position()),
        ),
{
    proof {
        lex.lemma_bounds();
    }
    let name = lex.expect_ident();
    let name = match name {
        Err(e) => {
            return Err(e);
        },
        Ok(name) => name,
    };
    proof {
        lex.lemma_bounds();
    }
    if let Err(e) = lex.expect_punct(Punct::OpenParen) {
        return Err(e);
    }
    let params = parse_params(lex);
    let params = match params {
        Err(e) => {
            return Err(e);
        },
        Ok(p) => p,
    };
    proof {
        lex.lemma_bounds();
    }
    let nt = lex.expect_peek_any();
    let has_result = match nt {
        Err(e) => {
            return Err(e);
        },
        Ok(Token::Keyword(Keyword::Int)) => {
            let _ = lex.next_any();
            proof {
                lex.lemma_bounds();
            }
            true
        },
        Ok(t) => {
            if !t.is_punct(Punct::OpenCurly) {
                return Err(unexpected(lex, t));
            }
            false
        },
    };
    let body = parse_block(lex);
    match body {
        Err(e) => Err(e),
        Ok(body) => Ok(FnDecl { name, params, has_result, body, loc }),
    }
}

/// The token at `pos` is `fn`.
pub open spec fn starts_with_fn(src: Seq<u8>, pos: int) -> bool {
    step(src, pos) matches Step::Tok(t, _, _) && t == TokenV::Keyword(Keyword::Fn)
}

/// Parses a whole program: function declarations up to the end of the source.
pub fn parse(lex: &mut Lexer) -> (r: Result<Ast, CompileError>)
    requires
        old(lex).wf(),
    ensures
        final(lex).wf(),
        final(lex).source() == old(lex).source(),
        r is Ok ==> step(final(lex).source(), final(lex).position()) is End,
        step(old(lex).source(), old(lex).position()) is End ==> (r matches Ok(a)
            && a.fn_decls@.len() == 0),
        (step(old(lex).source(), old(lex).position()) matches Step::Tok(t, _, _) && t
            != TokenV::Keyword(Keyword::Fn)) ==> (r matches Err(e) && e.kind is UnexpectedToken),
        r is Ok <==> sp_program(old(lex).source(), old(lex).position(), Seq::empty()) is Some,
        r matches Ok(a) ==> sp_program(old(lex).source(), old(lex).position(), Seq::empty()) == Some(
            ast_v(a),
        ),
{
    let ghost start = lex.position();
    let ghost src = lex.source();
    let mut ast = Ast { fn_decls: Vec::new() };
    proof {
        lex.lemma_bounds();
        assert(ast_v(ast) =~= Seq::<FnV>::empty());
    }
    loop
        invariant
            src == old(lex).source(),
            start == old(lex).position(),
            sp_program(src, start, Seq::empty()) == sp_program(src, lex.position(), ast_v(ast)),
            lex.wf(),
            lex.source() == old(lex).source(),
            lex.position() <= lex.source().len(),
            (ast.fn_decls@.len() == 0 && lex.position() == old(lex).position()) || (
            ast.fn_decls@.len() > 0 && starts_with_fn(old(lex).source(), old(lex).position())),
        decreases lex.source().len() - lex.position(),
    {
        proof {
            lex.lemma_bounds();
        }
        let ghost before = lex.position();
        let t = lex.next_any();
        match t {
            Err(e) => {
                return Err(e);
            },
            Ok(None) => {
                proof {
                    crate::lexer::lemma_skip_ws_idem(lex.source(), before);
                }
                return Ok(ast);
            },
            Ok(Some(Token::Keyword(Keyword::Fn))) => {
                let loc = lex.current_loc();
                match parse_fn_decl(lex, loc) {
                    Err(e) => {
                        return Err(e);
                    },
                    Ok(f) => {
                        let ghost before = ast_v(ast);
                        ast.fn_decls.push(f);
                        proof {
                            assert(ast_v(ast) =~= before.push(fn_v(f)));
                            lex.lemma_bounds();
                        }
                    },
                }
            },
            Ok(Some(t)) => {
                return Err(unexpected(lex, t));
            },
        }
    }
}

} // verus!
