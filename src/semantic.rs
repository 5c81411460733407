//! Semantic analysis: name resolution, arity, control-flow legality and return-value
//! obligations, and the stack slot of every local variable.
use vstd::prelude::*;

use crate::error::{CompileError, ErrorKind};
use crate::lexer::Loc;
use crate::parser::{
    Ast,
    Block,
    ElseIf,
    Expr,
    FnDecl,
    Stmt,
    StmtKind,
    bytes_eq,
    is_cmd,
    is_log,
    word_cmd,
    word_log,
};

verus! {

/// The names of a list of byte strings.
pub open spec fn names_of(v: Seq<Vec<u8>>) -> Seq<Seq<u8>> {
    v.map_values(|x: Vec<u8>| x@)
}

/// The index of the last occurrence of `x` in `s`, or -1 if there is none.
pub open spec fn last_index(s: Seq<Seq<u8>>, x: Seq<u8>) -> int
    decreases s.len(),
{
    if s.len() == 0 {
        -1
    } else if s.last() == x {
        s.len() - 1
    } else {
        last_index(s.drop_last(), x)
    }
}

/// The index of the last function named `name`, or -1 if there is none.
pub open spec fn find_fn(fns: Seq<FnDecl>, name: Seq<u8>) -> int
    decreases fns.len(),
{
    if fns.len() == 0 {
        -1
    } else if fns.last().name@ == name {
        fns.len() - 1
    } else {
        find_fn(fns.drop_last(), name)
    }
}

/// A call of `name` with `nargs` arguments resolves, and yields a value where one is needed.
pub open spec fn call_ok(fns: Seq<FnDecl>, name: Seq<u8>, nargs: int, need_result: bool) -> bool {
    let k = find_fn(fns, name);
    &&& 0 <= k
    &&& fns[k].params@.len() == nargs
    &&& need_result ==> fns[k].has_result
}

/// Every variable that `e` reads is in `scope`, and every call in it resolves.
pub open spec fn expr_ok(fns: Seq<FnDecl>, scope: Seq<Seq<u8>>, e: Expr) -> bool
    decreases e,
{
    match e {
        Expr::Num(_) => true,
        Expr::Var(n) => scope.contains(n@),
        Expr::BinOp { lhs, rhs, .. } => expr_ok(fns, scope, *lhs) && expr_ok(fns, scope, *rhs),
        Expr::FnCall { name, args } => call_ok(fns, name@, args@.len() as int, true) && args_ok(
            fns,
            scope,
            args@,
        ),
    }
}

pub open spec fn args_ok(fns: Seq<FnDecl>, scope: Seq<Seq<u8>>, args: Seq<Expr>) -> bool
    decreases args,
{
    forall|i: int| 0 <= i < args.len() ==> expr_ok(fns, scope, #[trigger] args[i])
}

/// The scope after statement `s`, which starts with `scope`, in a function that returns
/// a value or not (`r`), inside a loop or not; `None` where the statement is illegal.
pub open spec fn stmt_scope(
    fns: Seq<FnDecl>,
    r: bool,
    scope: Seq<Seq<u8>>,
    s: Stmt,
    in_loop: bool,
) -> Option<Seq<Seq<u8>>>
    decreases s,
{
    match s.kind {
        StmtKind::VarDecl(n) => if scope.contains(n@) {
            None
        } else {
            Some(scope.push(n@))
        },
        StmtKind::VarDeclAssign { name, expr } => if scope.contains(name@) || !expr_ok(
            fns,
            scope,
            expr,
        ) {
            None
        } else {
            Some(scope.push(name@))
        },
        StmtKind::VarAssign { name, expr } => if scope.contains(name@) && expr_ok(
            fns,
            scope,
            expr,
        ) {
            Some(scope)
        } else {
            None
        },
        StmtKind::FnCall { name, args } => if call_ok(fns, name@, args@.len() as int, false)
            && args_ok(fns, scope, args@) {
            Some(scope)
        } else {
            None
        },
        StmtKind::BuiltinFnCall { name, arg } => if name@ == word_cmd() || (name@ == word_log()
            && scope.contains(arg@)) {
            Some(scope)
        } else {
            None
        },
        StmtKind::If { cond, then_block, elseifs, elze } => if !expr_ok(fns, scope, cond) {
            None
        } else {
            match block_scope(fns, r, scope, then_block@, in_loop) {
                None => None,
                Some(s1) => match elseifs_scope(fns, r, s1, elseifs@, in_loop) {
                    None => None,
                    Some(s2) => block_scope(fns, r, s2, elze@, in_loop),
                },
            }
        },
        StmtKind::For { init, cond, post, body } => {
            let s1 = match init {
                Some(b) => stmt_scope(fns, r, scope, *b, in_loop),
                None => Some(scope),
            };
            match s1 {
                None => None,
                Some(s1) => if cond matches Some(c) && !expr_ok(fns, s1, c) {
                    None
                } else {
                    let s2 = match post {
                        Some(b) => stmt_scope(fns, r, s1, *b, in_loop),
                        None => Some(s1),
                    };
                    match s2 {
                        None => None,
                        Some(s2) => block_scope(fns, r, s2, body@, true),
                    }
                },
            }
        },
        StmtKind::Break | StmtKind::Continue => if in_loop {
            Some(scope)
        } else {
            None
        },
        StmtKind::Return => if !r {
            Some(scope)
        } else {
            None
        },
        StmtKind::ReturnVal(e) => if r && expr_ok(fns, scope, e) {
            Some(scope)
        } else {
            None
        },
    }
}

/// The scope after the statements of `b`, in order.
pub open spec fn block_scope(
    fns: Seq<FnDecl>,
    r: bool,
    scope: Seq<Seq<u8>>,
    b: Seq<Stmt>,
    in_loop: bool,
) -> Option<Seq<Seq<u8>>>
    decreases b,
{
    if b.len() == 0 {
        Some(scope)
    } else {
        match block_scope(fns, r, scope, b.drop_last(), in_loop) {
            None => None,
            Some(s1) => stmt_scope(fns, r, s1, b.last(), in_loop),
        }
    }
}

/// The scope after the `else if` arms of a conditional, in order.
pub open spec fn elseifs_scope(
    fns: Seq<FnDecl>,
    r: bool,
    scope: Seq<Seq<u8>>,
    arms: Seq<ElseIf>,
    in_loop: bool,
) -> Option<Seq<Seq<u8>>>
    decreases arms,
{
    if arms.len() == 0 {
        Some(scope)
    } else {
        match elseifs_scope(fns, r, scope, arms.drop_last(), in_loop) {
            None => None,
            Some(s1) => if expr_ok(fns, s1, arms.last().cond) {
                block_scope(fns, r, s1, arms.last().then_block@, in_loop)
            } else {
                None
            },
        }
    }
}

pub open spec fn unique(s: Seq<Seq<u8>>) -> bool {
    forall|i: int, j: int| 0 <= i < j < s.len() ==> s[i] != s[j]
}

/// A function with a result ends in `return value;`.
pub open spec fn returns_value(f: FnDecl) -> bool {
    f.has_result ==> f.body@.len() > 0 && f.body@.last().kind is ReturnVal
}

/// The names of a function's slots after its return slot, in order: its parameters, then
/// its locals in the order of their declarations; `None` where the body is illegal.
pub open spec fn fn_scope(fns: Seq<FnDecl>, f: FnDecl) -> Option<Seq<Seq<u8>>> {
    block_scope(fns, f.has_result, names_of(f.params@), f.body@, false)
}

pub open spec fn fn_ok(fns: Seq<FnDecl>, f: FnDecl) -> bool {
    &&& unique(names_of(f.params@))
    &&& returns_value(f)
    &&& fn_scope(fns, f) is Some
}

pub open spec fn fn_names(fns: Seq<FnDecl>) -> Seq<Seq<u8>> {
    fns.map_values(|f: FnDecl| f.name@)
}

/// The program passes semantic analysis.
pub open spec fn program_ok(ast: Ast) -> bool {
    &&& unique(fn_names(ast.fn_decls@))
    &&& forall|i: int| 0 <= i < ast.fn_decls@.len() ==> fn_ok(ast.fn_decls@, #[trigger] ast.fn_decls@[i])
}

/// The error of a semantic check, with the name that it concerns.
pub enum SemErr {
    VarRedeclared(Seq<u8>),
    UnknownVar(Seq<u8>),
    UnknownFn(Seq<u8>),
    ArityMismatch(Seq<u8>),
    UnknownBuiltin(Seq<u8>),
    NoResult(Seq<u8>),
}

pub open spec fn same_kind(k: ErrorKind, e: SemErr) -> bool {
    match e {
        SemErr::VarRedeclared(n) => k matches ErrorKind::VarRedeclared(m) && m@ == n,
        SemErr::UnknownVar(n) => k matches ErrorKind::UnknownVar(m) && m@ == n,
        SemErr::UnknownFn(n) => k matches ErrorKind::UnknownFn(m) && m@ == n,
        SemErr::ArityMismatch(n) => k matches ErrorKind::ArityMismatch(m) && m@ == n,
        SemErr::UnknownBuiltin(n) => k matches ErrorKind::UnknownBuiltin(m) && m@ == n,
        SemErr::NoResult(n) => k matches ErrorKind::NoResult(m) && m@ == n,
    }
}

/// The error of a call of `name` with `nargs` arguments: an unknown callee, a wrong
/// arity, or, where a value is needed, a callee without a result.
pub open spec fn call_error(fns: Seq<FnDecl>, name: Seq<u8>, nargs: int, need_result: bool) -> Option<
    SemErr,
> {
    let k = find_fn(fns, name);
    if k < 0 {
        Some(SemErr::UnknownFn(name))
    } else if fns[k].params@.len() != nargs {
        Some(SemErr::ArityMismatch(name))
    } else if need_result && !fns[k].has_result {
        Some(SemErr::NoResult(name))
    } else {
        None
    }
}

/// The error that an expression raises by itself: an unknown variable, or a bad call.
pub open spec fn expr_direct_error(fns: Seq<FnDecl>, scope: Seq<Seq<u8>>, e: Expr) -> Option<SemErr> {
    match e {
        Expr::Var(n) => if scope.contains(n@) {
            None
        } else {
            Some(SemErr::UnknownVar(n@))
        },
        Expr::FnCall { name, args } => call_error(fns, name@, args@.len() as int, true),
        _ => None,
    }
}

/// The error that a statement raises by itself, before looking into its expressions and
/// blocks: a redeclared or unknown variable, an unknown callee or a wrong arity, an
/// unknown built-in.
pub open spec fn direct_error(fns: Seq<FnDecl>, scope: Seq<Seq<u8>>, s: Stmt) -> Option<SemErr> {
    match s.kind {
        StmtKind::VarDecl(n) => if scope.contains(n@) {
            Some(SemErr::VarRedeclared(n@))
        } else {
            None
        },
        StmtKind::VarDeclAssign { name, .. } => if scope.contains(name@) {
            Some(SemErr::VarRedeclared(name@))
        } else {
            None
        },
        StmtKind::VarAssign { name, .. } => if !scope.contains(name@) {
            Some(SemErr::UnknownVar(name@))
        } else {
            None
        },
        StmtKind::FnCall { name, args } => call_error(fns, name@, args@.len() as int, false),
        StmtKind::BuiltinFnCall { name, arg } => if name@ == word_cmd() {
            None
        } else if name@ == word_log() {
            if scope.contains(arg@) {
                None
            } else {
                Some(SemErr::UnknownVar(arg@))
            }
        } else {
            Some(SemErr::UnknownBuiltin(name@))
        },
        _ => None,
    }
}

/// The first statement of a block is `break` or `continue`.
pub open spec fn first_is_jump(b: Seq<Stmt>) -> bool {
    b.len() > 0 && (b[0].kind is Break || b[0].kind is Continue)
}

/// The names of the functions are unique, and the first function passes every check but
/// that its body starts with `break` or `continue` outside of any loop.
pub open spec fn first_fn_jumps_out(fns: Seq<FnDecl>) -> bool {
    &&& unique(fn_names(fns))
    &&& fns.len() > 0
    &&& unique(names_of(fns[0].params@))
    &&& returns_value(fns[0])
    &&& first_is_jump(fns[0].body@)
}

/// The names of the functions are unique, and the first function's parameters are, but
/// it has a result and its body does not end in `return value;`.
pub open spec fn first_fn_misses_value(fns: Seq<FnDecl>) -> bool {
    &&& unique(fn_names(fns))
    &&& fns.len() > 0
    &&& unique(names_of(fns[0].params@))
    &&& !returns_value(fns[0])
}

/// A statement rejected inside a block leaves the whole block rejected.
proof fn lemma_block_none(
    fns: Seq<FnDecl>,
    r: bool,
    scope: Seq<Seq<u8>>,
    b: Seq<Stmt>,
    k: int,
    in_loop: bool,
)
    requires
        0 <= k <= b.len(),
        block_scope(fns, r, scope, b.subrange(0, k), in_loop) is None,
    ensures
        block_scope(fns, r, scope, b, in_loop) is None,
    decreases b.len() - k,
{
    if k < b.len() {
        assert(b.subrange(0, k + 1).drop_last() =~= b.subrange(0, k));
        lemma_block_none(fns, r, scope, b, k + 1, in_loop);
    } else {
        assert(b.subrange(0, k) =~= b);
    }
}

proof fn lemma_elseifs_none(
    fns: Seq<FnDecl>,
    r: bool,
    scope: Seq<Seq<u8>>,
    arms: Seq<ElseIf>,
    k: int,
    in_loop: bool,
)
    requires
        0 <= k <= arms.len(),
        elseifs_scope(fns, r, scope, arms.subrange(0, k), in_loop) is None,
    ensures
        elseifs_scope(fns, r, scope, arms, in_loop) is None,
    decreases arms.len() - k,
{
    if k < arms.len() {
        assert(arms.subrange(0, k + 1).drop_last() =~= arms.subrange(0, k));
        lemma_elseifs_none(fns, r, scope, arms, k + 1, in_loop);
    } else {
        assert(arms.subrange(0, k) =~= arms);
    }
}

fn copy_bytes(v: &Vec<u8>) -> (r: Vec<u8>)
    ensures
        r@ == v@,
{
    vstd::slice::slice_to_vec(v.as_slice())
}

/// Whether `name` is in the list.
pub fn names_contain(names: &Vec<Vec<u8>>, name: &Vec<u8>) -> (r: bool)
    ensures
        r == names_of(names@).contains(name@),
{
    let mut i: usize = 0;
    while i < names.len()
        invariant
            i <= names@.len(),
            forall|q: int| 0 <= q < i ==> names@[q]@ != name@,
        decreases names@.len() - i,
    {
        if bytes_eq(&names[i], name) {
            assert(names_of(names@)[i as int] == name@);
            return true;
        }
        i = i + 1;
    }
    assert(!names_of(names@).contains(name@)) by {
        if names_of(names@).contains(name@) {
            let q = choose|q: int| 0 <= q < names_of(names@).len() && names_of(names@)[q] == name@;
            assert(names@[q]@ == name@);
        }
    }
    false
}

/// The index of the last function named `name`.
pub fn find_fn_index(fns: &Vec<FnDecl>, name: &Vec<u8>) -> (r: Option<usize>)
    ensures
        match r {
            Some(k) => k as int == find_fn(fns@, name@) && k < fns@.len(),
            None => find_fn(fns@, name@) == -1,
        },
{
    let mut k = fns.len();
    proof {
        assert(fns@.subrange(0, k as int) =~= fns@);
    }
    while k > 0
        invariant
            k <= fns@.len(),
            find_fn(fns@, name@) == find_fn(fns@.subrange(0, k as int), name@),
        decreases k,
    {
        proof {
            assert(fns@.subrange(0, k as int).drop_last() =~= fns@.subrange(0, k - 1));
        }
        k = k - 1;
        if bytes_eq(&fns[k].name, name) {
            return Some(k);
        }
    }
    None
}

/// The local variables of one function: each name's slot is its index in `names` after
/// the return slot, which comes first where the function has a result.
#[derive(Debug)]
pub struct LocalScope {
    pub has_result: bool,
    pub names: Vec<Vec<u8>>,
}

impl LocalScope {
    pub open spec fn view(&self) -> Seq<Seq<u8>> {
        names_of(self.names@)
    }

    /// The slot that the name at index `i` of `names` occupies.
    pub open spec fn slot_at(&self, i: int) -> int {
        i + if self.has_result {
            1int
        } else {
            0
        }
    }

    /// The slot of variable `name`, if it is in the scope.
    pub fn slot_of(&self, name: &Vec<u8>) -> (r: Option<usize>)
        ensures
            match r {
                Some(k) => exists|i: int|
                    0 <= i < self@.len() && self@[i] == name@ && k == self.slot_at(i),
                None => !self@.contains(name@),
            },
            r is Some <==> last_index(self@, name@) >= 0,
            r matches Some(k) ==> k == self.slot_at(last_index(self@, name@)),
    {
        let mut i = self.names.len();
        proof {
            assert(self@.subrange(0, i as int) =~= self@);
        }
        while i > 0
            invariant
                i <= self.names@.len(),
                last_index(self@, name@) == last_index(self@.subrange(0, i as int), name@),
                forall|q: int| i <= q < self.names@.len() ==> self.names@[q]@ != name@,
            decreases i,
        {
            proof {
                assert(self@.subrange(0, i as int).drop_last() =~= self@.subrange(0, i - 1));
            }
            i = i - 1;
            if bytes_eq(&self.names[i], name) {
                assert(self@[i as int] == name@);
                let k = if self.has_result {
                    i + 1
                } else {
                    i
                };
                assert(k == self.slot_at(i as int));
                return Some(k);
            }
        }
        assert(!self@.contains(name@)) by {
            if self@.contains(name@) {
                let q = choose|q: int| 0 <= q < self@.len() && self@[q] == name@;
                assert(self.names@[q]@ == name@);
            }
        }
        None
    }

    /// The number of slots of the function's frame: the return slot, if any, parameters
    /// and locals.
    pub fn local_count(&self) -> (r: usize)
        requires
            self.names@.len() < usize::MAX,
        ensures
            r == self.slot_at(self.names@.len() as int),
    {
        if self.has_result {
            self.names.len() + 1
        } else {
            self.names.len()
        }
    }
}

/// The state of the analysis of one function.
pub struct Analyzer<'a> {
    fns: &'a Vec<FnDecl>,
    has_result: bool,
    scope: Vec<Vec<u8>>,
}

impl<'a> Analyzer<'a> {
    fn error(loc: Loc, kind: ErrorKind) -> (e: CompileError)
        ensures
            e.loc == loc,
            e.kind == kind,
    {
        CompileError { loc, kind }
    }

    fn analyze_expr(&self, e: &Expr, loc: Loc) -> (r: Result<(), CompileError>)
        ensures
            r is Ok <==> expr_ok(self.fns@, names_of(self.scope@), *e),
            expr_direct_error(self.fns@, names_of(self.scope@), *e) matches Some(k) ==> (r matches Err(
                x,
            ) && same_kind(x.kind, k)),
        decreases e,
    {
        match e {
            Expr::Num(_) => Ok(()),
            Expr::Var(name) => {
                if names_contain(&self.scope, name) {
                    Ok(())
                } else {
                    Err(Self::error(loc, ErrorKind::UnknownVar(copy_bytes(name))))
                }
            },
            Expr::BinOp { lhs, rhs, .. } => {
                let a = self.analyze_expr(lhs, loc);
                if a.is_err() {
                    return a;
                }
                self.analyze_expr(rhs, loc)
            },
            Expr::FnCall { name, args } => {
                let c = self.check_call(name, args, true, loc);
                if c.is_err() {
                    return c;
                }
                self.analyze_args(args, loc)
            },
        }
    }

    fn analyze_args(&self, args: &Vec<Expr>, loc: Loc) -> (r: Result<(), CompileError>)
        ensures
            r is Ok <==> args_ok(self.fns@, names_of(self.scope@), args@),
        decreases args,
    {
        let mut i: usize = 0;
        while i < args.len()
            invariant
                i <= args@.len(),
                forall|q: int|
                    0 <= q < i ==> expr_ok(self.fns@, names_of(self.scope@), #[trigger] args@[q]),
            decreases args@.len() - i,
        {
            proof {
                assert(decreases_to!(args => args@[i as int]));
            }
            let a = self.analyze_expr(&args[i], loc);
            if a.is_err() {
                return a;
            }
            i = i + 1;
        }
        Ok(())
    }

    /// Checks that a call of `name` resolves, with as many arguments as parameters, and
    /// to a function with a result where the call stands in an expression.
    fn check_call(&self, name: &Vec<u8>, args: &Vec<Expr>, need_result: bool, loc: Loc) -> (r:
        Result<(), CompileError>)
        ensures
            r is Ok <==> call_ok(self.fns@, name@, args@.len() as int, need_result),
            call_error(self.fns@, name@, args@.len() as int, need_result) matches Some(k) ==> (
            r matches Err(x) && same_kind(x.kind, k)),
    {
        match find_fn_index(self.fns, name) {
            None => Err(Self::error(loc, ErrorKind::UnknownFn(copy_bytes(name)))),
            Some(k) => {
                let f = &self.fns[k];
                if f.params.len() != args.len() {
                    Err(Self::error(loc, ErrorKind::ArityMismatch(copy_bytes(name))))
                } else if need_result && !f.has_result {
                    Err(Self::error(loc, ErrorKind::NoResult(copy_bytes(name))))
                } else {
                    Ok(())
                }
            },
        }
    }

    /// Adds a variable to the scope, which must not hold it yet.
    fn declare(&mut self, name: &Vec<u8>, loc: Loc) -> (r: Result<(), CompileError>)
        ensures
            final(self).fns == old(self).fns,
            final(self).has_result == old(self).has_result,
            r is Ok <==> !names_of(old(self).scope@).contains(name@),
            names_of(old(self).scope@).contains(name@) ==> (r matches Err(e) && same_kind(
                e.kind,
                SemErr::VarRedeclared(name@),
            )),
            r is Ok ==> names_of(final(self).scope@) == names_of(old(self).scope@).push(name@),
    {
        if names_contain(&self.scope, name) {
            return Err(Self::error(loc, ErrorKind::VarRedeclared(copy_bytes(name))));
        }
        let ghost before = self.scope@;
        self.scope.push(copy_bytes(name));
        proof {
            assert(names_of(self.scope@) =~= names_of(before).push(name@));
        }
        Ok(())
    }

    fn analyze_stmt(&mut self, stmt: &Stmt, in_loop: bool) -> (r: Result<(), CompileError>)
        ensures
            final(self).fns == old(self).fns,
            final(self).has_result == old(self).has_result,
            match stmt_scope(
                old(self).fns@,
                old(self).has_result,
                names_of(old(self).scope@),
                *stmt,
                in_loop,
            ) {
                Some(sc) => r is Ok && names_of(final(self).scope@) == sc,
                None => r is Err,
            },
            (stmt.kind is Break || stmt.kind is Continue) && !in_loop ==> (r matches Err(e)
                && e.kind == ErrorKind::OutsideLoop),
            direct_error(old(self).fns@, names_of(old(self).scope@), *stmt) matches Some(k) ==> (
            r matches Err(e) && same_kind(e.kind, k)),
            stmt.kind is Return && old(self).has_result ==> (r matches Err(e) && e.kind
                == ErrorKind::ReturnWithoutValue),
            stmt.kind is ReturnVal && !old(self).has_result ==> (r matches Err(e) && e.kind
                == ErrorKind::ReturnValueNotAllowed),
        decreases stmt,
    {
        let loc = stmt.loc;
        match &stmt.kind {
            StmtKind::VarDecl(name) => self.declare(name, loc),
            StmtKind::VarDeclAssign { name, expr } => {
                if names_contain(&self.scope, name) {
                    return Err(Self::error(loc, ErrorKind::VarRedeclared(copy_bytes(name))));
                }
                let a = self.analyze_expr(expr, loc);
                if a.is_err() {
                    return a;
                }
                self.declare(name, loc)
            },
            StmtKind::VarAssign { name, expr } => {
                if !names_contain(&self.scope, name) {
                    return Err(Self::error(loc, ErrorKind::UnknownVar(copy_bytes(name))));
                }
                self.analyze_expr(expr, loc)
            },
            StmtKind::FnCall { name, args } => {
                let c = self.check_call(name, args, false, loc);
                if c.is_err() {
                    return c;
                }
                self.analyze_args(args, loc)
            },
            StmtKind::BuiltinFnCall { name, arg } => {
                if is_cmd(name) {
                    Ok(())
                } else if is_log(name) {
                    if names_contain(&self.scope, arg) {
                        Ok(())
                    } else {
                        Err(Self::error(loc, ErrorKind::UnknownVar(copy_bytes(arg))))
                    }
                } else {
                    Err(Self::error(loc, ErrorKind::UnknownBuiltin(copy_bytes(name))))
                }
            },
            StmtKind::If { cond, then_block, elseifs, elze } => {
                let a = self.analyze_expr(cond, loc);
                if a.is_err() {
                    return a;
                }
                let a = self.analyze_block(then_block, in_loop);
                if a.is_err() {
                    return a;
                }
                let a = self.analyze_elseifs(elseifs, in_loop, loc);
                if a.is_err() {
                    return a;
                }
                self.analyze_block(elze, in_loop)
            },
            StmtKind::For { init, cond, post, body } => {
                match init {
                    Some(s) => {
                        let a = self.analyze_stmt(s, in_loop);
                        if a.is_err() {
                            return a;
                        }
                    },
                    None => {},
                }
                match cond {
                    Some(c) => {
                        let a = self.analyze_expr(c, loc);
                        if a.is_err() {
                            return a;
                        }
                    },
                    None => {},
                }
                match post {
                    Some(s) => {
                        let a = self.analyze_stmt(s, in_loop);
                        if a.is_err() {
                            return a;
                        }
                    },
                    None => {},
                }
                self.analyze_block(body, true)
            },
            StmtKind::Break | StmtKind::Continue => {
                if in_loop {
                    Ok(())
                } else {
                    Err(Self::error(loc, ErrorKind::OutsideLoop))
                }
            },
            StmtKind::Return => {
                if self.has_result {
                    Err(Self::error(loc, ErrorKind::ReturnWithoutValue))
                } else {
                    Ok(())
                }
            },
            StmtKind::ReturnVal(e) => {
                if !self.has_result {
                    return Err(Self::error(loc, ErrorKind::ReturnValueNotAllowed));
                }
                self.analyze_expr(e, loc)
            },
        }
    }

    fn analyze_elseifs(&mut self, arms: &Vec<ElseIf>, in_loop: bool, loc: Loc) -> (r: Result<
        (),
        CompileError,
    >)
        ensures
            final(self).fns == old(self).fns,
            final(self).has_result == old(self).has_result,
            match elseifs_scope(
                old(self).fns@,
                old(self).has_result,
                names_of(old(self).scope@),
                arms@,
                in_loop,
            ) {
                Some(sc) => r is Ok && names_of(final(self).scope@) == sc,
                None => r is Err,
            },
        decreases arms,
    {
        let ghost fns = self.fns@;
        let ghost res = self.has_result;
        let ghost scope0 = names_of(self.scope@);
        let mut i: usize = 0;
        while i < arms.len()
            invariant
                self.fns@ == fns,
                self.fns == old(self).fns,
                self.has_result == res,
                res == old(self).has_result,
                scope0 == names_of(old(self).scope@),
                i <= arms@.len(),
                elseifs_scope(fns, res, scope0, arms@.subrange(0, i as int), in_loop) == Some(
                    names_of(self.scope@),
                ),
            decreases arms@.len() - i,
        {
            proof {
                assert(arms@.subrange(0, i + 1).drop_last() =~= arms@.subrange(0, i as int));
                assert(decreases_to!(arms => arms@[i as int]));
            }
            let arm = &arms[i];
            let a = self.analyze_expr(&arm.cond, loc);
            if a.is_err() {
                proof {
                    lemma_elseifs_none(fns, res, scope0, arms@, i + 1, in_loop);
                }
                return a;
            }
            let a = self.analyze_block(&arm.then_block, in_loop);
            if a.is_err() {
                proof {
                    lemma_elseifs_none(fns, res, scope0, arms@, i + 1, in_loop);
                }
                return a;
            }
            i = i + 1;
        }
        proof {
            assert(arms@.subrange(0, i as int) =~= arms@);
        }
        Ok(())
    }

    fn analyze_block(&mut self, block: &Block, in_loop: bool) -> (r: Result<(), CompileError>)
        ensures
            final(self).fns == old(self).fns,
            final(self).has_result == old(self).has_result,
            match block_scope(
                old(self).fns@,
                old(self).has_result,
                names_of(old(self).scope@),
                block@,
                in_loop,
            ) {
                Some(sc) => r is Ok && names_of(final(self).scope@) == sc,
                None => r is Err,
            },
            first_is_jump(block@) && !in_loop ==> (r matches Err(e) && e.kind
                == ErrorKind::OutsideLoop),
        decreases block,
    {
        let ghost fns = self.fns@;
        let ghost res = self.has_result;
        let ghost scope0 = names_of(self.scope@);
        let mut i: usize = 0;
        while i < block.len()
            invariant
                i > 0 ==> !(first_is_jump(block@) && !in_loop),
                self.fns@ == fns,
                self.fns == old(self).fns,
                self.has_result == res,
                res == old(self).has_result,
                scope0 == names_of(old(self).scope@),
                i <= block@.len(),
                block_scope(fns, res, scope0, block@.subrange(0, i as int), in_loop) == Some(
                    names_of(self.scope@),
                ),
            decreases block@.len() - i,
        {
            proof {
                assert(block@.subrange(0, i + 1).drop_last() =~= block@.subrange(0, i as int));
                assert(decreases_to!(block => block@[i as int]));
            }
            let a = self.analyze_stmt(&block[i], in_loop);
            if a.is_err() {
                proof {
                    lemma_block_none(fns, res, scope0, block@, i + 1, in_loop);
                }
                return a;
            }
            i = i + 1;
        }
        proof {
            assert(block@.subrange(0, i as int) =~= block@);
        }
        Ok(())
    }
    /// Checks the whole program and returns the scope of each function, in declaration
    /// order: function names are unique, and each function passes `fn_ok`.
    pub fn analyze(ast: &'a Ast) -> (r: Result<Vec<LocalScope>, CompileError>)
        ensures
            r is Ok <==> program_ok(*ast),
            !unique(fn_names(ast.fn_decls@)) ==> (r matches Err(e) && e.kind is FnRedeclared),
            first_fn_jumps_out(ast.fn_decls@) ==> (r matches Err(e) && e.kind
                == ErrorKind::OutsideLoop),
            first_fn_misses_value(ast.fn_decls@) ==> (r matches Err(e) && e.kind
                == ErrorKind::ReturnValueMissed),
            r matches Ok(v) ==> {
                &&& v@.len() == ast.fn_decls@.len()
                &&& forall|i: int|
                    0 <= i < v@.len() ==> {
                        &&& (#[trigger] v@[i]).has_result == ast.fn_decls@[i].has_result
                        &&& fn_scope(ast.fn_decls@, ast.fn_decls@[i]) == Some(v@[i]@)
                    }
            },
    {
        let fns = &ast.fn_decls;
        assert(fns@ == ast.fn_decls@);
        let mut i: usize = 0;
        while i < fns.len()
            invariant
                fns@ == ast.fn_decls@,
                i <= fns@.len(),
                unique(fn_names(fns@.subrange(0, i as int))),
            decreases fns@.len() - i,
        {
            let mut j: usize = 0;
            while j < i
                invariant
                    fns@ == ast.fn_decls@,
                    i < fns@.len(),
                    j <= i,
                    forall|q: int| 0 <= q < j ==> fns@[q].name@ != fns@[i as int].name@,
                decreases i - j,
            {
                if bytes_eq(&fns[j].name, &fns[i].name) {
                    proof {
                        assert(fn_names(fns@)[j as int] == fn_names(fns@)[i as int]);
                        assert(!unique(fn_names(fns@)));
                        assert(!program_ok(*ast));
                    }
                    return Err(
                        Self::error(fns[i].loc, ErrorKind::FnRedeclared(copy_bytes(&fns[i].name))),
                    );
                }
                j = j + 1;
            }
            proof {
                let s0 = fn_names(fns@.subrange(0, i as int));
                let s1 = fn_names(fns@.subrange(0, i + 1));
                assert forall|a: int, b: int| 0 <= a < b < s1.len() implies s1[a] != s1[b] by {
                    if b < i {
                        assert(s0[a] == s1[a] && s0[b] == s1[b]);
                    }
                }
            }
            i = i + 1;
        }
        proof {
            assert(fns@.subrange(0, i as int) =~= fns@);
        }
        let mut scopes: Vec<LocalScope> = Vec::new();
        let mut i: usize = 0;
        while i < fns.len()
            invariant
                fns@ == ast.fn_decls@,
                i <= fns@.len(),
                unique(fn_names(fns@)),
                scopes@.len() == i,
                i > 0 ==> !first_fn_jumps_out(fns@),
                i > 0 ==> !first_fn_misses_value(fns@),
                forall|k: int| 0 <= k < i ==> fn_ok(fns@, #[trigger] fns@[k]),
                forall|k: int|
                    0 <= k < i ==> {
                        &&& (#[trigger] scopes@[k]).has_result == fns@[k].has_result
                        &&& fn_scope(fns@, fns@[k]) == Some(scopes@[k]@)
                    },
            decreases fns@.len() - i,
        {
            let f = &fns[i];
            let mut a = Analyzer { fns, has_result: f.has_result, scope: Vec::new() };
            let mut k: usize = 0;
            while k < f.params.len()
                invariant
                    fns@ == ast.fn_decls@,
                    i < fns@.len(),
                    unique(fn_names(fns@)),
                    i > 0 ==> !first_fn_jumps_out(fns@),
                    i > 0 ==> !first_fn_misses_value(fns@),
                    f == fns@[i as int],
                    a.fns == fns,
                    a.has_result == f.has_result,
                    k <= f.params@.len(),
                    names_of(a.scope@) == names_of(f.params@.subrange(0, k as int)),
                    unique(names_of(a.scope@)),
                decreases f.params@.len() - k,
            {
                let ghost before = names_of(a.scope@);
                let d = a.declare(&f.params[k], f.loc);
                if d.is_err() {
                    proof {
                        let q = choose|q: int| 0 <= q < before.len() && before[q] == f.params@[k as int]@;
                        assert(names_of(f.params@)[q] == names_of(f.params@)[k as int]);
                        assert(!unique(names_of(f.params@)));
                        assert(!fn_ok(fns@, fns@[i as int]));
                        assert(!program_ok(*ast));
                    }
                    return Err(d.unwrap_err());
                }
                proof {
                    assert(names_of(f.params@.subrange(0, k + 1)) =~= before.push(f.params@[k as int]@));
                }
                k = k + 1;
            }
            proof {
                assert(f.params@.subrange(0, k as int) =~= f.params@);
            }
            if f.has_result {
                let n = f.body.len();
                let ends_in_value = n > 0 && match &f.body[n - 1].kind {
                    StmtKind::ReturnVal(_) => true,
                    _ => false,
                };
                if !ends_in_value {
                    proof {
                        assert(!returns_value(fns@[i as int]));
                        assert(!fn_ok(fns@, fns@[i as int]));
                        assert(!program_ok(*ast));
                    }
                    return Err(Self::error(f.loc, ErrorKind::ReturnValueMissed));
                }
            }
            let b = a.analyze_block(&f.body, false);
            if b.is_err() {
                proof {
                    assert(fn_scope(fns@, fns@[i as int]) is None);
                    assert(!fn_ok(fns@, fns@[i as int]));
                    assert(!program_ok(*ast));
                }
                return Err(b.unwrap_err());
            }
            scopes.push(LocalScope { has_result: f.has_result, names: a.scope });
            i = i + 1;
        }
        Ok(scopes)
    }
}

/// A prefix of `b`, and `b` itself, in the sense of scopes that only grow.
pub open spec fn extends_scope(b: Seq<Seq<u8>>, a: Seq<Seq<u8>>) -> bool {
    a.len() <= b.len() && b.subrange(0, a.len() as int) == a
}

pub proof fn lemma_extends_scope_trans(a: Seq<Seq<u8>>, b: Seq<Seq<u8>>, c: Seq<Seq<u8>>)
    requires
        extends_scope(b, a),
        extends_scope(c, b),
    ensures
        extends_scope(c, a),
{
    assert(c.subrange(0, a.len() as int) =~= b.subrange(0, a.len() as int));
}

/// A statement only adds names to the scope.
pub proof fn lemma_stmt_scope_grows(
    fns: Seq<FnDecl>,
    r: bool,
    scope: Seq<Seq<u8>>,
    s: Stmt,
    in_loop: bool,
)
    ensures
        stmt_scope(fns, r, scope, s, in_loop) matches Some(sc) ==> extends_scope(sc, scope),
    decreases s,
{
    assert(scope.subrange(0, scope.len() as int) =~= scope);
    match s.kind {
        StmtKind::VarDecl(n) => {
            assert(scope.push(n@).subrange(0, scope.len() as int) =~= scope);
        },
        StmtKind::VarDeclAssign { name, .. } => {
            assert(scope.push(name@).subrange(0, scope.len() as int) =~= scope);
        },
        StmtKind::If { cond, then_block, elseifs, elze } => {
            lemma_block_scope_grows(fns, r, scope, then_block@, in_loop);
            if let Some(s1) = block_scope(fns, r, scope, then_block@, in_loop) {
                lemma_elseifs_scope_grows(fns, r, s1, elseifs@, in_loop);
                if let Some(s2) = elseifs_scope(fns, r, s1, elseifs@, in_loop) {
                    lemma_extends_scope_trans(scope, s1, s2);
                    lemma_block_scope_grows(fns, r, s2, elze@, in_loop);
                    if let Some(s3) = block_scope(fns, r, s2, elze@, in_loop) {
                        lemma_extends_scope_trans(scope, s2, s3);
                    }
                }
            }
        },
        StmtKind::For { init, cond, post, body } => {
            let s1 = match init {
                Some(b) => {
                    lemma_stmt_scope_grows(fns, r, scope, *b, in_loop);
                    stmt_scope(fns, r, scope, *b, in_loop)
                },
                None => Some(scope),
            };
            if let Some(s1) = s1 {
                assert(s1.subrange(0, s1.len() as int) =~= s1);
                let s2 = match post {
                    Some(b) => {
                        lemma_stmt_scope_grows(fns, r, s1, *b, in_loop);
                        stmt_scope(fns, r, s1, *b, in_loop)
                    },
                    None => Some(s1),
                };
                if let Some(s2) = s2 {
                    lemma_extends_scope_trans(scope, s1, s2);
                    lemma_block_scope_grows(fns, r, s2, body@, true);
                    if let Some(s3) = block_scope(fns, r, s2, body@, true) {
                        lemma_extends_scope_trans(scope, s2, s3);
                    }
                }
            }
        },
        _ => {},
    }
}

pub proof fn lemma_block_scope_grows(
    fns: Seq<FnDecl>,
    r: bool,
    scope: Seq<Seq<u8>>,
    b: Seq<Stmt>,
    in_loop: bool,
)
    ensures
        block_scope(fns, r, scope, b, in_loop) matches Some(sc) ==> extends_scope(sc, scope),
    decreases b,
{
    assert(scope.subrange(0, scope.len() as int) =~= scope);
    if b.len() > 0 {
        lemma_block_scope_grows(fns, r, scope, b.drop_last(), in_loop);
        if let Some(s1) = block_scope(fns, r, scope, b.drop_last(), in_loop) {
            lemma_stmt_scope_grows(fns, r, s1, b.last(), in_loop);
            if let Some(s2) = stmt_scope(fns, r, s1, b.last(), in_loop) {
                lemma_extends_scope_trans(scope, s1, s2);
            }
        }
    }
}

pub proof fn lemma_elseifs_scope_grows(
    fns: Seq<FnDecl>,
    r: bool,
    scope: Seq<Seq<u8>>,
    arms: Seq<ElseIf>,
    in_loop: bool,
)
    ensures
        elseifs_scope(fns, r, scope, arms, in_loop) matches Some(sc) ==> extends_scope(sc, scope),
    decreases arms,
{
    assert(scope.subrange(0, scope.len() as int) =~= scope);
    if arms.len() > 0 {
        lemma_elseifs_scope_grows(fns, r, scope, arms.drop_last(), in_loop);
        if let Some(s1) = elseifs_scope(fns, r, scope, arms.drop_last(), in_loop) {
            lemma_block_scope_grows(fns, r, s1, arms.last().then_block@, in_loop);
            if let Some(s2) = block_scope(fns, r, s1, arms.last().then_block@, in_loop) {
                lemma_extends_scope_trans(scope, s1, s2);
            }
        }
    }
}

/// The slots of a legal function: its parameters come first, in order, the `i`-th at
/// slot `i + R` (R is 1 where the function has a result); every local declared in its
/// body follows them, at increasing slots in the order of the declarations.
pub proof fn law_slot_order(fns: Seq<FnDecl>, f: FnDecl)
    requires
        fn_ok(fns, f),
    ensures
        fn_scope(fns, f)->Some_0.len() >= f.params@.len(),
        fn_scope(fns, f)->Some_0.subrange(0, f.params@.len() as int) == names_of(f.params@),
        fn_scope(fns, f)->Some_0 == names_of(f.params@) + block_decls(f.body@),
{
    lemma_block_scope_grows(fns, f.has_result, names_of(f.params@), f.body@, false);
    lemma_block_scope_decls(fns, f.has_result, names_of(f.params@), f.body@, false);
}

/// No program with two functions of the same name passes analysis, whichever comes first.
pub proof fn law_duplicate_fn_rejected(ast: Ast, i: int, j: int)
    requires
        0 <= i < ast.fn_decls@.len(),
        0 <= j < ast.fn_decls@.len(),
        i != j,
        ast.fn_decls@[i].name@ == ast.fn_decls@[j].name@,
    ensures
        !program_ok(ast),
{
    let names = fn_names(ast.fn_decls@);
    if i < j {
        assert(names[i] == names[j]);
    } else {
        assert(names[j] == names[i]);
    }
}

/// A function with a result whose body does not end in `return value;` fails analysis.
pub proof fn law_missing_return_value_rejected(ast: Ast, i: int)
    requires
        0 <= i < ast.fn_decls@.len(),
        ast.fn_decls@[i].has_result,
        ast.fn_decls@[i].body@.len() == 0 || !(ast.fn_decls@[i].body@.last().kind is ReturnVal),
    ensures
        !program_ok(ast),
{
    assert(!fn_ok(ast.fn_decls@, ast.fn_decls@[i]));
}

/// `break` or `continue` outside of any loop is illegal wherever it stands in a block.
pub proof fn law_jump_outside_loop_rejected(
    fns: Seq<FnDecl>,
    r: bool,
    scope: Seq<Seq<u8>>,
    b: Seq<Stmt>,
    k: int,
)
    requires
        0 <= k < b.len(),
        b[k].kind is Break || b[k].kind is Continue,
    ensures
        block_scope(fns, r, scope, b, false) is None,
{
    assert(b.subrange(0, k + 1).drop_last() =~= b.subrange(0, k));
    assert(b.subrange(0, k + 1).last() == b[k]);
    let pre = b.subrange(0, k + 1);
    if let Some(s1) = block_scope(fns, r, scope, pre.drop_last(), false) {
        assert(stmt_scope(fns, r, s1, b[k], false) is None);
    }
    assert(block_scope(fns, r, scope, pre, false) is None);
    lemma_block_none(fns, r, scope, b, k + 1, false);
}

/// A function whose body holds `break` or `continue` outside of any loop fails analysis.
pub proof fn law_fn_jump_outside_loop_rejected(ast: Ast, i: int, k: int)
    requires
        0 <= i < ast.fn_decls@.len(),
        0 <= k < ast.fn_decls@[i].body@.len(),
        ast.fn_decls@[i].body@[k].kind is Break || ast.fn_decls@[i].body@[k].kind is Continue,
    ensures
        !program_ok(ast),
{
    let f = ast.fn_decls@[i];
    law_jump_outside_loop_rejected(ast.fn_decls@, f.has_result, names_of(f.params@), f.body@, k);
    assert(!fn_ok(ast.fn_decls@, ast.fn_decls@[i]));
}

/// A name in a scope is in every scope that extends it.
pub proof fn lemma_extends_contains(full: Seq<Seq<u8>>, pre: Seq<Seq<u8>>, x: Seq<u8>)
    requires
        extends_scope(full, pre),
        pre.contains(x),
    ensures
        full.contains(x),
{
    let i = choose|i: int| 0 <= i < pre.len() && pre[i] == x;
    assert(full.subrange(0, pre.len() as int)[i] == full[i]);
}

/// The scope after a whole block extends the scope after each of its prefixes.
pub proof fn lemma_block_prefix(
    fns: Seq<FnDecl>,
    r: bool,
    scope: Seq<Seq<u8>>,
    b: Seq<Stmt>,
    j: int,
    in_loop: bool,
)
    requires
        0 <= j <= b.len(),
        block_scope(fns, r, scope, b, in_loop) is Some,
    ensures
        block_scope(fns, r, scope, b.subrange(0, j), in_loop) is Some,
        extends_scope(
            block_scope(fns, r, scope, b, in_loop)->Some_0,
            block_scope(fns, r, scope, b.subrange(0, j), in_loop)->Some_0,
        ),
    decreases b.len() - j,
{
    if j == b.len() {
        assert(b.subrange(0, j) =~= b);
        let s = block_scope(fns, r, scope, b, in_loop)->Some_0;
        assert(s.subrange(0, s.len() as int) =~= s);
    } else {
        lemma_block_prefix(fns, r, scope, b, j + 1, in_loop);
        let pre = b.subrange(0, j + 1);
        assert(pre.drop_last() =~= b.subrange(0, j));
        let sj = block_scope(fns, r, scope, b.subrange(0, j), in_loop);
        if let Some(x) = sj {
            lemma_stmt_scope_grows(fns, r, x, pre.last(), in_loop);
            lemma_extends_scope_trans(
                x,
                block_scope(fns, r, scope, pre, in_loop)->Some_0,
                block_scope(fns, r, scope, b, in_loop)->Some_0,
            );
        }
    }
}

/// The scope after all `else if` arms extends the scope after each prefix of them.
pub proof fn lemma_elseifs_prefix(
    fns: Seq<FnDecl>,
    r: bool,
    scope: Seq<Seq<u8>>,
    arms: Seq<ElseIf>,
    j: int,
    in_loop: bool,
)
    requires
        0 <= j <= arms.len(),
        elseifs_scope(fns, r, scope, arms, in_loop) is Some,
    ensures
        elseifs_scope(fns, r, scope, arms.subrange(0, j), in_loop) is Some,
        extends_scope(
            elseifs_scope(fns, r, scope, arms, in_loop)->Some_0,
            elseifs_scope(fns, r, scope, arms.subrange(0, j), in_loop)->Some_0,
        ),
    decreases arms.len() - j,
{
    if j == arms.len() {
        assert(arms.subrange(0, j) =~= arms);
        let s = elseifs_scope(fns, r, scope, arms, in_loop)->Some_0;
        assert(s.subrange(0, s.len() as int) =~= s);
    } else {
        lemma_elseifs_prefix(fns, r, scope, arms, j + 1, in_loop);
        let pre = arms.subrange(0, j + 1);
        assert(pre.drop_last() =~= arms.subrange(0, j));
        let sj = elseifs_scope(fns, r, scope, arms.subrange(0, j), in_loop);
        if let Some(x) = sj {
            lemma_block_scope_grows(fns, r, x, pre.last().then_block@, in_loop);
            lemma_extends_scope_trans(
                x,
                elseifs_scope(fns, r, scope, pre, in_loop)->Some_0,
                elseifs_scope(fns, r, scope, arms, in_loop)->Some_0,
            );
        }
    }
}

/// The names that a statement declares, in the order of analysis.
pub open spec fn stmt_decls(s: Stmt) -> Seq<Seq<u8>>
    decreases s,
{
    match s.kind {
        StmtKind::VarDecl(n) => seq![n@],
        StmtKind::VarDeclAssign { name, .. } => seq![name@],
        StmtKind::If { then_block, elseifs, elze, .. } => block_decls(then_block@) + elseifs_decls(
            elseifs@,
        ) + block_decls(elze@),
        StmtKind::For { init, post, body, .. } => {
            let a = match init {
                Some(b) => stmt_decls(*b),
                None => Seq::empty(),
            };
            let c = match post {
                Some(b) => stmt_decls(*b),
                None => Seq::empty(),
            };
            a + c + block_decls(body@)
        },
        _ => Seq::empty(),
    }
}

pub open spec fn block_decls(b: Seq<Stmt>) -> Seq<Seq<u8>>
    decreases b,
{
    if b.len() == 0 {
        Seq::empty()
    } else {
        block_decls(b.drop_last()) + stmt_decls(b.last())
    }
}

pub open spec fn elseifs_decls(arms: Seq<ElseIf>) -> Seq<Seq<u8>>
    decreases arms,
{
    if arms.len() == 0 {
        Seq::empty()
    } else {
        elseifs_decls(arms.drop_last()) + block_decls(arms.last().then_block@)
    }
}

/// A legal statement appends exactly the names it declares to the scope.
pub proof fn lemma_stmt_scope_decls(
    fns: Seq<FnDecl>,
    r: bool,
    scope: Seq<Seq<u8>>,
    s: Stmt,
    in_loop: bool,
)
    ensures
        stmt_scope(fns, r, scope, s, in_loop) matches Some(sc) ==> sc == scope + stmt_decls(s),
    decreases s,
{
    match s.kind {
        StmtKind::VarDecl(n) => {
            assert(scope.push(n@) =~= scope + seq![n@]);
        },
        StmtKind::VarDeclAssign { name, .. } => {
            assert(scope.push(name@) =~= scope + seq![name@]);
        },
        StmtKind::If { cond, then_block, elseifs, elze } => {
            lemma_block_scope_decls(fns, r, scope, then_block@, in_loop);
            if let Some(s1) = block_scope(fns, r, scope, then_block@, in_loop) {
                lemma_elseifs_scope_decls(fns, r, s1, elseifs@, in_loop);
                if let Some(s2) = elseifs_scope(fns, r, s1, elseifs@, in_loop) {
                    lemma_block_scope_decls(fns, r, s2, elze@, in_loop);
                    assert(scope + block_decls(then_block@) + elseifs_decls(elseifs@) + block_decls(
                        elze@,
                    ) =~= scope + stmt_decls(s));
                }
            }
        },
        StmtKind::For { init, cond, post, body } => {
            let s1 = match init {
                Some(b) => {
                    lemma_stmt_scope_decls(fns, r, scope, *b, in_loop);
                    stmt_scope(fns, r, scope, *b, in_loop)
                },
                None => {
                    assert(scope + Seq::<Seq<u8>>::empty() =~= scope);
                    Some(scope)
                },
            };
            if let Some(s1) = s1 {
                let s2 = match post {
                    Some(b) => {
                        lemma_stmt_scope_decls(fns, r, s1, *b, in_loop);
                        stmt_scope(fns, r, s1, *b, in_loop)
                    },
                    None => {
                        assert(s1 + Seq::<Seq<u8>>::empty() =~= s1);
                        Some(s1)
                    },
                };
                if let Some(s2) = s2 {
                    lemma_block_scope_decls(fns, r, s2, body@, true);
                    let a = match init {
                        Some(b) => stmt_decls(*b),
                        None => Seq::empty(),
                    };
                    let c = match post {
                        Some(b) => stmt_decls(*b),
                        None => Seq::empty(),
                    };
                    assert(scope + a + c + block_decls(body@) =~= scope + (a + c + block_decls(body@)));
                }
            }
        },
        _ => {
            assert(scope + Seq::<Seq<u8>>::empty() =~= scope);
        },
    }
}

pub proof fn lemma_block_scope_decls(
    fns: Seq<FnDecl>,
    r: bool,
    scope: Seq<Seq<u8>>,
    b: Seq<Stmt>,
    in_loop: bool,
)
    ensures
        block_scope(fns, r, scope, b, in_loop) matches Some(sc) ==> sc == scope + block_decls(b),
    decreases b,
{
    if b.len() == 0 {
        assert(scope + Seq::<Seq<u8>>::empty() =~= scope);
    } else {
        lemma_block_scope_decls(fns, r, scope, b.drop_last(), in_loop);
        if let Some(s1) = block_scope(fns, r, scope, b.drop_last(), in_loop) {
            lemma_stmt_scope_decls(fns, r, s1, b.last(), in_loop);
            assert(scope + block_decls(b.drop_last()) + stmt_decls(b.last()) =~= scope + block_decls(b));
        }
    }
}

pub proof fn lemma_elseifs_scope_decls(
    fns: Seq<FnDecl>,
    r: bool,
    scope: Seq<Seq<u8>>,
    arms: Seq<ElseIf>,
    in_loop: bool,
)
    ensures
        elseifs_scope(fns, r, scope, arms, in_loop) matches Some(sc) ==> sc == scope + elseifs_decls(arms),
    decreases arms,
{
    if arms.len() == 0 {
        assert(scope + Seq::<Seq<u8>>::empty() =~= scope);
    } else {
        lemma_elseifs_scope_decls(fns, r, scope, arms.drop_last(), in_loop);
        if let Some(s1) = elseifs_scope(fns, r, scope, arms.drop_last(), in_loop) {
            lemma_block_scope_decls(fns, r, s1, arms.last().then_block@, in_loop);
            assert(scope + elseifs_decls(arms.drop_last()) + block_decls(arms.last().then_block@)
                =~= scope + elseifs_decls(arms));
        }
    }
}

/// A `break` or `continue` that no loop encloses: the statement itself, or one within the
/// blocks of a conditional.
pub open spec fn stray_jump(s: Stmt) -> bool
    decreases s,
{
    match s.kind {
        StmtKind::Break | StmtKind::Continue => true,
        StmtKind::If { then_block, elseifs, elze, .. } => block_stray(then_block@) || arms_stray(
            elseifs@,
        ) || block_stray(elze@),
        _ => false,
    }
}

pub open spec fn block_stray(b: Seq<Stmt>) -> bool
    decreases b,
{
    b.len() > 0 && (block_stray(b.drop_last()) || stray_jump(b.last()))
}

pub open spec fn arms_stray(a: Seq<ElseIf>) -> bool
    decreases a,
{
    a.len() > 0 && (arms_stray(a.drop_last()) || block_stray(a.last().then_block@))
}

/// `break` or `continue` outside of any loop is illegal, however deep in conditionals it
/// stands.
pub proof fn law_stray_jump_rejected(
    fns: Seq<FnDecl>,
    r: bool,
    scope: Seq<Seq<u8>>,
    s: Stmt,
)
    requires
        stray_jump(s),
    ensures
        stmt_scope(fns, r, scope, s, false) is None,
    decreases s,
{
    if let StmtKind::If { cond, then_block, elseifs, elze } = s.kind {
        if block_stray(then_block@) {
            law_block_stray_rejected(fns, r, scope, then_block@);
        } else if let Some(s1) = block_scope(fns, r, scope, then_block@, false) {
            if arms_stray(elseifs@) {
                law_arms_stray_rejected(fns, r, s1, elseifs@);
            } else if let Some(s2) = elseifs_scope(fns, r, s1, elseifs@, false) {
                law_block_stray_rejected(fns, r, s2, elze@);
            }
        }
    }
}

/// A block that holds a stray `break` or `continue` is illegal outside of any loop.
pub proof fn law_block_stray_rejected(fns: Seq<FnDecl>, r: bool, scope: Seq<Seq<u8>>, b: Seq<Stmt>)
    requires
        block_stray(b),
    ensures
        block_scope(fns, r, scope, b, false) is None,
    decreases b,
{
    if block_stray(b.drop_last()) {
        law_block_stray_rejected(fns, r, scope, b.drop_last());
    } else if let Some(s1) = block_scope(fns, r, scope, b.drop_last(), false) {
        law_stray_jump_rejected(fns, r, s1, b.last());
    }
}

pub proof fn law_arms_stray_rejected(fns: Seq<FnDecl>, r: bool, scope: Seq<Seq<u8>>, a: Seq<ElseIf>)
    requires
        arms_stray(a),
    ensures
        elseifs_scope(fns, r, scope, a, false) is None,
    decreases a,
{
    if arms_stray(a.drop_last()) {
        law_arms_stray_rejected(fns, r, scope, a.drop_last());
    } else if let Some(s1) = elseifs_scope(fns, r, scope, a.drop_last(), false) {
        if expr_ok(fns, s1, a.last().cond) {
            law_block_stray_rejected(fns, r, s1, a.last().then_block@);
        }
    }
}

/// A program with a function whose body holds a stray `break` or `continue` fails
/// analysis.
pub proof fn law_program_stray_rejected(ast: Ast, i: int)
    requires
        0 <= i < ast.fn_decls@.len(),
        block_stray(ast.fn_decls@[i].body@),
    ensures
        !program_ok(ast),
{
    let f = ast.fn_decls@[i];
    law_block_stray_rejected(ast.fn_decls@, f.has_result, names_of(f.params@), f.body@);
    assert(!fn_ok(ast.fn_decls@, ast.fn_decls@[i]));
}

} // verus!
