//! Code generation: the syntax tree and the scopes of semantic analysis to a flat list
//! of instructions whose call and jump targets are resolved to addresses.
use vstd::prelude::*;

use crate::error::{CompileError, ErrorKind};
use crate::lexer::{BinOpKind, Loc};
use crate::parser::{
    Ast,
    Block,
    ElseIf,
    Expr,
    FnDecl,
    Stmt,
    StmtKind,
    is_cmd,
    is_log,
    word_cmd,
    word_log,
};
use crate::semantic::{
    call_ok,
    LocalScope,
    args_ok,
    block_scope,
    elseifs_scope,
    expr_ok,
    extends_scope,
    find_fn,
    find_fn_index,
    last_index,
    names_of,
    fn_scope,
    lemma_block_prefix,
    lemma_block_scope_grows,
    lemma_elseifs_prefix,
    lemma_elseifs_scope_grows,
    lemma_extends_contains,
    lemma_extends_scope_trans,
    lemma_stmt_scope_grows,
    stmt_scope,
};

verus! {

/// The address that the virtual machine reads as "halt".
pub const HALT: usize = 1000;

/// A register of the virtual machine.
#[derive(Clone, Copy, Debug, PartialEq, Eq, Structural)]
pub enum Reg {
    Sp,
    Sp2,
    Ip,
}

/// Where a call or a jump goes: a function not yet placed, a jump label not yet placed,
/// or an address.
#[derive(Clone, Copy, Debug, PartialEq, Eq, Structural)]
pub enum Target {
    Fn(usize),
    Label(usize),
    Addr(usize),
}

#[derive(Clone, Debug, PartialEq, Eq)]
pub enum Inst {
    /// Pops two values and pushes the result of the operator.
    Op(BinOpKind),
    Const(i32),
    GetLocal(usize),
    SetLocal(usize),
    GetReg(Reg),
    SetReg(Reg),
    Call(Target),
    JmpIf(Target),
    /// An unconditional jump: `ip` is set to the target.
    Jmp(Target),
    Log(usize),
    /// `sp += n`
    SpAdd(usize),
    /// `sp -= n`
    SpSub(usize),
    /// `sp2 -= n`
    Sp2Sub(usize),
    /// `sp2 = sp`
    Sp2FromSp,
    /// A command passed through verbatim.
    Raw(Vec<u8>),
}

pub open spec fn inst_target(i: Inst) -> Option<Target> {
    match i {
        Inst::Call(t) | Inst::JmpIf(t) | Inst::Jmp(t) => Some(t),
        _ => None,
    }
}

/// A target that resolution can place: a known function, an allocated label, or halt.
pub open spec fn target_in(t: Target, nfns: int, nlabels: int) -> bool {
    match t {
        Target::Fn(k) => k < nfns,
        Target::Label(l) => l < nlabels,
        Target::Addr(a) => a == HALT,
    }
}

/// Every call or jump of `insts` goes to an address within them past the two header
/// instructions, or to halt.
pub open spec fn targets_resolved(insts: Seq<Inst>) -> bool {
    forall|i: int|
        0 <= i < insts.len() ==> match #[trigger] inst_target(insts[i]) {
            Some(Target::Addr(a)) => a < insts.len() || a == HALT,
            Some(_) => false,
            None => true,
        }
}

/// The instructions that open the frame of a function.
pub open spec fn prologue(nparams: nat, has_result: bool, nslots: nat) -> Seq<Inst> {
    let r: nat = if has_result {
        1
    } else {
        0
    };
    seq![
        Inst::GetReg(Reg::Sp2),
        Inst::Sp2FromSp,
        Inst::Sp2Sub((nparams + r + 2) as usize),
        Inst::SpAdd((nslots - nparams) as usize),
    ]
}

/// The instructions that close the frame of a function and return to its caller.
pub open spec fn epilogue(nparams: nat, nslots: nat) -> Seq<Inst> {
    seq![
        Inst::SpSub((nslots - nparams) as usize),
        Inst::SetReg(Reg::Sp2),
        Inst::SetReg(Reg::Ip),
    ]
}

/// The number of slots of a scope: the return slot, if any, parameters and locals.
pub open spec fn slot_count(s: LocalScope) -> nat {
    s.names@.len() + if s.has_result {
        1nat
    } else {
        0
    }
}

/// The slot of variable `name` in scope `sc`.
pub open spec fn slot_spec(sc: LocalScope, name: Seq<u8>) -> usize {
    sc.slot_at(last_index(sc@, name)) as usize
}

/// The code of an expression: it pushes the expression's value.
pub open spec fn expr_code(fns: Seq<FnDecl>, sc: LocalScope, e: Expr) -> Seq<Inst>
    decreases e,
{
    match e {
        Expr::Num(n) => seq![Inst::Const(n)],
        Expr::Var(v) => seq![Inst::GetLocal(slot_spec(sc, v@))],
        Expr::BinOp { lhs, rhs, op } => expr_code(fns, sc, *lhs) + expr_code(fns, sc, *rhs) + seq![
            Inst::Op(op),
        ],
        Expr::FnCall { name, args } => seq![Inst::SpAdd(1)] + args_code(fns, sc, args@) + seq![
            Inst::Call(Target::Fn(find_fn(fns, name@) as usize)),
            Inst::SpSub(args@.len() as usize),
        ],
    }
}

/// The code of each argument, left to right.
pub open spec fn args_code(fns: Seq<FnDecl>, sc: LocalScope, args: Seq<Expr>) -> Seq<Inst>
    decreases args,
{
    if args.len() == 0 {
        Seq::empty()
    } else {
        args_code(fns, sc, args.drop_last()) + expr_code(fns, sc, args.last())
    }
}

/// Instructions that are equal, or raw commands with the same text.
pub open spec fn inst_like(a: Inst, b: Inst) -> bool {
    match (a, b) {
        (Inst::Raw(x), Inst::Raw(y)) => x@ == y@,
        _ => a == b,
    }
}

/// `insts` holds `code` from position `start` on.
pub open spec fn code_at(insts: Seq<Inst>, start: int, code: Seq<Inst>) -> bool {
    &&& 0 <= start
    &&& start + code.len() <= insts.len()
    &&& forall|j: int| 0 <= j < code.len() ==> inst_like(insts[start + j], #[trigger] code[j])
}

/// Code, and the jump labels after it: each allocated label, and where each is placed.
pub struct Gen {
    pub code: Seq<Inst>,
    pub labels: Seq<Option<usize>>,
}

pub open spec fn place(labels: Seq<Option<usize>>, l: int, ip: int) -> Seq<Option<usize>> {
    labels.update(l, Some(ip as usize))
}

/// The code of a statement that starts at address `ip`, with the labels `labels`
/// allocated so far, in a function whose return label is `ret`, inside loop `lup`.
pub open spec fn gen_stmt(
    fns: Seq<FnDecl>,
    sc: LocalScope,
    s: Stmt,
    ret: usize,
    lup: Option<Loop>,
    ip: int,
    labels: Seq<Option<usize>>,
) -> Gen
    decreases s, 0nat,
{
    match s.kind {
        StmtKind::VarDecl(_) => Gen { code: Seq::empty(), labels },
        StmtKind::VarDeclAssign { name, expr } => Gen {
            code: expr_code(fns, sc, expr).push(Inst::SetLocal(slot_spec(sc, name@))),
            labels,
        },
        StmtKind::VarAssign { name, expr } => Gen {
            code: expr_code(fns, sc, expr).push(Inst::SetLocal(slot_spec(sc, name@))),
            labels,
        },
        StmtKind::FnCall { name, args } => Gen {
            code: seq![Inst::SpAdd(1)] + args_code(fns, sc, args@) + seq![
                Inst::Call(Target::Fn(find_fn(fns, name@) as usize)),
                Inst::SpSub((args@.len() + 1) as usize),
            ],
            labels,
        },
        StmtKind::BuiltinFnCall { name, arg } => Gen {
            code: if name@ == word_log() {
                seq![Inst::Log(slot_spec(sc, arg@))]
            } else if name@ == word_cmd() {
                seq![Inst::Raw(arg)]
            } else {
                Seq::empty()
            },
            labels,
        },
        StmtKind::Break => Gen {
            code: match lup {
                Some(l) => seq![Inst::Jmp(Target::Label(l.end))],
                None => Seq::empty(),
            },
            labels,
        },
        StmtKind::Continue => Gen {
            code: match lup {
                Some(l) => seq![Inst::Jmp(Target::Label(l.start))],
                None => Seq::empty(),
            },
            labels,
        },
        StmtKind::Return => Gen { code: seq![Inst::Jmp(Target::Label(ret))], labels },
        StmtKind::ReturnVal(e) => Gen {
            code: expr_code(fns, sc, e) + seq![Inst::SetLocal(0), Inst::Jmp(Target::Label(ret))],
            labels,
        },
        StmtKind::If { cond, then_block, elseifs, elze } => {
            let end = labels.len() as usize;
            let b1 = gen_branch(fns, sc, cond, then_block@, ret, lup, end, ip, labels.push(None));
            let a = gen_arms(fns, sc, elseifs@, ret, lup, end, ip + b1.0.code.len(), b1.0.labels, b1.1);
            let ip2 = ip + b1.0.code.len() + a.0.code.len();
            let eb = gen_block(fns, sc, elze@, ret, lup, ip2, place(a.0.labels, a.1 as int, ip2));
            Gen {
                code: b1.0.code + a.0.code + eb.code,
                labels: place(eb.labels, end as int, ip2 + eb.code.len()),
            }
        },
        StmtKind::For { init, cond, post, body } => {
            let gi = match init {
                Some(b) => gen_stmt(fns, sc, *b, ret, lup, ip, labels),
                None => Gen { code: Seq::empty(), labels },
            };
            let ip1 = ip + gi.code.len();
            let start = gi.labels.len() as usize;
            let end = (start + 1) as usize;
            let l1 = place(gi.labels.push(None).push(None), start as int, ip1);
            let cc = match cond {
                Some(c) => expr_code(fns, sc, c) + seq![
                    Inst::JmpIf(Target::Label(l1.len() as usize)),
                    Inst::Jmp(Target::Label(end)),
                ],
                None => Seq::empty(),
            };
            let l2 = match cond {
                Some(c) => place(l1.push(None), l1.len() as int, ip1 + cc.len()),
                None => l1,
            };
            let ip2 = ip1 + cc.len();
            let gb = gen_block(fns, sc, body@, ret, Some(Loop { start, end }), ip2, l2);
            let ip3 = ip2 + gb.code.len();
            let gp = match post {
                Some(b) => gen_stmt(fns, sc, *b, ret, lup, ip3, gb.labels),
                None => Gen { code: Seq::empty(), labels: gb.labels },
            };
            let ip4 = ip3 + gp.code.len();
            Gen {
                code: gi.code + cc + gb.code + gp.code + seq![Inst::Jmp(Target::Label(start))],
                labels: place(gp.labels, end as int, ip4 + 1),
            }
        },
    }
}

/// The code of one arm of a conditional at `ip`: the condition, the jumps to its block
/// or past it, and the block followed by a jump to `end`; and the label of what follows.
pub open spec fn gen_branch(
    fns: Seq<FnDecl>,
    sc: LocalScope,
    cond: Expr,
    block: Seq<Stmt>,
    ret: usize,
    lup: Option<Loop>,
    end: usize,
    ip: int,
    labels: Seq<Option<usize>>,
) -> (Gen, usize)
    decreases block, 2nat,
{
    let th = labels.len() as usize;
    let el = (th + 1) as usize;
    let l1 = labels.push(None).push(None);
    let c = expr_code(fns, sc, cond) + seq![
        Inst::JmpIf(Target::Label(th)),
        Inst::Jmp(Target::Label(el)),
    ];
    let gb = gen_block(fns, sc, block, ret, lup, ip + c.len(), place(l1, th as int, ip + c.len()));
    (Gen { code: c + gb.code + seq![Inst::Jmp(Target::Label(end))], labels: gb.labels }, el)
}

/// The code of the `else if` arms of a conditional at `ip`, the first arm starting at
/// label `el0`; and the label of what follows the last.
pub open spec fn gen_arms(
    fns: Seq<FnDecl>,
    sc: LocalScope,
    arms: Seq<ElseIf>,
    ret: usize,
    lup: Option<Loop>,
    end: usize,
    ip: int,
    labels: Seq<Option<usize>>,
    el0: usize,
) -> (Gen, usize)
    decreases arms, 3nat,
{
    if arms.len() == 0 {
        (Gen { code: Seq::empty(), labels }, el0)
    } else {
        let g = gen_arms(fns, sc, arms.drop_last(), ret, lup, end, ip, labels, el0);
        let ipa = ip + g.0.code.len();
        let b = gen_branch(
            fns,
            sc,
            arms.last().cond,
            arms.last().then_block@,
            ret,
            lup,
            end,
            ipa,
            place(g.0.labels, g.1 as int, ipa),
        );
        (Gen { code: g.0.code + b.0.code, labels: b.0.labels }, b.1)
    }
}

/// The code of the statements of a block at `ip`, in order.
pub open spec fn gen_block(
    fns: Seq<FnDecl>,
    sc: LocalScope,
    b: Seq<Stmt>,
    ret: usize,
    lup: Option<Loop>,
    ip: int,
    labels: Seq<Option<usize>>,
) -> Gen
    decreases b, 1nat,
{
    if b.len() == 0 {
        Gen { code: Seq::empty(), labels }
    } else {
        let g = gen_block(fns, sc, b.drop_last(), ret, lup, ip, labels);
        let st = gen_stmt(fns, sc, b.last(), ret, lup, ip + g.code.len(), g.labels);
        Gen { code: g.code + st.code, labels: st.labels }
    }
}

/// The code of a function at address `ip`: prologue, body, epilogue; its return label is
/// the next free one, placed at the epilogue.
pub open spec fn gen_fn(
    fns: Seq<FnDecl>,
    f: FnDecl,
    sc: LocalScope,
    ip: int,
    labels: Seq<Option<usize>>,
) -> Gen {
    let ret = labels.len();
    let gb = gen_block(fns, sc, f.body@, ret as usize, None, ip + 4, labels.push(None));
    Gen {
        code: prologue(f.params@.len(), f.has_result, slot_count(sc)) + gb.code + epilogue(
            f.params@.len(),
            slot_count(sc),
        ),
        labels: place(gb.labels, ret as int, ip + 4 + gb.code.len()),
    }
}

/// The code of the first `n` functions, after the two header instructions, and the
/// address of each function's entry.
pub open spec fn gen_fns(fns: Seq<FnDecl>, scopes: Seq<LocalScope>, n: nat) -> (Gen, Seq<usize>)
    decreases n,
{
    if n == 0 {
        (Gen { code: Seq::empty(), labels: Seq::empty() }, Seq::empty())
    } else {
        let p = gen_fns(fns, scopes, (n - 1) as nat);
        let ip = (2 + p.0.code.len()) as int;
        let gf = gen_fn(fns, fns[n - 1], scopes[n - 1], ip, p.0.labels);
        (Gen { code: p.0.code + gf.code, labels: gf.labels }, p.1.push(ip as usize))
    }
}

/// The code of a program before its targets are resolved: the header, which calls
/// `main` and then halts, and each function in declaration order.
pub open spec fn program_code(fns: Seq<FnDecl>, scopes: Seq<LocalScope>) -> Seq<Inst> {
    seq![
        Inst::Call(Target::Fn(find_fn(fns, word_main()) as usize)),
        Inst::Jmp(Target::Addr(HALT)),
    ] + gen_fns(fns, scopes, fns.len()).0.code
}

/// `insts` is the program's code with every call resolved to its function's entry and
/// every jump to the address where its label was placed.
pub open spec fn compiled_code(insts: Seq<Inst>, fns: Seq<FnDecl>, scopes: Seq<LocalScope>) -> bool {
    let g = gen_fns(fns, scopes, fns.len());
    let pre = program_code(fns, scopes);
    &&& insts.len() == pre.len()
    &&& forall|i: int|
        0 <= i < pre.len() ==> inst_like(insts[i], resolve_inst(#[trigger] pre[i], g.1, g.0.labels))
}

/// A statement that passed analysis from scope `pre` to a scope that `scope` extends.
pub open spec fn stmt_owed(fns: Seq<FnDecl>, scope: LocalScope, pre: Seq<Seq<u8>>, s: Stmt, in_loop: bool) -> bool {
    stmt_scope(fns, scope.has_result, pre, s, in_loop) matches Some(post) && extends_scope(scope@, post)
}

/// A block that passed analysis from scope `pre` to a scope that `scope` extends.
pub open spec fn block_owed(fns: Seq<FnDecl>, scope: LocalScope, pre: Seq<Seq<u8>>, b: Seq<Stmt>, in_loop: bool) -> bool {
    block_scope(fns, scope.has_result, pre, b, in_loop) matches Some(post) && extends_scope(scope@, post)
}

struct Compiler<'a> {
    fns: &'a Vec<FnDecl>,
    insts: Vec<Inst>,
    labels: Vec<Option<usize>>,
    /// No label is placed below this address.
    floor: Ghost<nat>,
}

/// The innermost loop: the labels that `continue` and `break` jump to.
pub struct Loop {
    pub start: usize,
    pub end: usize,
}

impl<'a> Compiler<'a> {
    spec fn wf(&self) -> bool {
        &&& forall|i: int|
            0 <= i < self.insts@.len() ==> match #[trigger] inst_target(self.insts@[i]) {
                Some(t) => target_in(t, self.fns@.len() as int, self.labels@.len() as int),
                None => true,
            }
        &&& forall|l: int|
            0 <= l < self.labels@.len() ==> match #[trigger] self.labels@[l] {
                Some(v) => self.floor@ <= v <= self.insts@.len(),
                None => true,
            }
        &&& self.floor@ <= self.insts@.len()
    }

    /// What a compiling step keeps: the functions, the instructions emitted before it and
    /// the labels allocated before it; each label that it allocates is placed, but for
    /// those in `pending`.
    spec fn tracks(&self, old: &Self, pending: Set<int>) -> bool {
        &&& self.fns == old.fns
        &&& self.floor == old.floor
        &&& self.insts@.len() >= old.insts@.len()
        &&& self.insts@.subrange(0, old.insts@.len() as int) == old.insts@
        &&& self.labels@.len() >= old.labels@.len()
        &&& forall|l: int| 0 <= l < old.labels@.len() ==> self.labels@[l] == old.labels@[l]
        &&& forall|l: int|
            old.labels@.len() <= l < self.labels@.len() ==> (#[trigger] self.labels@[l]) is Some
                || pending.contains(l)
    }

    spec fn extends(&self, old: &Self) -> bool {
        self.tracks(old, Set::empty())
    }

    fn emit(&mut self, i: Inst)
        requires
            old(self).wf(),
            match inst_target(i) {
                Some(t) => target_in(t, old(self).fns@.len() as int, old(self).labels@.len() as int),
                None => true,
            },
        ensures
            final(self).wf(),
            final(self).fns == old(self).fns,
            final(self).floor == old(self).floor,
            final(self).labels == old(self).labels,
            final(self).insts@ == old(self).insts@.push(i),
    {
        self.insts.push(i);
        proof {
            assert forall|l: int| 0 <= l < self.labels@.len() implies match #[trigger] self.labels@[l] {
                Some(v) => self.floor@ <= v <= self.insts@.len(),
                None => true,
            } by {}
            assert forall|k: int| 0 <= k < self.insts@.len() implies match #[trigger] inst_target(self.insts@[k]) {
                Some(t) => target_in(t, self.fns@.len() as int, self.labels@.len() as int),
                None => true,
            } by {
                if k < self.insts@.len() - 1 {
                    assert(self.insts@[k] == old(self).insts@[k]);
                }
            }
        }
    }

    fn new_label(&mut self) -> (r: usize)
        requires
            old(self).wf(),
        ensures
            final(self).wf(),
            final(self).fns == old(self).fns,
            final(self).floor == old(self).floor,
            final(self).insts == old(self).insts,
            final(self).labels@ == old(self).labels@.push(None),
            r == old(self).labels@.len(),
    {
        let r = self.labels.len();
        self.labels.push(None);
        proof {
            assert forall|k: int| 0 <= k < self.insts@.len() implies match #[trigger] inst_target(self.insts@[k]) {
                Some(t) => target_in(t, self.fns@.len() as int, self.labels@.len() as int),
                None => true,
            } by {
                assert(old(self).insts@[k] == self.insts@[k]);
            }
            assert forall|l: int| 0 <= l < self.labels@.len() implies match #[trigger] self.labels@[l] {
                Some(v) => self.floor@ <= v <= self.insts@.len(),
                None => true,
            } by {
                if l < old(self).labels@.len() {
                    assert(old(self).labels@[l] == self.labels@[l]);
                }
            }
        }
        r
    }

    fn set_label(&mut self, l: usize)
        requires
            old(self).wf(),
            l < old(self).labels@.len(),
        ensures
            final(self).wf(),
            final(self).fns == old(self).fns,
            final(self).floor == old(self).floor,
            final(self).insts == old(self).insts,
            final(self).labels@ == old(self).labels@.update(l as int, Some(old(self).insts@.len() as usize)),
    {
        let ip = self.insts.len();
        self.labels.set(l, Some(ip));
        proof {
            assert forall|k: int| 0 <= k < self.insts@.len() implies match #[trigger] inst_target(self.insts@[k]) {
                Some(t) => target_in(t, self.fns@.len() as int, self.labels@.len() as int),
                None => true,
            } by {
                assert(old(self).insts@[k] == self.insts@[k]);
            }
            assert forall|m: int| 0 <= m < self.labels@.len() implies match #[trigger] self.labels@[m] {
                Some(v) => self.floor@ <= v <= self.insts@.len(),
                None => true,
            } by {
                if m != l {
                    assert(old(self).labels@[m] == self.labels@[m]);
                }
            }
        }
    }
}

proof fn lemma_extends_refl(c: Compiler)
    ensures
        c.extends(&c),
{
    assert(c.insts@.subrange(0, c.insts@.len() as int) =~= c.insts@);
}

proof fn lemma_extends_trans(a: Compiler, b: Compiler, c: Compiler)
    requires
        b.extends(&a),
        c.extends(&b),
    ensures
        c.extends(&a),
{
    lemma_tracks_sub(a, b, c, Set::empty());
}

/// A step that extends the state keeps what the state tracks.
proof fn lemma_tracks_sub(a: Compiler, b: Compiler, c: Compiler, pending: Set<int>)
    requires
        b.tracks(&a, pending),
        c.extends(&b),
    ensures
        c.tracks(&a, pending),
{
    assert(c.insts@.subrange(0, a.insts@.len() as int) =~= b.insts@.subrange(
        0,
        a.insts@.len() as int,
    ));
    assert forall|l: int| a.labels@.len() <= l < c.labels@.len() implies (#[trigger] c.labels@[l]) is Some
        || pending.contains(l) by {
        if l < b.labels@.len() {
            assert(c.labels@[l] == b.labels@[l]);
        }
    }
}

impl<'a> Compiler<'a> {
    fn emit_step(&mut self, i: Inst)
        requires
            old(self).wf(),
            match inst_target(i) {
                Some(t) => target_in(t, old(self).fns@.len() as int, old(self).labels@.len() as int),
                None => true,
            },
        ensures
            final(self).wf(),
            final(self).extends(old(self)),
            final(self).labels == old(self).labels,
            final(self).insts@ == old(self).insts@.push(i),
    {
        self.emit(i);
        proof {
            assert(self.insts@.subrange(0, old(self).insts@.len() as int) =~= old(self).insts@);
        }
    }

    /// Emits the code of an expression, which pushes its value. Where the expression
    /// passed analysis in scope `pre`, a prefix of `scope`, this succeeds.
    fn compile_expr(
        &mut self,
        e: &Expr,
        scope: &LocalScope,
        loc: Loc,
        Ghost(pre): Ghost<Seq<Seq<u8>>>,
    ) -> (r: Result<(), CompileError>)
        requires
            old(self).wf(),
        ensures
            final(self).wf(),
            final(self).fns == old(self).fns,
            r is Ok ==> final(self).extends(old(self)),
            extends_scope(scope@, pre) && expr_ok(old(self).fns@, pre, *e) ==> r is Ok,
            r is Ok ==> final(self).insts@ == old(self).insts@ + expr_code(
                old(self).fns@,
                *scope,
                *e,
            ) && final(self).labels == old(self).labels,
        decreases e,
    {
        match e {
            Expr::Num(n) => {
                self.emit_step(Inst::Const(*n));
                proof {
                    assert(self.insts@ =~= old(self).insts@ + expr_code(self.fns@, *scope, *e));
                }
                Ok(())
            },
            Expr::Var(name) => match scope.slot_of(name) {
                Some(k) => {
                    self.emit_step(Inst::GetLocal(k));
                    proof {
                        assert(self.insts@ =~= old(self).insts@ + expr_code(self.fns@, *scope, *e));
                    }
                    Ok(())
                },
                None => {
                    proof {
                        if extends_scope(scope@, pre) && pre.contains(name@) {
                            lemma_extends_contains(scope@, pre, name@);
                        }
                    }
                    Err(CompileError { loc, kind: ErrorKind::UnknownVar(copy_name(name)) })
                },
            },
            Expr::BinOp { lhs, rhs, op } => {
                let ghost c0 = *self;
                let a = self.compile_expr(lhs, scope, loc, Ghost(pre));
                if a.is_err() {
                    return a;
                }
                let ghost c1 = *self;
                let a = self.compile_expr(rhs, scope, loc, Ghost(pre));
                if a.is_err() {
                    return a;
                }
                let ghost c2 = *self;
                self.emit_step(Inst::Op(*op));
                proof {
                    lemma_extends_trans(c0, c1, c2);
                    lemma_extends_trans(c0, c2, *self);
                    assert(self.insts@ =~= old(self).insts@ + expr_code(self.fns@, *scope, *e));
                }
                Ok(())
            },
            Expr::FnCall { name, args } => {
                let ghost c0 = *self;
                let k = match find_fn_index(self.fns, name) {
                    Some(k) => k,
                    None => {
                        return Err(
                            CompileError { loc, kind: ErrorKind::UnknownFn(copy_name(name)) },
                        );
                    },
                };
                self.emit_step(Inst::SpAdd(1));
                let ghost c1 = *self;
                let a = self.compile_args(args, scope, loc, Ghost(pre));
                if a.is_err() {
                    return a;
                }
                let ghost c2 = *self;
                self.emit_step(Inst::Call(Target::Fn(k)));
                let ghost c3 = *self;
                self.emit_step(Inst::SpSub(args.len()));
                proof {
                    lemma_extends_trans(c0, c1, c2);
                    lemma_extends_trans(c0, c2, c3);
                    lemma_extends_trans(c0, c3, *self);
                    assert(self.insts@ =~= old(self).insts@ + expr_code(self.fns@, *scope, *e));
                }
                Ok(())
            },
        }
    }

    /// Emits the code of each argument, left to right.
    fn compile_args(
        &mut self,
        args: &Vec<Expr>,
        scope: &LocalScope,
        loc: Loc,
        Ghost(pre): Ghost<Seq<Seq<u8>>>,
    ) -> (r: Result<(), CompileError>)
        requires
            old(self).wf(),
        ensures
            final(self).wf(),
            final(self).fns == old(self).fns,
            r is Ok ==> final(self).extends(old(self)),
            extends_scope(scope@, pre) && args_ok(old(self).fns@, pre, args@) ==> r is Ok,
            r is Ok ==> final(self).insts@ == old(self).insts@ + args_code(
                old(self).fns@,
                *scope,
                args@,
            ) && final(self).labels == old(self).labels,
        decreases args,
    {
        proof {
            lemma_extends_refl(*self);
            assert(args@.subrange(0, 0) =~= Seq::<Expr>::empty());
            assert(self.insts@ =~= old(self).insts@ + Seq::<Inst>::empty());
        }
        let mut i: usize = 0;
        while i < args.len()
            invariant
                self.wf(),
                self.fns == old(self).fns,
                self.extends(old(self)),
                i <= args@.len(),
                self.labels == old(self).labels,
                self.insts@ == old(self).insts@ + args_code(
                    old(self).fns@,
                    *scope,
                    args@.subrange(0, i as int),
                ),
            decreases args@.len() - i,
        {
            proof {
                assert(decreases_to!(args => args@[i as int]));
            }
            let ghost c0 = *self;
            let a = self.compile_expr(&args[i], scope, loc, Ghost(pre));
            if a.is_err() {
                return a;
            }
            proof {
                lemma_extends_trans(*old(self), c0, *self);
                let sub = args@.subrange(0, i + 1);
                assert(sub.drop_last() =~= args@.subrange(0, i as int));
                assert(sub.last() == args@[i as int]);
                assert(self.insts@ =~= old(self).insts@ + args_code(old(self).fns@, *scope, sub));
            }
            i = i + 1;
        }
        proof {
            assert(args@.subrange(0, i as int) =~= args@);
        }
        Ok(())
    }
}

fn copy_name(v: &Vec<u8>) -> (r: Vec<u8>)
    ensures
        r@ == v@,
{
    vstd::slice::slice_to_vec(v.as_slice())
}

/// Appending code puts it at the old end and keeps what was there.
proof fn lemma_append(x: Seq<Inst>, c: Seq<Inst>)
    ensures
        code_at(x + c, x.len() as int, c),
        (x + c).subrange(0, x.len() as int) == x,
        (x + c).len() == x.len() + c.len(),
{
    assert((x + c).subrange(0, x.len() as int) =~= x);
    assert forall|j: int| 0 <= j < c.len() implies inst_like((x + c)[x.len() + j], #[trigger] c[j]) by {
        assert((x + c)[x.len() + j] == c[j]);
    }
}

/// Code at `a` followed by code at its end is their concatenation at `a`, in any longer
/// sequence that keeps the first.
proof fn lemma_seq_code(x0: int, x1: Seq<Inst>, x2: Seq<Inst>, c1: Seq<Inst>, c2: Seq<Inst>)
    requires
        0 <= x0,
        x1.len() == x0 + c1.len(),
        code_at(x1, x0, c1),
        x2.len() == x1.len() + c2.len(),
        x2.subrange(0, x1.len() as int) == x1,
        code_at(x2, x1.len() as int, c2),
    ensures
        x2.len() == x0 + (c1 + c2).len(),
        code_at(x2, x0, c1 + c2),
{
    assert forall|j: int| 0 <= j < (c1 + c2).len() implies inst_like(x2[x0 + j], #[trigger] (c1 + c2)[j]) by {
        if j < c1.len() {
            assert(x2.subrange(0, x1.len() as int)[x0 + j] == x1[x0 + j]);
            assert(inst_like(x1[x0 + j], c1[j]));
        } else {
            assert(inst_like(x2[x1.len() + (j - c1.len())], c2[j - c1.len()]));
        }
    }
}

/// What a compiling step emitted: the code `g.code` after the old instructions, and the
/// labels `g.labels`.
spec fn gen_ok(a: Compiler, b: Compiler, g: Gen) -> bool {
    &&& b.insts@.subrange(0, a.insts@.len() as int) == a.insts@
    &&& b.insts@.len() == a.insts@.len() + g.code.len()
    &&& code_at(b.insts@, a.insts@.len() as int, g.code)
    &&& b.labels@ == g.labels
}

/// Two steps that each keep what was there keep it together.
proof fn lemma_gen_then(a: Compiler, b: Compiler, c: Compiler, g1: Gen, g2: Gen)
    requires
        gen_ok(a, b, g1),
        gen_ok(b, c, g2),
    ensures
        gen_ok(a, c, Gen { code: g1.code + g2.code, labels: g2.labels }),
{
    lemma_seq_code(a.insts@.len() as int, b.insts@, c.insts@, g1.code, g2.code);
    assert(c.insts@.subrange(0, a.insts@.len() as int) =~= a.insts@) by {
        assert forall|q: int| 0 <= q < a.insts@.len() implies c.insts@[q] == a.insts@[q] by {
            assert(c.insts@.subrange(0, b.insts@.len() as int)[q] == b.insts@[q]);
            assert(b.insts@.subrange(0, a.insts@.len() as int)[q] == a.insts@[q]);
        }
    }
}

/// A step that only placed a label keeps the code.
proof fn lemma_gen_relabel(a: Compiler, b: Compiler, c: Compiler, g: Gen)
    requires
        gen_ok(a, b, g),
        c.insts@ == b.insts@,
    ensures
        gen_ok(a, c, Gen { code: g.code, labels: c.labels@ }),
{
}

/// A step that appended `c` and left the labels as `labels`.
proof fn lemma_gen_append(a: Compiler, b: Compiler, c: Seq<Inst>, labels: Seq<Option<usize>>)
    requires
        b.insts@ == a.insts@ + c,
        b.labels@ == labels,
    ensures
        gen_ok(a, b, Gen { code: c, labels }),
{
    lemma_append(a.insts@, c);
}

impl<'a> Compiler<'a> {
    /// Allocates a label, pending until it is placed.
    fn label_in(&mut self, Ghost(c0): Ghost<Compiler<'a>>, Ghost(pending): Ghost<Set<int>>) -> (r:
        usize)
        requires
            old(self).wf(),
            old(self).tracks(&c0, pending),
        ensures
            final(self).wf(),
            final(self).tracks(&c0, pending.insert(r as int)),
            final(self).insts == old(self).insts,
            final(self).labels@.len() == old(self).labels@.len() + 1,
            final(self).labels@ == old(self).labels@.push(None),
            r == old(self).labels@.len(),
    {
        let r = self.new_label();
        proof {
            assert forall|l: int|
                c0.labels@.len() <= l < self.labels@.len() implies (#[trigger] self.labels@[l]) is Some
                || pending.insert(r as int).contains(l) by {
                if l < old(self).labels@.len() {
                    assert(self.labels@[l] == old(self).labels@[l]);
                }
            }
        }
        r
    }

    /// Places label `l`, allocated by this step, at the next instruction.
    fn place_in(&mut self, l: usize, Ghost(c0): Ghost<Compiler<'a>>, Ghost(pending): Ghost<Set<int>>)
        requires
            old(self).wf(),
            old(self).tracks(&c0, pending),
            c0.labels@.len() <= l < old(self).labels@.len(),
        ensures
            final(self).wf(),
            final(self).tracks(&c0, pending.remove(l as int)),
            final(self).insts == old(self).insts,
            final(self).labels@.len() == old(self).labels@.len(),
            final(self).labels@ == place(old(self).labels@, l as int, old(self).insts@.len() as int),
    {
        self.set_label(l);
        proof {
            assert forall|m: int|
                c0.labels@.len() <= m < self.labels@.len() implies (#[trigger] self.labels@[m]) is Some
                || pending.remove(l as int).contains(m) by {
                if m != l {
                    assert(self.labels@[m] == old(self).labels@[m]);
                }
            }
            assert forall|m: int| 0 <= m < c0.labels@.len() implies self.labels@[m] == c0.labels@[m] by {
                assert(self.labels@[m] == old(self).labels@[m]);
            }
        }
    }

    /// Emits an instruction within a step that tracks `pending`.
    fn emit_in(&mut self, i: Inst, Ghost(c0): Ghost<Compiler<'a>>, Ghost(pending): Ghost<Set<int>>)
        requires
            old(self).wf(),
            old(self).tracks(&c0, pending),
            match inst_target(i) {
                Some(t) => target_in(t, old(self).fns@.len() as int, old(self).labels@.len() as int),
                None => true,
            },
        ensures
            final(self).wf(),
            final(self).tracks(&c0, pending),
            final(self).labels == old(self).labels,
            final(self).insts@ == old(self).insts@.push(i),
    {
        let ghost p = *self;
        self.emit_step(i);
        proof {
            lemma_tracks_sub(c0, p, *self, pending);
        }
    }

    /// Emits the code of a statement. Where the statement passed analysis from scope
    /// `pre` to a prefix of `scope`, this fails only on a count too large for a word.
    #[verifier::rlimit(100)]
    fn compile_stmt(
        &mut self,
        stmt: &Stmt,
        scope: &LocalScope,
        ret: usize,
        lup: &Option<Loop>,
        Ghost(pre): Ghost<Seq<Seq<u8>>>,
    ) -> (r: Result<(), CompileError>)
        requires
            old(self).wf(),
            ret < old(self).labels@.len(),
            lup matches Some(l) ==> l.start < old(self).labels@.len() && l.end < old(
                self,
            ).labels@.len(),
        ensures
            final(self).wf(),
            final(self).fns == old(self).fns,
            r is Ok ==> final(self).extends(old(self)),
            params_fit(old(self).fns@) && stmt_owed(old(self).fns@, *scope, pre, *stmt, lup is Some)
                ==> r is Ok,
            r is Ok ==> gen_ok(
                *old(self),
                *final(self),
                gen_stmt(
                    old(self).fns@,
                    *scope,
                    *stmt,
                    ret,
                    *lup,
                    old(self).insts@.len() as int,
                    old(self).labels@,
                ),
            ),
        decreases stmt, 0nat,
    {
        let ghost c0 = *self;
        let ghost g = gen_stmt(self.fns@, *scope, *stmt, ret, *lup, self.insts@.len() as int, self.labels@);
        let ghost fns = self.fns@;
        let ghost il = lup is Some;
        let ghost rr = scope.has_result;
        let ghost owed = stmt_owed(fns, *scope, pre, *stmt, il);
        proof {
            lemma_extends_refl(*self);
            if owed {
                lemma_stmt_scope_grows(fns, rr, pre, *stmt, il);
                lemma_extends_scope_trans(pre, stmt_scope(fns, rr, pre, *stmt, il)->Some_0, scope@);
            }
        }
        let loc = stmt.loc;
        match &stmt.kind {
            StmtKind::VarDecl(_) => {
                proof {
                    lemma_gen_append(c0, *self, Seq::empty(), c0.labels@);
                    assert(self.insts@ =~= c0.insts@ + Seq::<Inst>::empty());
                }
                Ok(())
            },
            StmtKind::VarDeclAssign { name, expr } | StmtKind::VarAssign { name, expr } => {
                let a = self.compile_expr(expr, scope, loc, Ghost(pre));
                if a.is_err() {
                    return a;
                }
                proof {
                    if owed {
                        let post = stmt_scope(fns, rr, pre, *stmt, il)->Some_0;
                        if stmt.kind is VarDeclAssign {
                            assert(post[post.len() - 1] == name@);
                            lemma_extends_contains(scope@, post, name@);
                        } else {
                            lemma_extends_contains(scope@, pre, name@);
                        }
                    }
                }
                match scope.slot_of(name) {
                    Some(k) => {
                        self.emit_in(Inst::SetLocal(k), Ghost(c0), Ghost(Set::empty()));
                        proof {
                            assert(self.insts@ =~= c0.insts@ + g.code);
                            lemma_gen_append(c0, *self, g.code, g.labels);
                        }
                        Ok(())
                    },
                    None => Err(CompileError { loc, kind: ErrorKind::UnknownVar(copy_name(name)) }),
                }
            },
            StmtKind::ReturnVal(expr) => {
                let a = self.compile_expr(expr, scope, loc, Ghost(pre));
                if a.is_err() {
                    return a;
                }
                self.emit_in(Inst::SetLocal(0), Ghost(c0), Ghost(Set::empty()));
                self.emit_in(Inst::Jmp(Target::Label(ret)), Ghost(c0), Ghost(Set::empty()));
                proof {
                    assert(self.insts@ =~= c0.insts@ + g.code);
                    lemma_gen_append(c0, *self, g.code, g.labels);
                }
                Ok(())
            },
            StmtKind::Return => {
                self.emit_in(Inst::Jmp(Target::Label(ret)), Ghost(c0), Ghost(Set::empty()));
                proof {
                    assert(self.insts@ =~= c0.insts@ + g.code);
                    lemma_gen_append(c0, *self, g.code, g.labels);
                }
                Ok(())
            },
            StmtKind::FnCall { name, args } => {
                let k = match find_fn_index(self.fns, name) {
                    Some(k) => k,
                    None => {
                        return Err(
                            CompileError { loc, kind: ErrorKind::UnknownFn(copy_name(name)) },
                        );
                    },
                };
                if args.len() == usize::MAX {
                    proof {
                        if params_fit(fns) && owed {
                            assert(call_ok(fns, name@, args@.len() as int, false));
                            assert(fns[k as int].params@.len() <= usize::MAX - 3);
                        }
                    }
                    return Err(CompileError { loc, kind: ErrorKind::TooLarge });
                }
                self.emit_in(Inst::SpAdd(1), Ghost(c0), Ghost(Set::empty()));
                let ghost p = *self;
                let a = self.compile_args(args, scope, loc, Ghost(pre));
                if a.is_err() {
                    return a;
                }
                proof {
                    lemma_tracks_sub(c0, p, *self, Set::empty());
                }
                self.emit_in(Inst::Call(Target::Fn(k)), Ghost(c0), Ghost(Set::empty()));
                self.emit_in(Inst::SpSub(args.len() + 1), Ghost(c0), Ghost(Set::empty()));
                proof {
                    assert(self.insts@ =~= c0.insts@ + g.code);
                    lemma_gen_append(c0, *self, g.code, g.labels);
                }
                Ok(())
            },
            StmtKind::BuiltinFnCall { name, arg } => {
                if is_log(name) {
                    proof {
                        if owed {
                            lemma_extends_contains(scope@, pre, arg@);
                        }
                    }
                    match scope.slot_of(arg) {
                        Some(k) => {
                            self.emit_in(Inst::Log(k), Ghost(c0), Ghost(Set::empty()));
                            proof {
                                assert(self.insts@ =~= c0.insts@ + g.code);
                                lemma_gen_append(c0, *self, g.code, g.labels);
                            }
                            Ok(())
                        },
                        None => Err(
                            CompileError { loc, kind: ErrorKind::UnknownVar(copy_name(arg)) },
                        ),
                    }
                } else if is_cmd(name) {
                    let raw = Inst::Raw(copy_name(arg));
                    let ghost rv = raw;
                    self.emit_in(raw, Ghost(c0), Ghost(Set::empty()));
                    proof {
                        assert(self.insts@ =~= c0.insts@ + seq![rv]);
                        lemma_gen_append(c0, *self, seq![rv], c0.labels@);
                        assert forall|j: int| 0 <= j < g.code.len() implies inst_like(
                            self.insts@[c0.insts@.len() + j],
                            #[trigger] g.code[j],
                        ) by {
                            assert(self.insts@[c0.insts@.len() + j] == seq![rv][j]);
                        }
                    }
                    Ok(())
                } else {
                    Err(CompileError { loc, kind: ErrorKind::UnknownBuiltin(copy_name(name)) })
                }
            },
            StmtKind::Break => match lup {
                Some(l) => {
                    self.emit_in(Inst::Jmp(Target::Label(l.end)), Ghost(c0), Ghost(Set::empty()));
                    proof {
                        assert(self.insts@ =~= c0.insts@ + g.code);
                        lemma_gen_append(c0, *self, g.code, g.labels);
                    }
                    Ok(())
                },
                None => Err(CompileError { loc, kind: ErrorKind::OutsideLoop }),
            },
            StmtKind::Continue => match lup {
                Some(l) => {
                    self.emit_in(
                        Inst::Jmp(Target::Label(l.start)),
                        Ghost(c0),
                        Ghost(Set::empty()),
                    );
                    proof {
                        assert(self.insts@ =~= c0.insts@ + g.code);
                        lemma_gen_append(c0, *self, g.code, g.labels);
                    }
                    Ok(())
                },
                None => Err(CompileError { loc, kind: ErrorKind::OutsideLoop }),
            },
            StmtKind::If { cond, then_block, elseifs, elze } => {
                let ghost s1 = block_scope(fns, rr, pre, then_block@, il)->Some_0;
                let ghost s2 = elseifs_scope(fns, rr, s1, elseifs@, il)->Some_0;
                proof {
                    if owed {
                        lemma_block_scope_grows(fns, rr, s2, elze@, il);
                        lemma_extends_scope_trans(s2, block_scope(fns, rr, s2, elze@, il)->Some_0, scope@);
                        lemma_elseifs_scope_grows(fns, rr, s1, elseifs@, il);
                        lemma_extends_scope_trans(s1, s2, scope@);
                    }
                }
                let ghost ip0 = c0.insts@.len() as int;
                let end = self.label_in(Ghost(c0), Ghost(Set::empty()));
                let ghost sa = *self;
                proof {
                    assert(sa.insts@ =~= c0.insts@ + Seq::<Inst>::empty());
                    lemma_gen_append(c0, sa, Seq::empty(), sa.labels@);
                }
                let ghost pend = Set::<int>::empty().insert(end as int);
                let ghost b1 = gen_branch(
                    fns,
                    *scope,
                    *cond,
                    then_block@,
                    ret,
                    *lup,
                    end,
                    ip0,
                    c0.labels@.push(None),
                );
                let mut else_label = self.branch(cond, then_block, scope, ret, lup, end, loc, Ghost(c0), Ghost(pend), Ghost(pre), Ghost(s1));
                let mut else_label = match else_label {
                    Ok(l) => l,
                    Err(e) => {
                        return Err(e);
                    },
                };
                let ghost ipb = ip0 + b1.0.code.len();
                proof {
                    lemma_gen_then(c0, sa, *self, Gen { code: Seq::empty(), labels: sa.labels@ }, b1.0);
                    assert(Seq::<Inst>::empty() + b1.0.code =~= b1.0.code + Seq::<Inst>::empty());
                    assert(elseifs@.subrange(0, 0) =~= Seq::<ElseIf>::empty());
                }
                proof {
                    assert(decreases_to!(stmt => stmt.kind));
                    assert(decreases_to!(stmt.kind => *elseifs));
                }
                let ghost mut cur = s1;
                proof {
                    assert(elseifs@.subrange(0, 0) =~= Seq::<ElseIf>::empty());
                }
                let mut i: usize = 0;
                while i < elseifs.len()
                    invariant
                        decreases_to!(stmt => *elseifs),
                        fns == c0.fns@,
                        owed ==> elseifs_scope(fns, rr, s1, elseifs@, il) == Some(s2),
                        owed ==> extends_scope(scope@, s2),
                        owed ==> elseifs_scope(fns, rr, s1, elseifs@.subrange(0, i as int), il) == Some(cur),
                        il == lup is Some,
                        rr == scope.has_result,
                        fns == old(self).fns@,
                        owed == stmt_owed(old(self).fns@, *scope, pre, *stmt, lup is Some),
                        self.wf(),
                        self.tracks(&c0, pend.insert(else_label as int)),
                        c0.labels@.len() <= end < self.labels@.len(),
                        c0.labels@.len() <= else_label < self.labels@.len(),
                        ret < c0.labels@.len(),
                        lup matches Some(l) ==> l.start < c0.labels@.len() && l.end < c0.labels@.len(),
                        pend == Set::<int>::empty().insert(end as int),
                        c0.fns == old(self).fns,
                        i <= elseifs@.len(),
                        c0 == *old(self),
                        ip0 == c0.insts@.len(),
                        b1 == gen_branch(
                            fns,
                            *scope,
                            *cond,
                            then_block@,
                            ret,
                            *lup,
                            end,
                            ip0,
                            c0.labels@.push(None),
                        ),
                        ipb == ip0 + b1.0.code.len(),
                        ({
                            let ar = gen_arms(
                                fns,
                                *scope,
                                elseifs@.subrange(0, i as int),
                                ret,
                                *lup,
                                end,
                                ipb,
                                b1.0.labels,
                                b1.1,
                            );
                            gen_ok(c0, *self, Gen { code: b1.0.code + ar.0.code, labels: ar.0.labels })
                                && else_label == ar.1
                        }),
                    decreases elseifs@.len() - i,
                {
                    proof {
                        assert(decreases_to!(elseifs => elseifs@[i as int]));
                        assert(decreases_to!(elseifs@[i as int] => elseifs@[i as int].then_block));
                    }
                    let ghost ar = gen_arms(
                        fns,
                        *scope,
                        elseifs@.subrange(0, i as int),
                        ret,
                        *lup,
                        end,
                        ipb,
                        b1.0.labels,
                        b1.1,
                    );
                    let ghost sq = *self;
                    self.place_in(else_label, Ghost(c0), Ghost(pend.insert(else_label as int)));
                    let ghost sp = *self;
                    proof {
                        lemma_gen_relabel(c0, sq, sp, Gen { code: b1.0.code + ar.0.code, labels: ar.0.labels });
                        assert(pend.insert(else_label as int).remove(else_label as int) =~= pend.remove(else_label as int));
                        assert(pend.remove(else_label as int).subset_of(pend));
                    }
                    let ghost p = *self;
                    proof {
                        lemma_tracks_weaken(c0, p, pend.insert(else_label as int).remove(else_label as int), pend);
                    }
                    let arm = &elseifs[i];
                    let ghost next = block_scope(fns, rr, cur, arm.then_block@, il)->Some_0;
                    proof {
                        if owed {
                            lemma_elseifs_prefix(fns, rr, s1, elseifs@, i + 1, il);
                            assert(elseifs@.subrange(0, i + 1).drop_last() =~= elseifs@.subrange(0, i as int));
                            assert(elseifs@.subrange(0, i + 1).last() == elseifs@[i as int]);
                            lemma_extends_scope_trans(next, s2, scope@);
                            assert(expr_ok(fns, cur, elseifs@[i as int].cond));
                            assert(block_scope(fns, rr, cur, arm.then_block@, il) == Some(next));
                        }
                    }
                    let l = self.branch(&arm.cond, &arm.then_block, scope, ret, lup, end, loc, Ghost(c0), Ghost(pend), Ghost(cur), Ghost(next));
                    match l {
                        Ok(l) => {
                            else_label = l;
                            proof {
                                cur = next;
                                let bb = gen_branch(
                                    fns,
                                    *scope,
                                    arm.cond,
                                    arm.then_block@,
                                    ret,
                                    *lup,
                                    end,
                                    sp.insts@.len() as int,
                                    sp.labels@,
                                );
                                lemma_gen_then(
                                    c0,
                                    sp,
                                    *self,
                                    Gen { code: b1.0.code + ar.0.code, labels: sp.labels@ },
                                    bb.0,
                                );
                                let sub = elseifs@.subrange(0, i + 1);
                                assert(sub.drop_last() =~= elseifs@.subrange(0, i as int));
                                assert(sub.last() == elseifs@[i as int]);
                                assert(b1.0.code + ar.0.code + bb.0.code =~= b1.0.code + (ar.0.code
                                    + bb.0.code));
                            }
                        },
                        Err(e) => {
                            return Err(e);
                        },
                    }
                    i = i + 1;
                }
                proof {
                    assert(elseifs@.subrange(0, i as int) =~= elseifs@);
                }
                let ghost ar = gen_arms(fns, *scope, elseifs@, ret, *lup, end, ipb, b1.0.labels, b1.1);
                let ghost sq = *self;
                self.place_in(else_label, Ghost(c0), Ghost(pend.insert(else_label as int)));
                let ghost p = *self;
                proof {
                    lemma_tracks_weaken(c0, p, pend.insert(else_label as int).remove(else_label as int), pend);
                    lemma_gen_relabel(c0, sq, p, Gen { code: b1.0.code + ar.0.code, labels: ar.0.labels });
                }
                let a = self.compile_block(elze, scope, ret, lup, Ghost(cur));
                if a.is_err() {
                    return a;
                }
                proof {
                    lemma_tracks_sub(c0, p, *self, pend);
                    let eb = gen_block(fns, *scope, elze@, ret, *lup, p.insts@.len() as int, p.labels@);
                    lemma_gen_then(c0, p, *self, Gen { code: b1.0.code + ar.0.code, labels: p.labels@ }, eb);
                }
                let ghost sr = *self;
                self.place_in(end, Ghost(c0), Ghost(pend));
                proof {
                    assert(pend.remove(end as int) =~= Set::<int>::empty());
                    let eb = gen_block(fns, *scope, elze@, ret, *lup, p.insts@.len() as int, p.labels@);
                    lemma_gen_relabel(c0, sr, *self, Gen { code: b1.0.code + ar.0.code + eb.code, labels: eb.labels });
                }
                Ok(())
            },
            StmtKind::For { init, cond, post, body } => {
                let ghost f1 = match init {
                    Some(b) => stmt_scope(fns, rr, pre, **b, il)->Some_0,
                    None => pre,
                };
                let ghost f2 = match post {
                    Some(b) => stmt_scope(fns, rr, f1, **b, il)->Some_0,
                    None => f1,
                };
                proof {
                    if owed {
                        lemma_block_scope_grows(fns, rr, f2, body@, true);
                        lemma_extends_scope_trans(f2, block_scope(fns, rr, f2, body@, true)->Some_0, scope@);
                        assert(f1.subrange(0, f1.len() as int) =~= f1);
                        if let Some(b) = post {
                            lemma_stmt_scope_grows(fns, rr, f1, **b, il);
                        }
                        lemma_extends_scope_trans(f1, f2, scope@);
                    }
                }
                let ghost gi = match init {
                    Some(b) => gen_stmt(fns, *scope, **b, ret, *lup, c0.insts@.len() as int, c0.labels@),
                    None => Gen { code: Seq::empty(), labels: c0.labels@ },
                };
                proof {
                    assert(c0.insts@ =~= c0.insts@ + Seq::<Inst>::empty());
                    lemma_gen_append(c0, c0, Seq::empty(), c0.labels@);
                }
                match init {
                    Some(s) => {
                        let ghost p = *self;
                        let a = self.compile_stmt(s, scope, ret, lup, Ghost(pre));
                        if a.is_err() {
                            return a;
                        }
                        proof {
                            lemma_tracks_sub(c0, p, *self, Set::empty());
                        }
                    },
                    None => {},
                }
                let ghost sg = *self;
                let start = self.label_in(Ghost(c0), Ghost(Set::empty()));
                let end = self.label_in(Ghost(c0), Ghost(Set::empty().insert(start as int)));
                let ghost pend = Set::<int>::empty().insert(start as int).insert(end as int);
                self.place_in(start, Ghost(c0), Ghost(pend));
                let ghost l1 = self.labels@;
                proof {
                    lemma_gen_relabel(c0, sg, *self, gi);
                }
                let ghost sc1 = *self;
                let ghost pend = pend.remove(start as int);
                proof {
                    lemma_tracks_weaken(c0, *self, pend, Set::<int>::empty().insert(end as int));
                }
                let ghost pend = Set::<int>::empty().insert(end as int);
                let ghost cc = match cond {
                    Some(c) => expr_code(fns, *scope, *c) + seq![
                        Inst::JmpIf(Target::Label(l1.len() as usize)),
                        Inst::Jmp(Target::Label(end)),
                    ],
                    None => Seq::empty(),
                };
                match cond {
                    Some(c) => {
                        let body_label = self.label_in(Ghost(c0), Ghost(pend));
                        let ghost p = *self;
                        let a = self.compile_expr(c, scope, loc, Ghost(f1));
                        if a.is_err() {
                            return a;
                        }
                        proof {
                            lemma_tracks_sub(c0, p, *self, pend.insert(body_label as int));
                        }
                        self.emit_in(Inst::JmpIf(Target::Label(body_label)), Ghost(c0), Ghost(pend.insert(body_label as int)));
                        self.emit_in(Inst::Jmp(Target::Label(end)), Ghost(c0), Ghost(pend.insert(body_label as int)));
                        self.place_in(body_label, Ghost(c0), Ghost(pend.insert(body_label as int)));
                        proof {
                            lemma_tracks_weaken(c0, *self, pend.insert(body_label as int).remove(body_label as int), pend);
                            assert(self.insts@ =~= sc1.insts@ + cc);
                            lemma_gen_append(sc1, *self, cc, self.labels@);
                        }
                    },
                    None => {
                        proof {
                            assert(self.insts@ =~= sc1.insts@ + cc);
                            lemma_gen_append(sc1, *self, cc, self.labels@);
                        }
                    },
                }
                proof {
                    lemma_gen_then(c0, sc1, *self, Gen { code: gi.code, labels: l1 }, Gen { code: cc, labels: self.labels@ });
                }
                let ghost sc2 = *self;
                let inner = Some(Loop { start, end });
                let ghost p = *self;
                let a = self.compile_block(body, scope, ret, &inner, Ghost(f2));
                if a.is_err() {
                    return a;
                }
                let ghost gb = gen_block(fns, *scope, body@, ret, Some(Loop { start, end }), sc2.insts@.len() as int, sc2.labels@);
                proof {
                    lemma_tracks_sub(c0, p, *self, pend);
                    lemma_gen_then(c0, sc2, *self, Gen { code: gi.code + cc, labels: sc2.labels@ }, gb);
                }
                let ghost sc3 = *self;
                let ghost gp = match post {
                    Some(b) => gen_stmt(fns, *scope, **b, ret, *lup, sc3.insts@.len() as int, sc3.labels@),
                    None => Gen { code: Seq::empty(), labels: sc3.labels@ },
                };
                match post {
                    Some(s) => {
                        let ghost p = *self;
                        let a = self.compile_stmt(s, scope, ret, lup, Ghost(f1));
                        if a.is_err() {
                            return a;
                        }
                        proof {
                            lemma_tracks_sub(c0, p, *self, pend);
                        }
                    },
                    None => {
                        proof {
                            assert(self.insts@ =~= sc3.insts@ + Seq::<Inst>::empty());
                            lemma_gen_append(sc3, *self, Seq::empty(), sc3.labels@);
                        }
                    },
                }
                proof {
                    lemma_gen_then(c0, sc3, *self, Gen { code: gi.code + cc + gb.code, labels: sc3.labels@ }, gp);
                }
                let ghost sc4 = *self;
                self.emit_in(Inst::Jmp(Target::Label(start)), Ghost(c0), Ghost(pend));
                proof {
                    assert(self.insts@ =~= sc4.insts@ + seq![Inst::Jmp(Target::Label(start))]);
                    lemma_gen_append(sc4, *self, seq![Inst::Jmp(Target::Label(start))], sc4.labels@);
                    lemma_gen_then(
                        c0,
                        sc4,
                        *self,
                        Gen { code: gi.code + cc + gb.code + gp.code, labels: sc4.labels@ },
                        Gen { code: seq![Inst::Jmp(Target::Label(start))], labels: sc4.labels@ },
                    );
                }
                let ghost sc5 = *self;
                self.place_in(end, Ghost(c0), Ghost(pend));
                proof {
                    assert(pend.remove(end as int) =~= Set::<int>::empty());
                    lemma_gen_relabel(
                        c0,
                        sc5,
                        *self,
                        Gen {
                            code: gi.code + cc + gb.code + gp.code + seq![Inst::Jmp(Target::Label(start))],
                            labels: sc4.labels@,
                        },
                    );
                }
                Ok(())
            },
        }
    }

    /// Emits one arm of a conditional: its condition, the jumps to its block or past it,
    /// and its block followed by a jump to `end`. Returns the label to place where the
    /// next arm starts.
    fn branch(
        &mut self,
        cond: &Expr,
        block: &Block,
        scope: &LocalScope,
        ret: usize,
        lup: &Option<Loop>,
        end: usize,
        loc: Loc,
        Ghost(c0): Ghost<Compiler<'a>>,
        Ghost(pending): Ghost<Set<int>>,
        Ghost(pre): Ghost<Seq<Seq<u8>>>,
        Ghost(post): Ghost<Seq<Seq<u8>>>,
    ) -> (r: Result<usize, CompileError>)
        requires
            old(self).wf(),
            old(self).tracks(&c0, pending),
            ret < c0.labels@.len(),
            c0.labels@.len() <= end < old(self).labels@.len(),
            lup matches Some(l) ==> l.start < c0.labels@.len() && l.end < c0.labels@.len(),
        ensures
            final(self).wf(),
            final(self).fns == old(self).fns,
            r matches Ok(l) ==> final(self).tracks(&c0, pending.insert(l as int)) && c0.labels@.len()
                <= l < final(self).labels@.len() && final(self).labels@.len() >= old(self).labels@.len(),
            expr_ok(old(self).fns@, pre, *cond) && block_scope(
                old(self).fns@,
                scope.has_result,
                pre,
                block@,
                lup is Some,
            ) == Some(post) && extends_scope(scope@, post) && params_fit(old(self).fns@) ==> r is Ok,
            r matches Ok(l) ==> ({
                let gb = gen_branch(
                    old(self).fns@,
                    *scope,
                    *cond,
                    block@,
                    ret,
                    *lup,
                    end,
                    old(self).insts@.len() as int,
                    old(self).labels@,
                );
                gen_ok(*old(self), *final(self), gb.0) && l == gb.1
            }),
        decreases block, 2nat,
    {
        proof {
            if block_scope(self.fns@, scope.has_result, pre, block@, lup is Some) == Some(post) {
                lemma_block_scope_grows(self.fns@, scope.has_result, pre, block@, lup is Some);
                if extends_scope(scope@, post) {
                    lemma_extends_scope_trans(pre, post, scope@);
                }
            }
        }
        let ghost s0 = *self;
        let then_label = self.label_in(Ghost(c0), Ghost(pending));
        let else_label = self.label_in(Ghost(c0), Ghost(pending.insert(then_label as int)));
        let ghost pend = pending.insert(then_label as int).insert(else_label as int);
        let ghost p = *self;
        let a = self.compile_expr(cond, scope, loc, Ghost(pre));
        if a.is_err() {
            return Err(a.unwrap_err());
        }
        proof {
            lemma_tracks_sub(c0, p, *self, pend);
        }
        self.emit_in(Inst::JmpIf(Target::Label(then_label)), Ghost(c0), Ghost(pend));
        self.emit_in(Inst::Jmp(Target::Label(else_label)), Ghost(c0), Ghost(pend));
        self.place_in(then_label, Ghost(c0), Ghost(pend));
        let ghost cc = expr_code(s0.fns@, *scope, *cond) + seq![
            Inst::JmpIf(Target::Label(then_label)),
            Inst::Jmp(Target::Label(else_label)),
        ];
        proof {
            lemma_tracks_weaken(c0, *self, pend.remove(then_label as int), pending.insert(else_label as int));
            assert(self.insts@ =~= s0.insts@ + cc);
            lemma_gen_append(s0, *self, cc, self.labels@);
        }
        let ghost s1 = *self;
        let ghost pend = pending.insert(else_label as int);
        let ghost p = *self;
        let a = self.compile_block(block, scope, ret, lup, Ghost(pre));
        if a.is_err() {
            return Err(a.unwrap_err());
        }
        proof {
            lemma_tracks_sub(c0, p, *self, pend);
            let gbk = gen_block(s0.fns@, *scope, block@, ret, *lup, s1.insts@.len() as int, s1.labels@);
            lemma_gen_then(s0, s1, *self, Gen { code: cc, labels: s1.labels@ }, gbk);
        }
        let ghost s2 = *self;
        self.emit_in(Inst::Jmp(Target::Label(end)), Ghost(c0), Ghost(pend));
        proof {
            let gbk = gen_block(s0.fns@, *scope, block@, ret, *lup, s1.insts@.len() as int, s1.labels@);
            assert(self.insts@ =~= s2.insts@ + seq![Inst::Jmp(Target::Label(end))]);
            lemma_gen_append(s2, *self, seq![Inst::Jmp(Target::Label(end))], s2.labels@);
            lemma_gen_then(
                s0,
                s2,
                *self,
                Gen { code: cc + gbk.code, labels: s2.labels@ },
                Gen { code: seq![Inst::Jmp(Target::Label(end))], labels: s2.labels@ },
            );
        }
        Ok(else_label)
    }

    fn compile_block(
        &mut self,
        block: &Block,
        scope: &LocalScope,
        ret: usize,
        lup: &Option<Loop>,
        Ghost(pre): Ghost<Seq<Seq<u8>>>,
    ) -> (r: Result<(), CompileError>)
        requires
            old(self).wf(),
            ret < old(self).labels@.len(),
            lup matches Some(l) ==> l.start < old(self).labels@.len() && l.end < old(
                self,
            ).labels@.len(),
        ensures
            final(self).wf(),
            final(self).fns == old(self).fns,
            r is Ok ==> final(self).extends(old(self)),
            params_fit(old(self).fns@) && block_owed(old(self).fns@, *scope, pre, block@, lup is Some)
                ==> r is Ok,
            r is Ok ==> gen_ok(
                *old(self),
                *final(self),
                gen_block(
                    old(self).fns@,
                    *scope,
                    block@,
                    ret,
                    *lup,
                    old(self).insts@.len() as int,
                    old(self).labels@,
                ),
            ),
        decreases block, 1nat,
    {
        let ghost fns = self.fns@;
        let ghost il = lup is Some;
        let ghost rr = scope.has_result;
        let ghost owed = block_owed(fns, *scope, pre, block@, il);
        let ghost whole = block_scope(fns, rr, pre, block@, il)->Some_0;
        let ghost mut cur = pre;
        proof {
            lemma_extends_refl(*self);
            assert(block@.subrange(0, 0) =~= Seq::<Stmt>::empty());
            assert(self.insts@ =~= self.insts@ + Seq::<Inst>::empty());
            lemma_gen_append(*self, *self, Seq::empty(), self.labels@);
        }
        let mut i: usize = 0;
        while i < block.len()
            invariant
                self.wf(),
                self.fns == old(self).fns,
                self.extends(old(self)),
                ret < old(self).labels@.len(),
                lup matches Some(l) ==> l.start < old(self).labels@.len() && l.end < old(
                    self,
                ).labels@.len(),
                i <= block@.len(),
                fns == old(self).fns@,
                il == lup is Some,
                rr == scope.has_result,
                owed == block_owed(old(self).fns@, *scope, pre, block@, lup is Some),
                owed ==> block_scope(fns, rr, pre, block@.subrange(0, i as int), il) == Some(cur),
                owed ==> block_scope(fns, rr, pre, block@, il) == Some(whole),
                owed ==> extends_scope(scope@, whole),
                gen_ok(
                    *old(self),
                    *self,
                    gen_block(
                        fns,
                        *scope,
                        block@.subrange(0, i as int),
                        ret,
                        *lup,
                        old(self).insts@.len() as int,
                        old(self).labels@,
                    ),
                ),
            decreases block@.len() - i,
        {
            proof {
                assert(decreases_to!(block => block@[i as int]));
                if owed {
                    lemma_block_prefix(fns, rr, pre, block@, i + 1, il);
                    assert(block@.subrange(0, i + 1).drop_last() =~= block@.subrange(0, i as int));
                    assert(block@.subrange(0, i + 1).last() == block@[i as int]);
                    lemma_extends_scope_trans(
                        block_scope(fns, rr, pre, block@.subrange(0, i + 1), il)->Some_0,
                        whole,
                        scope@,
                    );
                    assert(block_scope(fns, rr, pre, block@.subrange(0, i + 1), il) == stmt_scope(
                        fns,
                        rr,
                        cur,
                        block@[i as int],
                        il,
                    ));
                    assert(stmt_owed(fns, *scope, cur, block@[i as int], il));
                }
            }
            let ghost c0 = *self;
            let a = self.compile_stmt(&block[i], scope, ret, lup, Ghost(cur));
            if a.is_err() {
                return a;
            }
            proof {
                lemma_extends_trans(*old(self), c0, *self);
                if owed {
                    cur = block_scope(fns, rr, pre, block@.subrange(0, i + 1), il)->Some_0;
                }
                let gprev = gen_block(
                    fns,
                    *scope,
                    block@.subrange(0, i as int),
                    ret,
                    *lup,
                    old(self).insts@.len() as int,
                    old(self).labels@,
                );
                let gs = gen_stmt(fns, *scope, block@[i as int], ret, *lup, c0.insts@.len() as int, c0.labels@);
                lemma_gen_then(*old(self), c0, *self, gprev, gs);
                let sub = block@.subrange(0, i + 1);
                assert(sub.drop_last() =~= block@.subrange(0, i as int));
                assert(sub.last() == block@[i as int]);
            }
            i = i + 1;
        }
        proof {
            assert(block@.subrange(0, i as int) =~= block@);
        }
        Ok(())
    }
}

/// A state that tracks fewer pending labels tracks more.
proof fn lemma_tracks_weaken(a: Compiler, b: Compiler, p1: Set<int>, p2: Set<int>)
    requires
        b.tracks(&a, p1),
        p1.subset_of(p2),
    ensures
        b.tracks(&a, p2),
{
}

pub open spec fn word_main() -> Seq<u8> {
    seq![109u8, 97, 105, 110]
}

/// The address that a target resolves to, once functions and labels are placed.
pub open spec fn resolve_target(t: Target, entries: Seq<usize>, labels: Seq<Option<usize>>) -> Target {
    match t {
        Target::Fn(k) => Target::Addr(entries[k as int]),
        Target::Label(l) => Target::Addr(labels[l as int]->Some_0),
        Target::Addr(a) => Target::Addr(a),
    }
}

pub open spec fn resolve_inst(i: Inst, entries: Seq<usize>, labels: Seq<Option<usize>>) -> Inst {
    match i {
        Inst::Call(t) => Inst::Call(resolve_target(t, entries, labels)),
        Inst::JmpIf(t) => Inst::JmpIf(resolve_target(t, entries, labels)),
        Inst::Jmp(t) => Inst::Jmp(resolve_target(t, entries, labels)),
        _ => i,
    }
}

proof fn lemma_resolve_like(a: Inst, b: Inst, entries: Seq<usize>, labels: Seq<Option<usize>>)
    requires
        inst_like(a, b),
    ensures
        inst_like(resolve_inst(a, entries, labels), resolve_inst(b, entries, labels)),
{
}

/// Replaces each call and jump target by its address.
fn resolve(insts: &mut Vec<Inst>, entries: &Vec<usize>, labels: &Vec<Option<usize>>)
    requires
        forall|i: int|
            0 <= i < old(insts)@.len() ==> match #[trigger] inst_target(old(insts)@[i]) {
                Some(t) => target_in(t, entries@.len() as int, labels@.len() as int),
                None => true,
            },
        forall|k: int| 0 <= k < entries@.len() ==> 2 <= #[trigger] entries@[k] < old(insts)@.len(),
        forall|l: int|
            0 <= l < labels@.len() ==> (#[trigger] labels@[l]) is Some && 2 <= labels@[l]->Some_0
                < old(insts)@.len(),
    ensures
        final(insts)@.len() == old(insts)@.len(),
        forall|i: int|
            0 <= i < old(insts)@.len() ==> #[trigger] final(insts)@[i] == resolve_inst(
                old(insts)@[i],
                entries@,
                labels@,
            ),
        targets_resolved(final(insts)@),
{
    let ghost orig = insts@;
    let mut i: usize = 0;
    while i < insts.len()
        invariant
            insts@.len() == orig.len(),
            i <= orig.len(),
            forall|q: int| 0 <= q < i ==> #[trigger] insts@[q] == resolve_inst(orig[q], entries@, labels@),
            forall|q: int| i <= q < orig.len() ==> #[trigger] insts@[q] == orig[q],
            forall|q: int|
                0 <= q < orig.len() ==> match #[trigger] inst_target(orig[q]) {
                    Some(t) => target_in(t, entries@.len() as int, labels@.len() as int),
                    None => true,
                },
            forall|k: int| 0 <= k < entries@.len() ==> 2 <= #[trigger] entries@[k] < orig.len(),
            forall|l: int|
                0 <= l < labels@.len() ==> (#[trigger] labels@[l]) is Some && 2 <= labels@[l]->Some_0
                    < orig.len(),
        decreases orig.len() - i,
    {
        let t = match &insts[i] {
            Inst::Call(t) => Some(*t),
            Inst::JmpIf(t) => Some(*t),
            Inst::Jmp(t) => Some(*t),
            _ => None,
        };
        proof {
            assert(insts@[i as int] == orig[i as int]);
            assert(match inst_target(orig[i as int]) {
                Some(t) => target_in(t, entries@.len() as int, labels@.len() as int),
                None => true,
            });
        }
        if let Some(t) = t {
            let a = match t {
                Target::Fn(k) => entries[k],
                Target::Label(l) => match labels[l] {
                    Some(v) => v,
                    None => HALT,
                },
                Target::Addr(a) => a,
            };
            let n = match &insts[i] {
                Inst::Call(_) => Inst::Call(Target::Addr(a)),
                Inst::JmpIf(_) => Inst::JmpIf(Target::Addr(a)),
                _ => Inst::Jmp(Target::Addr(a)),
            };
            insts.set(i, n);
        }
        i = i + 1;
    }
    proof {
        assert forall|q: int| 0 <= q < insts@.len() implies match #[trigger] inst_target(insts@[q]) {
            Some(Target::Addr(a)) => a < insts@.len() || a == HALT,
            Some(_) => false,
            None => true,
        } by {
            assert(insts@[q] == resolve_inst(orig[q], entries@, labels@));
            if let Some(t) = inst_target(orig[q]) {
                assert(target_in(t, entries@.len() as int, labels@.len() as int));
            }
        }
    }
}

/// The code of each function lies where `entries` and `rets` say: the prologue at its
/// entry, then its body, then the epilogue at its return address; functions follow each
/// other in declaration order after the two header instructions.
pub open spec fn layout_ok(
    insts: Seq<Inst>,
    fns: Seq<FnDecl>,
    scopes: Seq<LocalScope>,
    entries: Seq<usize>,
    rets: Seq<usize>,
) -> bool {
    &&& entries.len() == fns.len()
    &&& rets.len() == fns.len()
    &&& (fns.len() == 0 ==> insts.len() == 2)
    &&& (fns.len() > 0 ==> entries[0] == 2 && rets[fns.len() - 1] + 3 == insts.len())
    &&& forall|k: int|
        0 <= k < fns.len() ==> {
            &&& #[trigger] entries[k] + 4 <= rets[k]
            &&& rets[k] + 3 <= insts.len()
            &&& insts.subrange(entries[k] as int, entries[k] + 4) == prologue(
                fns[k].params@.len(),
                fns[k].has_result,
                slot_count(scopes[k]),
            )
            &&& insts.subrange(rets[k] as int, rets[k] + 3) == epilogue(
                fns[k].params@.len(),
                slot_count(scopes[k]),
            )
            &&& (k + 1 < fns.len() ==> entries[k + 1] == rets[k] + 3)
        }
}

/// Every function has few enough parameters that its frame size fits in a word.
pub open spec fn params_fit(fns: Seq<FnDecl>) -> bool {
    forall|k: int| 0 <= k < fns.len() ==> (#[trigger] fns[k]).params@.len() <= usize::MAX - 3
}

/// The counts of a function's frame fit in a word.
pub open spec fn fn_fits(f: FnDecl, sc: LocalScope) -> bool {
    &&& f.params@.len() <= usize::MAX - 3
    &&& sc.names@.len() - f.params@.len() <= usize::MAX - 1
}

/// The counts of every function's frame fit in a word.
pub open spec fn counts_fit(fns: Seq<FnDecl>, scopes: Seq<LocalScope>) -> bool {
    forall|k: int| 0 <= k < fns.len() ==> fn_fits(#[trigger] fns[k], scopes[k])
}

/// The scopes are those that semantic analysis gives the functions.
pub open spec fn analyzed(fns: Seq<FnDecl>, scopes: Seq<LocalScope>) -> bool {
    &&& scopes.len() == fns.len()
    &&& forall|k: int|
        0 <= k < fns.len() ==> (#[trigger] scopes[k]).has_result == fns[k].has_result
            && fn_scope(fns, fns[k]) == Some(scopes[k]@)
}

/// The scopes fit the functions: one per function, with its return slot, and at least
/// as many names as the function has parameters.
pub open spec fn scopes_fit(fns: Seq<FnDecl>, scopes: Seq<LocalScope>) -> bool {
    &&& scopes.len() == fns.len()
    &&& forall|k: int|
        0 <= k < fns.len() ==> (#[trigger] scopes[k]).has_result == fns[k].has_result
            && scopes[k].names@.len() >= fns[k].params@.len()
}

proof fn lemma_prefix_subrange(a: Seq<Inst>, b: Seq<Inst>, i: int, j: int)
    requires
        b.len() <= a.len(),
        a.subrange(0, b.len() as int) == b,
        0 <= i <= j <= b.len(),
    ensures
        a.subrange(i, j) == b.subrange(i, j),
{
    assert(a.subrange(i, j) =~= b.subrange(i, j)) by {
        assert forall|q: int| 0 <= q < j - i implies a.subrange(i, j)[q] == b.subrange(i, j)[q] by {
            assert(a.subrange(0, b.len() as int)[i + q] == a[i + q]);
        }
    }
}

/// Function `f` lies in `insts` with its prologue at `entry` and epilogue at `ret`.
pub open spec fn fn_laid_out(insts: Seq<Inst>, f: FnDecl, sc: LocalScope, entry: usize, ret: usize) -> bool {
    &&& entry + 4 <= ret
    &&& ret + 3 <= insts.len()
    &&& insts.subrange(entry as int, entry + 4) == prologue(f.params@.len(), f.has_result, slot_count(sc))
    &&& insts.subrange(ret as int, ret + 3) == epilogue(f.params@.len(), slot_count(sc))
}

proof fn lemma_laid_out_grows(a: Seq<Inst>, b: Seq<Inst>, f: FnDecl, sc: LocalScope, entry: usize, ret: usize)
    requires
        b.len() <= a.len(),
        a.subrange(0, b.len() as int) == b,
        fn_laid_out(b, f, sc, entry, ret),
    ensures
        fn_laid_out(a, f, sc, entry, ret),
{
    lemma_prefix_subrange(a, b, entry as int, entry + 4);
    lemma_prefix_subrange(a, b, ret as int, ret + 3);
}

impl<'a> Compiler<'a> {
    /// Every label is placed, before the last instruction.
    spec fn placed(&self) -> bool {
        forall|l: int|
            0 <= l < self.labels@.len() ==> (#[trigger] self.labels@[l]) is Some
                && self.labels@[l]->Some_0 < self.insts@.len()
    }

    /// Emits one function: its prologue, its body and its epilogue. Returns where the
    /// prologue and the epilogue start.
    fn compile_fn(&mut self, f: &FnDecl, sc: &LocalScope) -> (r: Result<(usize, usize), CompileError>)
        requires
            old(self).wf(),
            old(self).placed(),
            sc.has_result == f.has_result,
            sc.names@.len() >= f.params@.len(),
        ensures
            r is Ok ==> final(self).floor == old(self).floor,
            final(self).wf(),
            final(self).fns == old(self).fns,
            r matches Ok((entry, ret)) ==> {
                &&& final(self).placed()
                &&& final(self).insts@.len() >= old(self).insts@.len()
                &&& final(self).insts@.subrange(0, old(self).insts@.len() as int) == old(self).insts@
                &&& entry == old(self).insts@.len()
                &&& ret + 3 == final(self).insts@.len()
                &&& fn_laid_out(final(self).insts@, *f, *sc, entry, ret)
            },
            fn_scope(old(self).fns@, *f) == Some(sc@) && params_fit(old(self).fns@) && fn_fits(*f, *sc)
                ==> r is Ok,
            !fn_fits(*f, *sc) ==> (r matches Err(e) && e.kind == ErrorKind::TooLarge),
            r is Ok ==> gen_ok(
                *old(self),
                *final(self),
                gen_fn(old(self).fns@, *f, *sc, old(self).insts@.len() as int, old(self).labels@),
            ),
    {
        proof {
            assert(sc@.subrange(0, sc@.len() as int) =~= sc@);
        }
        let nparams = f.params.len();
        let r: usize = if f.has_result {
            1
        } else {
            0
        };
        if nparams > usize::MAX - 3 || sc.names.len() - nparams > usize::MAX - 1 {
            return Err(CompileError { loc: f.loc, kind: ErrorKind::TooLarge });
        }
        assert(fn_fits(*f, *sc));
        let frame = nparams + r + 2;
        let extra = sc.names.len() - nparams + r;
        let ghost c0 = *self;
        let entry = self.insts.len();
        let ret = self.new_label();
        self.emit(Inst::GetReg(Reg::Sp2));
        self.emit(Inst::Sp2FromSp);
        self.emit(Inst::Sp2Sub(frame));
        self.emit(Inst::SpAdd(extra));
        let ghost c_pro = *self;
        proof {
            assert(self.insts@.subrange(entry as int, entry + 4) =~= prologue(
                f.params@.len(),
                f.has_result,
                slot_count(*sc),
            ));
            assert(self.insts@.subrange(0, entry as int) =~= c0.insts@);
            assert(self.insts@ =~= c0.insts@ + prologue(f.params@.len(), f.has_result, slot_count(*sc)));
            lemma_gen_append(c0, *self, prologue(f.params@.len(), f.has_result, slot_count(*sc)), self.labels@);
        }
        let b = self.compile_block(&f.body, sc, ret, &None, Ghost(names_of(f.params@)));
        if b.is_err() {
            return Err(b.unwrap_err());
        }
        let ghost c_body = *self;
        let ghost gb = gen_block(c0.fns@, *sc, f.body@, ret, None, c_pro.insts@.len() as int, c_pro.labels@);
        proof {
            lemma_gen_then(
                c0,
                c_pro,
                c_body,
                Gen {
                    code: prologue(f.params@.len(), f.has_result, slot_count(*sc)),
                    labels: c_pro.labels@,
                },
                gb,
            );
        }
        let ret_ip = self.insts.len();
        self.set_label(ret);
        let ghost c_set = *self;
        self.emit(Inst::SpSub(extra));
        self.emit(Inst::SetReg(Reg::Sp2));
        self.emit(Inst::SetReg(Reg::Ip));
        proof {
            let pro = prologue(f.params@.len(), f.has_result, slot_count(*sc));
            let epi = epilogue(f.params@.len(), slot_count(*sc));
            lemma_gen_relabel(c0, c_body, c_set, Gen { code: pro + gb.code, labels: gb.labels });
            assert(self.insts@ =~= c_set.insts@ + epi);
            lemma_gen_append(c_set, *self, epi, c_set.labels@);
            lemma_gen_then(c0, c_set, *self, Gen { code: pro + gb.code, labels: c_set.labels@ }, Gen {
                code: epi,
                labels: c_set.labels@,
            });
        }
        proof {
            assert(self.insts@.subrange(ret_ip as int, ret_ip + 3) =~= epilogue(
                f.params@.len(),
                slot_count(*sc),
            ));
            assert(self.insts@.subrange(0, c_body.insts@.len() as int) =~= c_body.insts@);
            lemma_prefix_subrange(c_body.insts@, c_pro.insts@, 0, entry as int);
            lemma_prefix_subrange(self.insts@, c_body.insts@, 0, entry as int);
            assert(self.insts@.subrange(0, entry as int) =~= c0.insts@);
            lemma_prefix_subrange(c_body.insts@, c_pro.insts@, entry as int, entry + 4);
            lemma_prefix_subrange(self.insts@, c_body.insts@, entry as int, entry + 4);
            assert forall|l: int| 0 <= l < self.labels@.len() implies (#[trigger] self.labels@[l]) is Some
                && self.labels@[l]->Some_0 < self.insts@.len() by {
                if l != ret && l < c0.labels@.len() {
                    assert(c_body.labels@[l] == c_pro.labels@[l]);
                    assert(c_pro.labels@[l] == c0.labels@[l]);
                }
                if l != ret && l >= c_pro.labels@.len() {
                    assert(c_body.labels@[l] is Some);
                }
            }
        }
        Ok((entry, ret_ip))
    }
}

/// The two header instructions call `main` and then halt.
pub open spec fn header_ok(insts: Seq<Inst>, fns: Seq<FnDecl>, entries: Seq<usize>) -> bool {
    &&& insts.len() >= 2
    &&& insts[0] == Inst::Call(Target::Addr(entries[find_fn(fns, word_main())]))
    &&& insts[1] == Inst::Jmp(Target::Addr(HALT))
}

/// The instructions are the header and then each function, laid out in order.
pub open spec fn laid_out(insts: Seq<Inst>, fns: Seq<FnDecl>, scopes: Seq<LocalScope>) -> bool {
    exists|entries: Seq<usize>, rets: Seq<usize>|
        #[trigger] layout_ok(insts, fns, scopes, entries, rets) && header_ok(insts, fns, entries)
}

/// Resolution leaves the prologues and epilogues where they were.
proof fn lemma_resolved_layout(
    insts: Seq<Inst>,
    orig: Seq<Inst>,
    fns: Seq<FnDecl>,
    scopes: Seq<LocalScope>,
    es: Seq<usize>,
    rets: Seq<usize>,
    labels: Seq<Option<usize>>,
)
    requires
        insts.len() == orig.len(),
        forall|i: int| 0 <= i < orig.len() ==> #[trigger] insts[i] == resolve_inst(orig[i], es, labels),
        es.len() == fns.len(),
        rets.len() == fns.len(),
        fns.len() == 0 ==> orig.len() == 2,
        fns.len() > 0 ==> es[0] == 2 && rets[fns.len() - 1] + 3 == orig.len(),
        forall|j: int| 0 <= j < fns.len() ==> #[trigger] fn_laid_out(orig, fns[j], scopes[j], es[j], rets[j]),
        forall|j: int| 1 <= j < fns.len() ==> #[trigger] es[j] == rets[j - 1] + 3,
    ensures
        layout_ok(insts, fns, scopes, es, rets),
{
    assert forall|j: int| 0 <= j < fns.len() implies {
        &&& #[trigger] es[j] + 4 <= rets[j]
        &&& rets[j] + 3 <= insts.len()
        &&& insts.subrange(es[j] as int, es[j] + 4) == prologue(
            fns[j].params@.len(),
            fns[j].has_result,
            slot_count(scopes[j]),
        )
        &&& insts.subrange(rets[j] as int, rets[j] + 3) == epilogue(
            fns[j].params@.len(),
            slot_count(scopes[j]),
        )
        &&& (j + 1 < fns.len() ==> es[j + 1] == rets[j] + 3)
    } by {
        assert(fn_laid_out(orig, fns[j], scopes[j], es[j], rets[j]));
        let e = es[j] as int;
        let r = rets[j] as int;
        assert forall|q: int| 0 <= q < 4 implies #[trigger] insts.subrange(e, e + 4)[q] == orig.subrange(e, e + 4)[q] by {
            assert(orig.subrange(e, e + 4)[q] == orig[e + q]);
            assert(insts[e + q] == resolve_inst(orig[e + q], es, labels));
        }
        assert(insts.subrange(e, e + 4) =~= orig.subrange(e, e + 4));
        assert forall|q: int| 0 <= q < 3 implies #[trigger] insts.subrange(r, r + 3)[q] == orig.subrange(r, r + 3)[q] by {
            assert(orig.subrange(r, r + 3)[q] == orig[r + q]);
            assert(insts[r + q] == resolve_inst(orig[r + q], es, labels));
        }
        assert(insts.subrange(r, r + 3) =~= orig.subrange(r, r + 3));
        if j + 1 < fns.len() {
            assert(es[j + 1] == rets[(j + 1) - 1] + 3);
        }
    }
}

/// Compiles a program to instructions: the header that calls `main` and then halts, and
/// each function in declaration order, with every call and jump resolved.
pub fn compile(ast: &Ast, scopes: &Vec<LocalScope>) -> (r: Result<Vec<Inst>, CompileError>)
    requires
        scopes_fit(ast.fn_decls@, scopes@),
    ensures
        find_fn(ast.fn_decls@, word_main()) < 0 ==> (r matches Err(e) && e.kind == ErrorKind::NoMain),
        r matches Ok(insts) ==> targets_resolved(insts@) && laid_out(
            insts@,
            ast.fn_decls@,
            scopes@,
        ),
        r matches Ok(insts) ==> compiled_code(insts@, ast.fn_decls@, scopes@),
        analyzed(ast.fn_decls@, scopes@) && find_fn(ast.fn_decls@, word_main()) >= 0 ==> (r is Ok
            <==> counts_fit(ast.fn_decls@, scopes@)),
        r matches Err(e) && e.kind == ErrorKind::TooLarge ==> !counts_fit(ast.fn_decls@, scopes@)
            || !analyzed(ast.fn_decls@, scopes@),
{
    let fns = &ast.fn_decls;
    let main_name: Vec<u8> = vec![109u8, 97, 105, 110];
    proof {
        assert(main_name@ =~= word_main());
    }
    let main = match find_fn_index(fns, &main_name) {
        Some(k) => k,
        None => {
            return Err(CompileError { loc: Loc { row: 1, col: 1 }, kind: ErrorKind::NoMain });
        },
    };
    let mut c = Compiler { fns, insts: Vec::new(), labels: Vec::new(), floor: Ghost(0) };
    c.emit(Inst::Call(Target::Fn(main)));
    c.emit(Inst::Jmp(Target::Addr(HALT)));
    c.floor = Ghost(2);
    let mut entries: Vec<usize> = Vec::new();
    let ghost mut rets: Seq<usize> = Seq::empty();
    proof {
        assert(entries@ =~= Seq::<usize>::empty());
    }
    let mut k: usize = 0;
    while k < fns.len()
        invariant
            c.wf(),
            c.floor@ == 2,
            c.fns == fns,
            fns@ == ast.fn_decls@,
            scopes_fit(fns@, scopes@),
            main < fns@.len(),
            main as int == find_fn(fns@, word_main()),
            k <= fns@.len(),
            c.insts@.len() >= 2,
            c.insts@[0] == Inst::Call(Target::Fn(main)),
            c.insts@[1] == Inst::Jmp(Target::Addr(HALT)),
            entries@.len() == k,
            rets.len() == k,
            k == 0 ==> c.insts@.len() == 2,
            k > 0 ==> entries@[0] == 2 && rets[k - 1] + 3 == c.insts@.len(),
            c.placed(),
            forall|j: int| 0 <= j < k ==> #[trigger] entries@[j] < c.insts@.len(),
            forall|j: int| 0 <= j < k ==> #[trigger] fn_laid_out(c.insts@, fns@[j], scopes@[j], entries@[j], rets[j]),
            forall|j: int| 0 <= j < k ==> #[trigger] entries@[j] + 4 <= rets[j],
            forall|j: int| 1 <= j < k ==> #[trigger] entries@[j] == rets[j - 1] + 3,
            analyzed(fns@, scopes@) == analyzed(ast.fn_decls@, scopes@),
            forall|j: int| 0 <= j < k ==> fn_fits(#[trigger] fns@[j], scopes@[j]),
            code_at(c.insts@, 2, gen_fns(fns@, scopes@, k as nat).0.code),
            c.insts@.len() == 2 + gen_fns(fns@, scopes@, k as nat).0.code.len(),
            c.labels@ == gen_fns(fns@, scopes@, k as nat).0.labels,
            entries@ == gen_fns(fns@, scopes@, k as nat).1,
        decreases fns@.len() - k,
    {
        let ghost c_start = c;
        proof {
            if analyzed(fns@, scopes@) && counts_fit(fns@, scopes@) {
                assert(fn_fits(fns@[k as int], scopes@[k as int]));
                assert forall|q: int| 0 <= q < fns@.len() implies (#[trigger] fns@[q]).params@.len()
                    <= usize::MAX - 3 by {
                    assert(fn_fits(fns@[q], scopes@[q]));
                }
                assert(fn_scope(fns@, fns@[k as int]) == Some(scopes@[k as int]@));
            }
        }
        let res = c.compile_fn(&fns[k], &scopes[k]);
        let (entry, ret_ip) = match res {
            Err(e) => {
                return Err(e);
            },
            Ok(p) => p,
        };
        entries.push(entry);
        proof {
            let p = gen_fns(fns@, scopes@, k as nat);
            let gf = gen_fn(fns@, fns@[k as int], scopes@[k as int], c_start.insts@.len() as int, c_start.labels@);
            lemma_seq_code(2, c_start.insts@, c.insts@, p.0.code, gf.code);
            assert(entries@ =~= p.1.push(c_start.insts@.len() as usize));
        }
        proof {
            rets = rets.push(ret_ip as usize);
            assert(c.insts@[0] == c_start.insts@[0]);
            assert(c.insts@[1] == c_start.insts@[1]);
            assert forall|j: int| 0 <= j < k + 1 implies #[trigger] fn_laid_out(c.insts@, fns@[j], scopes@[j], entries@[j], rets[j]) by {
                if j < k {
                    lemma_laid_out_grows(c.insts@, c_start.insts@, fns@[j], scopes@[j], entries@[j], rets[j]);
                }
            }
            assert forall|j: int| 1 <= j < k + 1 implies #[trigger] entries@[j] == rets[j - 1] + 3 by {
                if j == k {
                    assert(entries@[j] == c_start.insts@.len());
                }
            }
        }
        k = k + 1;
    }
    let mut insts = c.insts;
    resolve(&mut insts, &entries, &c.labels);
    proof {
        let g = gen_fns(fns@, scopes@, fns@.len());
        let pre = program_code(fns@, scopes@);
        assert forall|i: int| 0 <= i < pre.len() implies inst_like(
            insts@[i],
            resolve_inst(#[trigger] pre[i], g.1, g.0.labels),
        ) by {
            assert(insts@[i] == resolve_inst(c.insts@[i], entries@, c.labels@));
            if i >= 2 {
                assert(pre[i] == g.0.code[i - 2]);
                assert(inst_like(c.insts@[2 + (i - 2)], g.0.code[i - 2]));
                lemma_resolve_like(c.insts@[i], pre[i], entries@, c.labels@);
            }
        }
        assert(compiled_code(insts@, fns@, scopes@));
        assert(counts_fit(fns@, scopes@));
    }
    proof {
        lemma_resolved_layout(insts@, c.insts@, fns@, scopes@, entries@, rets, c.labels@);
        assert(insts@[0] == resolve_inst(c.insts@[0], entries@, c.labels@));
        assert(insts@[1] == resolve_inst(c.insts@[1], entries@, c.labels@));
        assert(fns@ == ast.fn_decls@);
        assert(insts@[0] == Inst::Call(Target::Addr(entries@[find_fn(ast.fn_decls@, word_main())])));
        assert(layout_ok(insts@, ast.fn_decls@, scopes@, entries@, rets));
        assert(header_ok(insts@, ast.fn_decls@, entries@));
    }
    Ok(insts)
}

/// An instruction that only a prologue or an epilogue holds.
pub open spec fn frame_inst(i: Inst) -> bool {
    i == Inst::GetReg(Reg::Sp2) || i == Inst::Sp2FromSp || i == Inst::SetReg(Reg::Sp2) || i
        == Inst::SetReg(Reg::Ip)
}

/// Code without frame instructions.
pub open spec fn frame_free(code: Seq<Inst>) -> bool {
    forall|i: int| 0 <= i < code.len() ==> !frame_inst(#[trigger] code[i])
}

proof fn lemma_frame_free_add(a: Seq<Inst>, b: Seq<Inst>)
    requires
        frame_free(a),
        frame_free(b),
    ensures
        frame_free(a + b),
{
    assert forall|i: int| 0 <= i < (a + b).len() implies !frame_inst(#[trigger] (a + b)[i]) by {
        if i < a.len() {
            assert((a + b)[i] == a[i]);
        } else {
            assert((a + b)[i] == b[i - a.len()]);
        }
    }
}

pub proof fn lemma_expr_code_frame_free(fns: Seq<FnDecl>, sc: LocalScope, e: Expr)
    ensures
        frame_free(expr_code(fns, sc, e)),
    decreases e,
{
    match e {
        Expr::BinOp { lhs, rhs, op } => {
            lemma_expr_code_frame_free(fns, sc, *lhs);
            lemma_expr_code_frame_free(fns, sc, *rhs);
            lemma_frame_free_add(expr_code(fns, sc, *lhs), expr_code(fns, sc, *rhs));
            lemma_frame_free_add(expr_code(fns, sc, *lhs) + expr_code(fns, sc, *rhs), seq![Inst::Op(op)]);
        },
        Expr::FnCall { name, args } => {
            lemma_args_code_frame_free(fns, sc, args@);
            lemma_frame_free_add(seq![Inst::SpAdd(1)], args_code(fns, sc, args@));
            lemma_frame_free_add(
                seq![Inst::SpAdd(1)] + args_code(fns, sc, args@),
                seq![
                    Inst::Call(Target::Fn(find_fn(fns, name@) as usize)),
                    Inst::SpSub(args@.len() as usize),
                ],
            );
        },
        _ => {},
    }
}

pub proof fn lemma_args_code_frame_free(fns: Seq<FnDecl>, sc: LocalScope, args: Seq<Expr>)
    ensures
        frame_free(args_code(fns, sc, args)),
    decreases args,
{
    if args.len() > 0 {
        lemma_args_code_frame_free(fns, sc, args.drop_last());
        lemma_expr_code_frame_free(fns, sc, args.last());
        lemma_frame_free_add(args_code(fns, sc, args.drop_last()), expr_code(fns, sc, args.last()));
    }
}

/// The code of a statement holds no frame instruction: prologues and epilogues are the
/// only places of those.
pub proof fn law_stmt_frame_free(
    fns: Seq<FnDecl>,
    sc: LocalScope,
    s: Stmt,
    ret: usize,
    lup: Option<Loop>,
    ip: int,
    labels: Seq<Option<usize>>,
)
    ensures
        frame_free(gen_stmt(fns, sc, s, ret, lup, ip, labels).code),
    decreases s, 0nat,
{
    match s.kind {
        StmtKind::VarDeclAssign { name, expr } => {
            lemma_expr_code_frame_free(fns, sc, expr);
            lemma_frame_free_add(expr_code(fns, sc, expr), seq![Inst::SetLocal(slot_spec(sc, name@))]);
            assert(expr_code(fns, sc, expr).push(Inst::SetLocal(slot_spec(sc, name@))) =~= expr_code(fns, sc, expr) + seq![Inst::SetLocal(slot_spec(sc, name@))]);
        },
        StmtKind::VarAssign { name, expr } => {
            lemma_expr_code_frame_free(fns, sc, expr);
            lemma_frame_free_add(expr_code(fns, sc, expr), seq![Inst::SetLocal(slot_spec(sc, name@))]);
            assert(expr_code(fns, sc, expr).push(Inst::SetLocal(slot_spec(sc, name@))) =~= expr_code(fns, sc, expr) + seq![Inst::SetLocal(slot_spec(sc, name@))]);
        },
        StmtKind::FnCall { name, args } => {
            lemma_args_code_frame_free(fns, sc, args@);
            lemma_frame_free_add(seq![Inst::SpAdd(1)], args_code(fns, sc, args@));
            lemma_frame_free_add(
                seq![Inst::SpAdd(1)] + args_code(fns, sc, args@),
                seq![
                    Inst::Call(Target::Fn(find_fn(fns, name@) as usize)),
                    Inst::SpSub((args@.len() + 1) as usize),
                ],
            );
        },
        StmtKind::ReturnVal(e) => {
            lemma_expr_code_frame_free(fns, sc, e);
            lemma_frame_free_add(expr_code(fns, sc, e), seq![Inst::SetLocal(0), Inst::Jmp(Target::Label(ret))]);
        },
        StmtKind::If { cond, then_block, elseifs, elze } => {
            let end = labels.len() as usize;
            let b1 = gen_branch(fns, sc, cond, then_block@, ret, lup, end, ip, labels.push(None));
            let a = gen_arms(fns, sc, elseifs@, ret, lup, end, ip + b1.0.code.len(), b1.0.labels, b1.1);
            let ip2 = ip + b1.0.code.len() + a.0.code.len();
            let eb = gen_block(fns, sc, elze@, ret, lup, ip2, place(a.0.labels, a.1 as int, ip2));
            law_branch_frame_free(fns, sc, cond, then_block@, ret, lup, end, ip, labels.push(None));
            law_arms_frame_free(fns, sc, elseifs@, ret, lup, end, ip + b1.0.code.len(), b1.0.labels, b1.1);
            law_block_frame_free(fns, sc, elze@, ret, lup, ip2, place(a.0.labels, a.1 as int, ip2));
            lemma_frame_free_add(b1.0.code, a.0.code);
            lemma_frame_free_add(b1.0.code + a.0.code, eb.code);
        },
        StmtKind::For { init, cond, post, body } => {
            let gi = match init {
                Some(b) => gen_stmt(fns, sc, *b, ret, lup, ip, labels),
                None => Gen { code: Seq::empty(), labels },
            };
            if let Some(b) = init {
                law_stmt_frame_free(fns, sc, *b, ret, lup, ip, labels);
            }
            let ip1 = ip + gi.code.len();
            let start = gi.labels.len() as usize;
            let end = (start + 1) as usize;
            let l1 = place(gi.labels.push(None).push(None), start as int, ip1);
            let cc = match cond {
                Some(c) => expr_code(fns, sc, c) + seq![
                    Inst::JmpIf(Target::Label(l1.len() as usize)),
                    Inst::Jmp(Target::Label(end)),
                ],
                None => Seq::empty(),
            };
            if let Some(c) = cond {
                lemma_expr_code_frame_free(fns, sc, c);
                lemma_frame_free_add(expr_code(fns, sc, c), seq![
                    Inst::JmpIf(Target::Label(l1.len() as usize)),
                    Inst::Jmp(Target::Label(end)),
                ]);
            }
            let l2 = match cond {
                Some(c) => place(l1.push(None), l1.len() as int, ip1 + cc.len()),
                None => l1,
            };
            let ip2 = ip1 + cc.len();
            let gb = gen_block(fns, sc, body@, ret, Some(Loop { start, end }), ip2, l2);
            law_block_frame_free(fns, sc, body@, ret, Some(Loop { start, end }), ip2, l2);
            let ip3 = ip2 + gb.code.len();
            let gp = match post {
                Some(b) => gen_stmt(fns, sc, *b, ret, lup, ip3, gb.labels),
                None => Gen { code: Seq::empty(), labels: gb.labels },
            };
            if let Some(b) = post {
                law_stmt_frame_free(fns, sc, *b, ret, lup, ip3, gb.labels);
            }
            lemma_frame_free_add(gi.code, cc);
            lemma_frame_free_add(gi.code + cc, gb.code);
            lemma_frame_free_add(gi.code + cc + gb.code, gp.code);
            lemma_frame_free_add(gi.code + cc + gb.code + gp.code, seq![Inst::Jmp(Target::Label(start))]);
        },
        _ => {},
    }
}

pub proof fn law_branch_frame_free(
    fns: Seq<FnDecl>,
    sc: LocalScope,
    cond: Expr,
    block: Seq<Stmt>,
    ret: usize,
    lup: Option<Loop>,
    end: usize,
    ip: int,
    labels: Seq<Option<usize>>,
)
    ensures
        frame_free(gen_branch(fns, sc, cond, block, ret, lup, end, ip, labels).0.code),
    decreases block, 2nat,
{
    let th = labels.len() as usize;
    let el = (th + 1) as usize;
    let l1 = labels.push(None).push(None);
    let c = expr_code(fns, sc, cond) + seq![
        Inst::JmpIf(Target::Label(th)),
        Inst::Jmp(Target::Label(el)),
    ];
    lemma_expr_code_frame_free(fns, sc, cond);
    lemma_frame_free_add(expr_code(fns, sc, cond), seq![
        Inst::JmpIf(Target::Label(th)),
        Inst::Jmp(Target::Label(el)),
    ]);
    let gb = gen_block(fns, sc, block, ret, lup, ip + c.len(), place(l1, th as int, ip + c.len()));
    law_block_frame_free(fns, sc, block, ret, lup, ip + c.len(), place(l1, th as int, ip + c.len()));
    lemma_frame_free_add(c, gb.code);
    lemma_frame_free_add(c + gb.code, seq![Inst::Jmp(Target::Label(end))]);
}

pub proof fn law_arms_frame_free(
    fns: Seq<FnDecl>,
    sc: LocalScope,
    arms: Seq<ElseIf>,
    ret: usize,
    lup: Option<Loop>,
    end: usize,
    ip: int,
    labels: Seq<Option<usize>>,
    el0: usize,
)
    ensures
        frame_free(gen_arms(fns, sc, arms, ret, lup, end, ip, labels, el0).0.code),
    decreases arms, 3nat,
{
    if arms.len() > 0 {
        let g = gen_arms(fns, sc, arms.drop_last(), ret, lup, end, ip, labels, el0);
        law_arms_frame_free(fns, sc, arms.drop_last(), ret, lup, end, ip, labels, el0);
        let ipa = ip + g.0.code.len();
        let b = gen_branch(fns, sc, arms.last().cond, arms.last().then_block@, ret, lup, end, ipa, place(g.0.labels, g.1 as int, ipa));
        law_branch_frame_free(fns, sc, arms.last().cond, arms.last().then_block@, ret, lup, end, ipa, place(g.0.labels, g.1 as int, ipa));
        lemma_frame_free_add(g.0.code, b.0.code);
    }
}

pub proof fn law_block_frame_free(
    fns: Seq<FnDecl>,
    sc: LocalScope,
    b: Seq<Stmt>,
    ret: usize,
    lup: Option<Loop>,
    ip: int,
    labels: Seq<Option<usize>>,
)
    ensures
        frame_free(gen_block(fns, sc, b, ret, lup, ip, labels).code),
    decreases b, 1nat,
{
    if b.len() > 0 {
        let g = gen_block(fns, sc, b.drop_last(), ret, lup, ip, labels);
        law_block_frame_free(fns, sc, b.drop_last(), ret, lup, ip, labels);
        law_stmt_frame_free(fns, sc, b.last(), ret, lup, ip + g.code.len(), g.labels);
        let st = gen_stmt(fns, sc, b.last(), ret, lup, ip + g.code.len(), g.labels);
        lemma_frame_free_add(g.code, st.code);
    }
}

} // verus!
