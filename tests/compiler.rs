use redc::compiler::{compile, Inst, Reg, Target, HALT};
use redc::error::ErrorKind;
use redc::lexer::{BinOpKind, Lexer};
use redc::parser::parse;
use redc::pipeline::compile_source;
use redc::render::{binop_to_inst, render};
use redc::semantic::{Analyzer, LocalScope};

fn insts(src: &str) -> Vec<Inst> {
    let mut lex = Lexer::new(src.as_bytes());
    let ast = parse(&mut lex).unwrap();
    let scopes = Analyzer::analyze(&ast).unwrap();
    compile(&ast, &scopes).unwrap()
}

fn addr(a: usize) -> Target {
    Target::Addr(a)
}

fn prologue(frame: usize, extra: usize) -> Vec<Inst> {
    vec![
        Inst::GetReg(Reg::Sp2),
        Inst::Sp2FromSp,
        Inst::Sp2Sub(frame),
        Inst::SpAdd(extra),
    ]
}

fn epilogue(extra: usize) -> Vec<Inst> {
    vec![Inst::SpSub(extra), Inst::SetReg(Reg::Sp2), Inst::SetReg(Reg::Ip)]
}

fn program(parts: Vec<Vec<Inst>>) -> Vec<Inst> {
    parts.into_iter().flatten().collect()
}

fn targets(v: &[Inst]) -> Vec<usize> {
    v.iter()
        .filter_map(|i| match i {
            Inst::Call(Target::Addr(a)) | Inst::JmpIf(Target::Addr(a)) | Inst::Jmp(Target::Addr(a)) => {
                Some(*a)
            }
            Inst::Call(_) | Inst::JmpIf(_) | Inst::Jmp(_) => panic!("unresolved target"),
            _ => None,
        })
        .collect()
}

#[test]
fn return_zero() {
    let got = insts("fn main() int { return 0; }");
    let want = program(vec![
        vec![Inst::Call(addr(2)), Inst::Jmp(addr(HALT))],
        prologue(3, 1),
        vec![Inst::Const(0), Inst::SetLocal(0), Inst::Jmp(addr(9))],
        epilogue(1),
    ]);
    assert_eq!(got, want);
}

#[test]
fn return_sum() {
    let got = insts("fn main() int { return 1 + 2; }");
    let want = program(vec![
        vec![Inst::Call(addr(2)), Inst::Jmp(addr(HALT))],
        prologue(3, 1),
        vec![
            Inst::Const(1),
            Inst::Const(2),
            Inst::Op(BinOpKind::Add),
            Inst::SetLocal(0),
            Inst::Jmp(addr(11)),
        ],
        epilogue(1),
    ]);
    assert_eq!(got, want);
}

#[test]
fn call_with_arguments() {
    let got = insts("fn add(a, b) int { return a + b; } fn main() int { return add(2, 3); }");
    let want = program(vec![
        vec![Inst::Call(addr(14)), Inst::Jmp(addr(HALT))],
        prologue(5, 1),
        vec![
            Inst::GetLocal(1),
            Inst::GetLocal(2),
            Inst::Op(BinOpKind::Add),
            Inst::SetLocal(0),
            Inst::Jmp(addr(11)),
        ],
        epilogue(1),
        prologue(3, 1),
        vec![
            Inst::SpAdd(1),
            Inst::Const(2),
            Inst::Const(3),
            Inst::Call(addr(2)),
            Inst::SpSub(2),
            Inst::SetLocal(0),
            Inst::Jmp(addr(25)),
        ],
        epilogue(1),
    ]);
    assert_eq!(got, want);
}

#[test]
fn counting_loop() {
    let got = insts("fn main() int { x := 0; for x < 10 { x = x + 1; } return x; }");
    let want = program(vec![
        vec![Inst::Call(addr(2)), Inst::Jmp(addr(HALT))],
        prologue(3, 2),
        vec![
            Inst::Const(0),
            Inst::SetLocal(1),
            Inst::GetLocal(1),
            Inst::Const(10),
            Inst::Op(BinOpKind::Lt),
            Inst::JmpIf(addr(13)),
            Inst::Jmp(addr(18)),
            Inst::GetLocal(1),
            Inst::Const(1),
            Inst::Op(BinOpKind::Add),
            Inst::SetLocal(1),
            Inst::Jmp(addr(8)),
            Inst::GetLocal(1),
            Inst::SetLocal(0),
            Inst::Jmp(addr(21)),
        ],
        epilogue(2),
    ]);
    assert_eq!(got, want);
}

#[test]
fn else_if_chain_routes_to_one_branch() {
    let src = "fn main() int { if 1 { return 1; } else if 0 { return 2; } else { return 3; } }";
    let mut lex = Lexer::new(src.as_bytes());
    let ast = parse(&mut lex).unwrap();
    // the body does not end in `return value;`, which analysis rejects
    assert_eq!(Analyzer::analyze(&ast).unwrap_err().kind, ErrorKind::ReturnValueMissed);
    let scopes = vec![LocalScope { has_result: true, names: Vec::new() }];
    let got = compile(&ast, &scopes).unwrap();
    let want = program(vec![
        vec![Inst::Call(addr(2)), Inst::Jmp(addr(HALT))],
        prologue(3, 1),
        vec![
            Inst::Const(1),
            Inst::JmpIf(addr(9)),
            Inst::Jmp(addr(13)),
            Inst::Const(1),
            Inst::SetLocal(0),
            Inst::Jmp(addr(23)),
            Inst::Jmp(addr(23)),
            Inst::Const(0),
            Inst::JmpIf(addr(16)),
            Inst::Jmp(addr(20)),
            Inst::Const(2),
            Inst::SetLocal(0),
            Inst::Jmp(addr(23)),
            Inst::Jmp(addr(23)),
            Inst::Const(3),
            Inst::SetLocal(0),
            Inst::Jmp(addr(23)),
        ],
        epilogue(1),
    ]);
    assert_eq!(got, want);
}

#[test]
fn statement_call_drops_the_result_slot() {
    let got = insts("fn f() { } fn main() int { f(); return 0; }");
    let want = program(vec![
        vec![Inst::Call(addr(9)), Inst::Jmp(addr(HALT))],
        prologue(2, 0),
        epilogue(0),
        prologue(3, 1),
        vec![
            Inst::SpAdd(1),
            Inst::Call(addr(2)),
            Inst::SpSub(1),
            Inst::Const(0),
            Inst::SetLocal(0),
            Inst::Jmp(addr(19)),
        ],
        epilogue(1),
    ]);
    assert_eq!(got, want);
}

#[test]
fn break_outside_loop_fails_to_compile() {
    assert_eq!(compile_source(b"fn main() { break; }").unwrap_err().kind, ErrorKind::OutsideLoop);
}

#[test]
fn missing_main_fails() {
    let mut lex = Lexer::new(b"fn f() { }");
    let ast = parse(&mut lex).unwrap();
    let scopes = Analyzer::analyze(&ast).unwrap();
    assert_eq!(compile(&ast, &scopes).unwrap_err().kind, ErrorKind::NoMain);
}

#[test]
fn header_calls_main_then_halts() {
    let got = insts("fn a() { } fn main() { a(); } fn b() { }");
    assert_eq!(got[0], Inst::Call(addr(9)));
    assert_eq!(got[1], Inst::Jmp(addr(HALT)));
    assert_eq!(&got[9..13], &prologue(2, 0)[..]);
}

#[test]
fn every_target_is_an_instruction_or_halt() {
    let src = "fn f(n) int { r := 0; for i := 0; i < n; i = i + 1 { if i == 3 { continue; } else if i > 7 { break; } r = r + f(i - 1) * 2; } return r; } fn main() { x := f(5); log(x); cmd(\"say done\"); for { break; } return; }";
    let got = insts(src);
    for t in targets(&got) {
        assert!(t < got.len() || t == HALT, "{t}");
    }
}

#[test]
fn one_prologue_and_epilogue_per_function() {
    let got = insts("fn f(a) { if a { return; } log(a); } fn main() { f(1); }");
    let pro = got.iter().filter(|i| **i == Inst::Sp2FromSp).count();
    let epi = got.iter().filter(|i| **i == Inst::SetReg(Reg::Ip)).count();
    assert_eq!((pro, epi), (2, 2));
    // `return;` jumps to the epilogue of `f`
    let ret = got.iter().position(|i| *i == Inst::SetReg(Reg::Sp2)).unwrap() - 1;
    assert!(got.contains(&Inst::Jmp(addr(ret))));
    assert_eq!(got[ret], Inst::SpSub(0));
}

#[test]
fn rendered_lines() {
    let out = compile_source(b"fn main() int { return 0; }").unwrap();
    let text = String::from_utf8(out).unwrap();
    let lines: Vec<&str> = text.lines().collect();
    let p = "data modify storage redvm insts append value '";
    let want = [
        "function redvm:insts/call {_:0000000002}",
        "scoreboard players set ip redvm.regs 0000001000",
        "function redvm:insts/get_reg {_:sp2}",
        "scoreboard players operation sp2 redvm.regs = sp redvm.regs",
        "scoreboard players remove sp2 redvm.regs 3",
        "scoreboard players add sp redvm.regs 1",
        "function redvm:insts/const {_:0}",
        "function redvm:insts/set_local {_:0}",
        "scoreboard players set ip redvm.regs 0000000009",
        "scoreboard players remove sp redvm.regs 1",
        "function redvm:insts/set_reg {_:sp2}",
        "function redvm:insts/set_reg {_:ip}",
    ];
    assert_eq!(lines.len(), want.len());
    for (l, w) in lines.iter().zip(want.iter()) {
        assert_eq!(*l, format!("{p}{w}'"));
    }
    assert!(!text.contains("0000000000"));
}

#[test]
fn rendered_operands() {
    let v = vec![
        Inst::Op(BinOpKind::Le),
        Inst::Const(-42),
        Inst::Log(7),
        Inst::JmpIf(addr(12345678901)),
        Inst::Raw(b"say hi".to_vec()),
        Inst::Call(Target::Fn(0)),
    ];
    let text = String::from_utf8(render(&v)).unwrap();
    let p = "data modify storage redvm insts append value '";
    assert_eq!(
        text,
        format!(
            "{p}function redvm:insts/le'\n{p}function redvm:insts/const {{_:-42}}'\n{p}function redvm:insts/log {{_:7}}'\n{p}function redvm:insts/jmp_if {{_:12345678901}}'\n{p}say hi'\n{p}function redvm:insts/call {{_:0000000000}}'\n"
        )
    );
    assert_eq!(binop_to_inst(BinOpKind::And), "and");
}
