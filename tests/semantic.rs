use redc::error::ErrorKind;
use redc::lexer::{Lexer, Loc};
use redc::parser::{parse, Ast, FnDecl, Stmt, StmtKind};
use redc::semantic::{Analyzer, LocalScope};

fn analyze(src: &str) -> Result<Vec<LocalScope>, ErrorKind> {
    let mut lex = Lexer::new(src.as_bytes());
    let ast = parse(&mut lex).unwrap();
    Analyzer::analyze(&ast).map_err(|e| e.kind)
}

#[test]
fn duplicate_functions_fail_in_any_order() {
    assert_eq!(
        analyze("fn f() { } fn main() { } fn f() { }").unwrap_err(),
        ErrorKind::FnRedeclared(b"f".to_vec())
    );
    assert_eq!(
        analyze("fn f() { } fn f() { } fn main() { }").unwrap_err(),
        ErrorKind::FnRedeclared(b"f".to_vec())
    );
}

#[test]
fn missing_return_value_fails() {
    assert_eq!(analyze("fn main() int { }").unwrap_err(), ErrorKind::ReturnValueMissed);
    assert_eq!(
        analyze("fn main() int { return 1; x := 2; }").unwrap_err(),
        ErrorKind::ReturnValueMissed
    );
    assert!(analyze("fn main() int { if 1 { return 2; } return 1; }").is_ok());
}

#[test]
fn break_outside_loop_fails() {
    assert_eq!(analyze("fn main() { break; }").unwrap_err(), ErrorKind::OutsideLoop);
    assert_eq!(analyze("fn main() { continue; }").unwrap_err(), ErrorKind::OutsideLoop);
    assert_eq!(
        analyze("fn main() { if 1 { break; } }").unwrap_err(),
        ErrorKind::OutsideLoop
    );
    assert!(analyze("fn main() { for { if 1 { break; } continue; } }").is_ok());
}

#[test]
fn slots_follow_the_return_slot_and_parameters() {
    let scopes =
        analyze("fn f(a, b) int { x := a; y; return x; } fn g(p) { q := p; } fn main() { }")
            .unwrap();
    assert_eq!(scopes.len(), 3);
    let f = &scopes[0];
    assert_eq!(f.slot_of(&b"a".to_vec()), Some(1));
    assert_eq!(f.slot_of(&b"b".to_vec()), Some(2));
    assert_eq!(f.slot_of(&b"x".to_vec()), Some(3));
    assert_eq!(f.slot_of(&b"y".to_vec()), Some(4));
    assert_eq!(f.slot_of(&b"z".to_vec()), None);
    assert_eq!(f.local_count(), 5);
    let g = &scopes[1];
    assert_eq!(g.slot_of(&b"p".to_vec()), Some(0));
    assert_eq!(g.slot_of(&b"q".to_vec()), Some(1));
    assert_eq!(g.local_count(), 2);
}

#[test]
fn names_must_be_declared_once_and_before_use() {
    assert_eq!(
        analyze("fn main() { x; x; }").unwrap_err(),
        ErrorKind::VarRedeclared(b"x".to_vec())
    );
    assert_eq!(
        analyze("fn main(a, a) { }").unwrap_err(),
        ErrorKind::VarRedeclared(b"a".to_vec())
    );
    assert_eq!(
        analyze("fn main() { x = 1; }").unwrap_err(),
        ErrorKind::UnknownVar(b"x".to_vec())
    );
    assert_eq!(
        analyze("fn main() { x := x; }").unwrap_err(),
        ErrorKind::UnknownVar(b"x".to_vec())
    );
    assert_eq!(
        analyze("fn main() { log(y); }").unwrap_err(),
        ErrorKind::UnknownVar(b"y".to_vec())
    );
}

#[test]
fn calls_are_checked() {
    assert!(analyze("fn main() int { return later(1); } fn later(a) int { return a; }").is_ok());
    assert_eq!(
        analyze("fn main() { nope(); }").unwrap_err(),
        ErrorKind::UnknownFn(b"nope".to_vec())
    );
    assert_eq!(
        analyze("fn f(a) { } fn main() { f(); }").unwrap_err(),
        ErrorKind::ArityMismatch(b"f".to_vec())
    );
    assert_eq!(
        analyze("fn f() { } fn main() { x := f(); }").unwrap_err(),
        ErrorKind::NoResult(b"f".to_vec())
    );
}

#[test]
fn return_forms_must_match_the_signature() {
    assert_eq!(
        analyze("fn main() int { return; return 1; }").unwrap_err(),
        ErrorKind::ReturnWithoutValue
    );
    assert_eq!(
        analyze("fn main() { return 1; }").unwrap_err(),
        ErrorKind::ReturnValueNotAllowed
    );
}

#[test]
fn unknown_builtin_fails() {
    let loc = Loc { row: 1, col: 1 };
    let stmt = Stmt {
        loc,
        kind: StmtKind::BuiltinFnCall { name: b"say".to_vec(), arg: b"x".to_vec() },
    };
    let main = FnDecl {
        name: b"main".to_vec(),
        params: Vec::new(),
        has_result: false,
        body: vec![stmt],
        loc,
    };
    let ast = Ast { fn_decls: vec![main] };
    assert_eq!(
        Analyzer::analyze(&ast).unwrap_err().kind,
        ErrorKind::UnknownBuiltin(b"say".to_vec())
    );
}

#[test]
fn cmd_and_log_builtins_pass() {
    assert!(analyze("fn main() { x := 1; log(x); cmd(\"say hi\"); }").is_ok());
}

#[test]
fn nested_break_outside_loop_fails() {
    assert!(analyze("fn main() { if 1 { } else if 2 { if 3 { continue; } } }").is_err());
    assert!(analyze("fn main() { for { if 1 { break; } } }").is_ok());
}
