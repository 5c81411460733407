use redc::error::ErrorKind;
use redc::lexer::{BinOpKind, Lexer, Punct, Token};
use redc::parser::{parse, parse_expr, Ast, Expr, Stmt, StmtKind};

fn op(k: &BinOpKind) -> &'static str {
    match k {
        BinOpKind::Add => "Add",
        BinOpKind::Sub => "Sub",
        BinOpKind::Mul => "Mul",
        BinOpKind::Div => "Div",
        BinOpKind::Gt => "Gt",
        BinOpKind::Ge => "Ge",
        BinOpKind::Lt => "Lt",
        BinOpKind::Le => "Le",
        BinOpKind::Eq => "Eq",
        BinOpKind::Ne => "Ne",
        BinOpKind::And => "And",
        BinOpKind::Or => "Or",
    }
}

fn show(e: &Expr) -> String {
    match e {
        Expr::Num(n) => format!("{n}"),
        Expr::Var(v) => String::from_utf8(v.clone()).unwrap(),
        Expr::BinOp { lhs, rhs, op: k } => format!("{}({},{})", op(k), show(lhs), show(rhs)),
        Expr::FnCall { name, args } => {
            let args: Vec<String> = args.iter().map(show).collect();
            format!("{}[{}]", String::from_utf8(name.clone()).unwrap(), args.join(","))
        }
    }
}

fn expr(src: &str) -> String {
    let mut lex = Lexer::new(src.as_bytes());
    show(&parse_expr(&mut lex, 0).unwrap())
}

fn program(src: &str) -> Ast {
    let mut lex = Lexer::new(src.as_bytes());
    parse(&mut lex).unwrap()
}

fn body(src: &str) -> Vec<Stmt> {
    let mut ast = program(src);
    ast.fn_decls.remove(0).body
}

#[test]
fn precedence_of_operators() {
    assert_eq!(expr("1 + 2 * 3;"), "Add(1,Mul(2,3))");
    assert_eq!(expr("1 == 2 + 3;"), "Eq(1,Add(2,3))");
    assert_eq!(expr("a && b || c;"), "Or(And(a,b),c)");
    assert_eq!(expr("a || b && c;"), "Or(a,And(b,c))");
    assert_eq!(expr("a < b == c > d;"), "Eq(Lt(a,b),Gt(c,d))");
}

#[test]
fn operators_associate_to_the_left() {
    assert_eq!(expr("1 - 2 - 3;"), "Sub(Sub(1,2),3)");
    assert_eq!(expr("8 / 4 / 2;"), "Div(Div(8,4),2)");
    assert_eq!(expr("1 / 2 * 3 / 4;"), "Div(Mul(Div(1,2),3),4)");
}

#[test]
fn parentheses_and_calls() {
    assert_eq!(expr("1 * (2 + 3);"), "Mul(1,Add(2,3))");
    assert_eq!(expr("3 + 4 * 2 / (1 - 5);"), "Add(3,Div(Mul(4,2),Sub(1,5)))");
    assert_eq!(expr("f();"), "f[]");
    assert_eq!(expr("f(1, f(2, 3 + 4));"), "f[1,f[2,Add(3,4)]]");
}

#[test]
fn malformed_expressions_fail() {
    let cases = ["(a));", "(a + a,b);", "a + ();", "a b;", "(a;"];
    for c in cases {
        let mut lex = Lexer::new(c.as_bytes());
        let r = parse_expr(&mut lex, 0);
        if c == "(a));" {
            // the expression `(a)` ends before the second `)`
            assert_eq!(show(&r.unwrap()), "a");
        } else {
            assert!(r.is_err(), "{c}");
        }
    }
}

#[test]
fn else_if_chain() {
    let b = body("fn main() { if cond { } else if c2 { } else { x; } }");
    assert_eq!(b.len(), 1);
    match &b[0].kind {
        StmtKind::If { cond, then_block, elseifs, elze } => {
            assert_eq!(show(cond), "cond");
            assert!(then_block.is_empty());
            assert_eq!(elseifs.len(), 1);
            assert_eq!(show(&elseifs[0].cond), "c2");
            assert_eq!(elze.len(), 1);
        }
        _ => panic!("not an if"),
    }
    let b = body("fn main() { if c { } }");
    match &b[0].kind {
        StmtKind::If { elseifs, elze, .. } => {
            assert!(elseifs.is_empty());
            assert!(elze.is_empty());
        }
        _ => panic!("not an if"),
    }
}

#[test]
fn loop_heads() {
    let b = body("fn main() { for { break; } for x < 10 { continue; } for i := 0; i < 3; i = i + 1 { } for ;; { } }");
    assert_eq!(b.len(), 4);
    match &b[0].kind {
        StmtKind::For { init, cond, post, body } => {
            assert!(init.is_none() && cond.is_none() && post.is_none());
            assert!(matches!(body[0].kind, StmtKind::Break));
        }
        _ => panic!("not a loop"),
    }
    match &b[1].kind {
        StmtKind::For { init, cond, post, body } => {
            assert!(init.is_none() && post.is_none());
            assert_eq!(show(cond.as_ref().unwrap()), "Lt(x,10)");
            assert!(matches!(body[0].kind, StmtKind::Continue));
        }
        _ => panic!("not a loop"),
    }
    match &b[2].kind {
        StmtKind::For { init, cond, post, .. } => {
            assert!(matches!(init.as_ref().unwrap().kind, StmtKind::VarDeclAssign { .. }));
            assert_eq!(show(cond.as_ref().unwrap()), "Lt(i,3)");
            assert!(matches!(post.as_ref().unwrap().kind, StmtKind::VarAssign { .. }));
        }
        _ => panic!("not a loop"),
    }
    match &b[3].kind {
        StmtKind::For { init, cond, post, .. } => {
            assert!(init.is_none() && cond.is_none() && post.is_none());
        }
        _ => panic!("not a loop"),
    }
}

#[test]
fn statements_and_functions() {
    let ast = program("fn add(a, b) int { return a + b; } fn main() { x; y := 2; x = add(y, 1); f(); log(x); cmd(\"say hi\"); return; }");
    assert_eq!(ast.fn_decls.len(), 2);
    let add = &ast.fn_decls[0];
    assert_eq!(add.name, b"add".to_vec());
    assert_eq!(add.params, vec![b"a".to_vec(), b"b".to_vec()]);
    assert!(add.has_result);
    let main = &ast.fn_decls[1];
    assert!(!main.has_result);
    assert!(main.params.is_empty());
    let kinds: Vec<&StmtKind> = main.body.iter().map(|s| &s.kind).collect();
    assert!(matches!(kinds[0], StmtKind::VarDecl(n) if n == b"x"));
    assert!(matches!(kinds[1], StmtKind::VarDeclAssign { name, .. } if name == b"y"));
    match kinds[2] {
        StmtKind::VarAssign { name, expr } => {
            assert_eq!(name, b"x");
            assert_eq!(show(expr), "add[y,1]");
        }
        _ => panic!("not an assignment"),
    }
    assert!(matches!(kinds[3], StmtKind::FnCall { name, args } if name == b"f" && args.is_empty()));
    assert!(matches!(kinds[4], StmtKind::BuiltinFnCall { name, arg } if name == b"log" && arg == b"x"));
    assert!(matches!(kinds[5], StmtKind::BuiltinFnCall { name, arg } if name == b"cmd" && arg == b"say hi"));
    assert!(matches!(kinds[6], StmtKind::Return));
}

#[test]
fn syntax_errors() {
    let bad = [
        "x := 1;",
        "fn main( { }",
        "fn main() { x = ; }",
        "fn main() { x = 1 }",
        "fn main() { if x { }",
        "fn main() float { }",
        "fn main(a b) { }",
    ];
    for src in bad {
        let mut lex = Lexer::new(src.as_bytes());
        assert!(parse(&mut lex).is_err(), "{src}");
    }
    let mut lex = Lexer::new(b"fn main() {");
    assert_eq!(parse(&mut lex).unwrap_err().kind, ErrorKind::UnexpectedEnd);
}

#[test]
fn empty_program() {
    assert!(program("  \n ").fn_decls.is_empty());
}

#[test]
fn unclosed_parenthesis_names_the_token_found() {
    let mut lex = Lexer::new(b"(1 + 2;");
    let e = parse_expr(&mut lex, 0).unwrap_err();
    assert_eq!(e.kind, ErrorKind::UnexpectedToken(Token::Punct(Punct::Semicolon)));
}
