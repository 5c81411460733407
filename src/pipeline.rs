//! The whole compilation, from source bytes to the command stream.
use vstd::prelude::*;

use crate::compiler::{
    Inst,
    analyzed,
    compile,
    compiled_code,
    counts_fit,
    laid_out,
    scopes_fit,
    targets_resolved,
    word_main,
};
use crate::error::CompileError;
use crate::lexer::Lexer;
use crate::parser::{Ast, ast_v, parse, sp_program};
use crate::render::{lines, render};
use crate::semantic::{Analyzer, LocalScope, find_fn, fn_ok, law_slot_order, program_ok};

verus! {

/// `insts` is the compilation of a program that passed semantic analysis with `scopes`
/// and that has a `main` function.
pub open spec fn compiled_from(ast: Ast, scopes: Seq<LocalScope>, insts: Seq<Inst>) -> bool {
    &&& program_ok(ast)
    &&& analyzed(ast.fn_decls@, scopes)
    &&& find_fn(ast.fn_decls@, word_main()) >= 0
    &&& targets_resolved(insts)
    &&& laid_out(insts, ast.fn_decls@, scopes)
    &&& compiled_code(insts, ast.fn_decls@, scopes)
}

/// Why a parsed program yields no code: it fails semantic analysis, or with the scopes
/// that analysis gives it, it has no `main` or a frame whose counts overflow a word.
pub open spec fn rejected(ast: Ast, scopes: Seq<LocalScope>) -> bool {
    ||| !program_ok(ast)
    ||| analyzed(ast.fn_decls@, scopes) && (find_fn(ast.fn_decls@, word_main()) < 0 || !counts_fit(
        ast.fn_decls@,
        scopes,
    ))
}

/// Lexes, parses, analyzes and compiles a program, and returns its command stream.
pub fn compile_source(src: &[u8]) -> (r: Result<Vec<u8>, CompileError>)
    requires
        src@.len() < usize::MAX,
    ensures
        r matches Ok(out) ==> exists|ast: Ast, scopes: Seq<LocalScope>, insts: Seq<Inst>|
            #[trigger] compiled_from(ast, scopes, insts) && lines(insts) == out@ && sp_program(
                src@,
                0,
                Seq::empty(),
            ) == Some(ast_v(ast)),
        r is Err ==> match sp_program(src@, 0, Seq::empty()) {
            None => true,
            Some(p) => exists|ast: Ast, scopes: Seq<LocalScope>|
                #[trigger] rejected(ast, scopes) && ast_v(ast) == p,
        },
{
    let mut lex = Lexer::new(src);
    let ast = match parse(&mut lex) {
        Ok(ast) => ast,
        Err(e) => {
            return Err(e);
        },
    };
    let scopes = match Analyzer::analyze(&ast) {
        Ok(s) => s,
        Err(e) => {
            proof {
                assert(rejected(ast, Seq::empty()));
            }
            return Err(e);
        },
    };
    proof {
        let fns = ast.fn_decls@;
        assert forall|k: int| 0 <= k < fns.len() implies (#[trigger] scopes@[k]).has_result
            == fns[k].has_result && scopes@[k].names@.len() >= fns[k].params@.len() by {
            assert(fn_ok(fns, fns[k]));
            law_slot_order(fns, fns[k]);
        }
        assert(scopes_fit(fns, scopes@));
    }
    let insts = match compile(&ast, &scopes) {
        Ok(i) => i,
        Err(e) => {
            proof {
                assert(rejected(ast, scopes@));
            }
            return Err(e);
        },
    };
    let out = render(&insts);
    proof {
        assert(compiled_from(ast, scopes@, insts@) && lines(insts@) == out@ && sp_program(
            src@,
            0,
            Seq::empty(),
        ) == Some(ast_v(ast)));
    }
    Ok(out)
}

} // verus!
