use riff::block::{count_newlines, extract_braced_block, extract_string, extract_targets, skip_ws_bytes};
use riff::{
    eval_expr, eval_rpn, generate_rust_program, handle_if_chain, prec, run, run_block, to_rpn,
    tokenize, Env, Op, RfError, Tok, Val,
};

fn chars(s: &str) -> Vec<char> {
    s.chars().collect()
}

#[test]
fn tokens_resolve_variables() {
    let mut env = Env::new();
    env.set(&"x".to_string(), Val::Int(4));
    env.set(&"L".to_string(), Val::List(vec![Val::Int(7), Val::Text("8".to_string())]));
    assert_eq!(
        tokenize(&chars("1+x*y"), &env),
        Ok(vec![Tok::Num(1), Tok::Op(Op::Add), Tok::Num(4), Tok::Op(Op::Mul), Tok::Num(0)])
    );
    assert_eq!(
        tokenize(&chars("L[1] >= L[ -2 ]||1"), &env),
        Ok(vec![Tok::Num(8), Tok::Op(Op::Ge), Tok::Num(7), Tok::Op(Op::Or), Tok::Num(1)])
    );
    assert_eq!(tokenize(&chars("x[0]"), &env), Ok(vec![Tok::Num(0)]));
    assert_eq!(tokenize(&chars("1 ? 2"), &env), Err(RfError::UnexpectedChar { ch: '?', pos: 2 }));
}

#[test]
fn postfix_conversion() {
    let n = |v: i64| Tok::Num(v);
    assert_eq!(
        to_rpn(&vec![n(1), Tok::Op(Op::Add), n(2), Tok::Op(Op::Mul), n(3)]),
        vec![n(1), n(2), n(3), Tok::Op(Op::Mul), Tok::Op(Op::Add)]
    );
    assert_eq!(
        to_rpn(&vec![n(2), Tok::Op(Op::Pow), n(3), Tok::Op(Op::Pow), n(2)]),
        vec![n(2), n(3), n(2), Tok::Op(Op::Pow), Tok::Op(Op::Pow)]
    );
    assert_eq!(
        to_rpn(&vec![n(8), Tok::Op(Op::Sub), n(3), Tok::Op(Op::Sub), n(1)]),
        vec![n(8), n(3), Tok::Op(Op::Sub), n(1), Tok::Op(Op::Sub)]
    );
    assert_eq!(
        to_rpn(&vec![Tok::Op(Op::Open), n(1), Tok::Op(Op::Add), n(2), Tok::Op(Op::Close), Tok::Op(Op::Mul), n(3)]),
        vec![n(1), n(2), Tok::Op(Op::Add), n(3), Tok::Op(Op::Mul)]
    );
}

#[test]
fn postfix_evaluation() {
    assert_eq!(eval_rpn(&vec![Tok::Num(1), Tok::Num(2), Tok::Op(Op::Sub)]), Ok(-1));
    assert_eq!(eval_rpn(&vec![]), Err(RfError::EmptyResult));
    assert_eq!(eval_rpn(&vec![Tok::Num(1), Tok::Op(Op::Mul)]), Err(RfError::MissingOperands(Op::Mul)));
    assert_eq!(eval_rpn(&vec![Tok::Num(1), Tok::Num(0), Tok::Op(Op::Rem)]), Err(RfError::ModuloByZero));
    assert_eq!(prec(Op::Pow), 4);
    assert_eq!(prec(Op::Rem), 3);
    assert_eq!(prec(Op::Le), 2);
    assert_eq!(prec(Op::And), 1);
    assert_eq!(prec(Op::Open), 0);
}

#[test]
fn wrapping_arithmetic() {
    assert_eq!(run("9223372036854775807 + 1 > .").output, vec!["-9223372036854775808"]);
    assert_eq!(run("3 ^ 40 > .").output, vec!["-6289078614652622815"]);
    assert_eq!(run("7 ^ (0 - 1) > .").output, vec!["7905747460161236407"]);
    assert_eq!(run("0 ^ 4294967296 > .").output, vec!["0"]);
    assert_eq!(run("1 ^ 4294967296 > .").output, vec!["1"]);
    assert_eq!(run("2 > a; 3^>a; a > .").output, vec!["8"]);
    assert_eq!(run("2 ^ 0 > .").output, vec!["1"]);
    let l = Val::List(vec![Val::Int(i64::MAX), Val::Int(1)]);
    assert_eq!(l.as_i64(), i64::MIN);
}

#[test]
fn expressions_to_values() {
    let mut env = Env::new();
    env.set(&"t".to_string(), Val::Text("abc".to_string()));
    assert_eq!(eval_expr(&chars(" ,[1, \"a\" ,] "), &env).unwrap().as_string(), "[1,a]");
    assert_eq!(eval_expr(&chars("\"x\""), &env).unwrap().as_string(), "x");
    assert_eq!(eval_expr(&chars("$l[ t ]"), &env).unwrap().as_i64(), 3);
    assert_eq!(eval_expr(&chars("   "), &env).unwrap().as_i64(), 0);
    assert_eq!(eval_expr(&chars("t"), &env).unwrap().as_i64(), 0);
    assert_eq!(env.get(&"t".to_string()).as_string(), "abc");
}

#[test]
fn literal_loop_condition_never_ends() {
    // `i+>i` doubles `i`, so from 0 the condition stays true until the bound stops it
    let mut env = Env::new();
    let mut out: Vec<String> = Vec::new();
    let r = run_block(&chars("0 > i; *?i<3{i+>i; i > .}"), &mut env, &mut out, 5);
    assert_eq!(r, Err(RfError::IterationLimit));
    assert_eq!(out, vec!["0"; 5]);
}

#[test]
fn augmented_text_is_stored() {
    let mut env = Env::new();
    let mut out: Vec<String> = Vec::new();
    assert_eq!(run_block(&chars("\"hi\" > s; 3+>s;"), &mut env, &mut out, 10), Ok(()));
    assert_eq!(env.get(&"s".to_string()).as_string(), "hi3");
    assert!(out.is_empty());
}

#[test]
fn if_chain_scan_stops_after_last_clause() {
    let s = chars("?0{\"a\">.} !?1{\"b\">.} !!{\"c\">.} rest");
    let mut env = Env::new();
    let mut out: Vec<String> = Vec::new();
    assert_eq!(handle_if_chain(&s, 0, &mut env, &mut out, false, 10), Ok(31));
    assert_eq!(out, vec!["b"]);
    let mut out2: Vec<String> = Vec::new();
    assert_eq!(handle_if_chain(&chars("?1 x"), 0, &mut env, &mut out2, false, 10), Err(RfError::ExpectedBrace));
}

#[test]
fn extraction_helpers() {
    assert_eq!(extract_braced_block(&chars("{a{b}c}d"), 0), Ok((chars("a{b}c"), 7)));
    assert_eq!(
        extract_braced_block(&chars("x\n{ {"), 2),
        Err(RfError::UnclosedBlock { open_line: 2, line: 2 })
    );
    assert_eq!(extract_string(&chars("\"ab\" > ."), 0), Ok(("ab".to_string(), 4)));
    assert_eq!(extract_string(&chars("\"ab"), 0), Err(RfError::UnterminatedText));
    assert_eq!(extract_targets(&chars(" a, b ,,c;rest"), 0), (vec![chars("a"), chars("b"), chars("c")], 9));
    assert_eq!(extract_braced_block(&chars("x{}"), 0), Err(RfError::ExpectedBrace));
    assert_eq!(extract_string(&chars("x\"a\""), 0), Err(RfError::NotAString));
    let mut i: usize = 0;
    skip_ws_bytes(&chars(" \t\n x"), &mut i);
    assert_eq!(i, 4);
    assert_eq!(count_newlines(&chars("a\nb\nc"), 4), 2);
}

#[test]
fn host_program_embeds_escaped_source() {
    let code = "\"hi\" > .\r\n@ \\ end";
    let out = generate_rust_program(code, "let c = \"__RF_CODE_ESCAPED__\"; // __RF_CODE_ESCAPED__");
    assert_eq!(
        out,
        "let c = \"\\\"hi\\\" > .\\n@ \\\\ end\"; // \\\"hi\\\" > .\\n@ \\\\ end"
    );
    assert_eq!(generate_rust_program("x", "no marker"), "no marker");
}

#[test]
fn failed_sends_leave_bindings() {
    let mut env = Env::new();
    let mut out: Vec<String> = Vec::new();
    assert_eq!(run_block(&chars("5 > a; ,[1] > b;"), &mut env, &mut out, 10), Ok(()));
    for code in ["0/>a;", "5 / 0 > a;", "5 % 0 > a;", "1 *> b;", "a;", "*3 x", "2 > c, a; 1 *> c, b;"] {
        let _ = run_block(&chars(code), &mut env, &mut out, 10);
    }
    assert_eq!(env.get(&"a".to_string()).as_i64(), 2);
    assert_eq!(env.get(&"b".to_string()).as_string(), "[1]");
    assert_eq!(env.get(&"c".to_string()).as_i64(), 2);
    assert!(out.is_empty());
}

#[test]
fn if_chain_needs_a_clause() {
    let mut env = Env::new();
    let mut out: Vec<String> = Vec::new();
    assert_eq!(handle_if_chain(&chars("x > ."), 0, &mut env, &mut out, false, 10), Ok(0));
    assert_eq!(handle_if_chain(&chars("!x"), 0, &mut env, &mut out, false, 10), Err(RfError::InvalidIfClause));
    assert!(out.is_empty());
}

#[test]
fn names_may_use_letters_beyond_ascii() {
    assert_eq!(run("3 > \u{e9}t\u{e9}; \u{e9}t\u{e9} * 2 > .; \u{fc}ber > .").output, vec!["6", "0"]);
    assert_eq!(run(",[4, 5] > li\u{df}te; li\u{df}te[-1] > .").output, vec!["5"]);
}
