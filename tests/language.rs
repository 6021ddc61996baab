use riff::{run, run_program, validate_rf_syntax, RfError, Val};

fn lines(code: &str) -> Vec<String> {
    let r = run(code);
    assert_eq!(r.error, None, "unexpected error for {:?}", code);
    r.output
}

fn error_of(code: &str) -> RfError {
    match run(code).error {
        Some(e) => e,
        None => panic!("expected an error for {:?}", code),
    }
}

#[test]
fn precedence_and_associativity() {
    assert_eq!(lines("1 + 2 * 3 > ."), vec!["7"]);
    assert_eq!(lines("2 ^ 3 ^ 2 > ."), vec!["512"]);
    assert_eq!(lines("10 - 4 - 3 > ."), vec!["3"]);
    assert_eq!(lines("100 / 10 / 5 > ."), vec!["2"]);
    assert_eq!(lines("(1 + 2) * 3 > ."), vec!["9"]);
    assert_eq!(lines("7 % 3 + 2 ^ 2 * 3 > ."), vec!["13"]);
    assert_eq!(lines("0 - 7 / 2 > ."), vec!["-3"]);
    assert_eq!(error_of("-7 > ."), RfError::MissingOperands(riff::Op::Sub));
}

#[test]
fn comparisons_and_logic() {
    assert_eq!(lines("3 < 4 > ."), vec!["1"]);
    assert_eq!(lines("4 <= 3 > ."), vec!["0"]);
    assert_eq!(lines("1 = 1 && 2 <= 1 > ."), vec!["0"]);
    assert_eq!(lines("0 || 5 > ."), vec!["1"]);
}

#[test]
fn division_by_zero_fails() {
    assert_eq!(error_of("5 / 0 > ."), RfError::DivisionByZero);
    assert_eq!(error_of("5 % 0 > ."), RfError::ModuloByZero);
    assert_eq!(lines("5 / (0 - 2) > ."), vec!["-2"]);
    assert_eq!(lines("0 - 5 % 2 > ."), vec!["-1"]);
    assert_eq!(lines("5 % (0 - 2) > ."), vec!["1"]);
}

#[test]
fn macros_on_a_list() {
    assert_eq!(lines(",[1,2,3] > L; $l[L] > .; $s[L] > ."), vec!["3", "6"]);
}

#[test]
fn unbound_variable_reads_zero() {
    assert_eq!(lines("x > ."), vec!["0"]);
}

#[test]
fn list_index_out_of_range_reads_zero() {
    assert_eq!(lines(",[1,2] > L; L[5] > .; L[-1] > .; L[0] + L[1] > ."), vec!["0", "2", "3"]);
}

#[test]
fn counted_loop_sets_counter() {
    assert_eq!(lines("*3{_ > .}"), vec!["0", "1", "2"]);
}

#[test]
fn conditional_loop_terminates() {
    assert_eq!(lines("0 > i; *?i<3{1+>i; i > .}"), vec!["1", "2", "3"]);
    assert_eq!(lines("*?_<2{_ > .}"), vec!["0", "1"]);
}

#[test]
fn if_chain_runs_one_branch() {
    assert_eq!(lines("1 > x; ?x=1{\"a\">.} !?x=2{\"b\">.} !!{\"c\">.}"), vec!["a"]);
    assert_eq!(lines("2 > x; ?x=1{\"a\">.} !?x=2{\"b\">.} !!{\"c\">.}"), vec!["b"]);
    assert_eq!(lines("3 > x; ?x=1{\"a\">.} !?x=2{\"b\">.} !!{\"c\">.}"), vec!["c"]);
}

#[test]
fn augmented_text_append() {
    // the text is extended; printing the bare name reads it as an integer
    assert_eq!(lines("\"hi\" > s; 3+>s; s > ."), vec!["0"]);
    assert_eq!(lines("\"1\" > s; 3+>s; s > ."), vec!["13"]);
}

#[test]
fn augmented_integer_and_list() {
    assert_eq!(lines("5 > a; 2*>a; 3->a; a > ."), vec!["7"]);
    assert_eq!(lines("2 > a; 10^>a; a > ."), vec!["1024"]);
    assert_eq!(lines(",[1] > L; 2+>L; L > .; $l[L] > .; L[1] > ."), vec!["3", "2", "2"]);
    assert_eq!(error_of(",[1] > L; 2*>L;"), RfError::UnsupportedAugment);
    assert_eq!(error_of("1 > a; 0/>a;"), RfError::DivisionByZero);
}

#[test]
fn validator_reports_unmatched() {
    assert_eq!(
        validate_rf_syntax("{ { } "),
        Err(RfError::UnclosedOpen { opener: '{', line: 1, col: 7, open_line: 1 })
    );
    assert_eq!(validate_rf_syntax("} "), Err(RfError::UnmatchedClose { closer: '}', line: 1, col: 1 }));
    assert_eq!(validate_rf_syntax("[\n]]"), Err(RfError::UnmatchedClose { closer: ']', line: 2, col: 2 }));
    assert_eq!(
        validate_rf_syntax("{\n {\n }\n[ ]"),
        Err(RfError::UnclosedOpen { opener: '{', line: 4, col: 4, open_line: 1 })
    );
    assert_eq!(
        validate_rf_syntax("{}\n  [ [\n ] @ ]"),
        Err(RfError::UnclosedOpen { opener: '[', line: 3, col: 7, open_line: 2 })
    );
    assert_eq!(validate_rf_syntax("{[]}{} @ } ]\n[{}]"), Ok(()));
    assert_eq!(validate_rf_syntax(""), Ok(()));
}

#[test]
fn runs_repeat_identically() {
    let code = "0 > i; *?i<3{1+>i; i > .} ,[4,5] > L; L > .";
    let a = run(code);
    let b = run(code);
    assert_eq!(a.output, b.output);
    assert_eq!(a.error, b.error);
    assert_eq!(a.output, vec!["1", "2", "3", "9"]);
}

#[test]
fn run_program_checks_first() {
    let r = run_program("\"a\" > .; {");
    assert!(r.output.is_empty());
    assert!(matches!(r.error, Some(RfError::UnclosedOpen { .. })));
    assert_eq!(run_program("\"a\" > .").output, vec!["a"]);
}

#[test]
fn values_coerce() {
    let l = Val::List(vec![Val::Int(1), Val::Text("a".to_string()), Val::List(vec![Val::Int(-2)])]);
    assert_eq!(l.as_string(), "[1,a,[-2]]");
    assert_eq!(l.as_i64(), -1);
    assert_eq!(Val::Text("12".to_string()).as_i64(), 12);
    assert_eq!(Val::Text("x1".to_string()).as_i64(), 0);
    assert_eq!(Val::Int(-45).as_string(), "-45");
}

#[test]
fn literals_and_text() {
    assert_eq!(lines("2.5e3 > ."), vec!["2500"]);
    assert_eq!(lines("7.9 > ."), vec!["7"]);
    assert_eq!(lines("15e-1 > ."), vec!["1"]);
    assert_eq!(error_of("1e > ."), RfError::BadFloat);
    assert_eq!(error_of("99999999999999999999 > ."), RfError::BadNumber);
    assert_eq!(lines("\"a b\" > ."), vec!["a b"]);
    assert_eq!(lines(",[1, \"x y\"] > L; $l[L] > ."), vec!["2"]);
    assert_eq!(lines(",[] > L; $l[L] > ."), vec!["0"]);
    assert_eq!(lines("\"abc\" > t, u; $l[u] > ."), vec!["3"]);
    // a macro takes the whole expression: what follows its `]` is not read
    assert_eq!(lines("\"12\" > t; $s[t] + 1 > ."), vec!["12"]);
}

#[test]
fn runtime_errors() {
    assert_eq!(error_of("x"), RfError::NoSendOperator);
    assert_eq!(error_of("> x"), RfError::InvalidStatement);
    assert_eq!(error_of("1 > n; $q[n] > ."), RfError::UnknownMacro);
    assert_eq!(error_of("5 > n; $l[n] > ."), RfError::LengthOfInt(5));
    assert_eq!(error_of("\"abc\" > t; $s[t] > ."), RfError::SumOfText);
    assert_eq!(error_of("$s > ."), RfError::MacroMissingOpen);
    assert_eq!(error_of("$s[x > ."), RfError::MacroMissingClose);
    assert_eq!(error_of("1 + # > ."), RfError::UnexpectedChar { ch: '#', pos: 4 });
    assert_eq!(error_of(",[1,x] > L;"), RfError::BadListElement);
    assert_eq!(error_of(",1 > L;"), RfError::BadListLiteral);
    assert_eq!(error_of("L[1 > ."), RfError::UnclosedIndex);
    assert_eq!(error_of("*3 x"), RfError::ExpectedBrace);
    assert_eq!(error_of("\"a\" > .;\n*3{"), RfError::UnclosedBlock { open_line: 2, line: 2 });
    assert_eq!(error_of("\"abc"), RfError::UnterminatedText);
    assert_eq!(error_of("(+) > ."), RfError::MissingOperands(riff::Op::Add));
    assert_eq!(lines("+ > ."), vec!["0"]);
    assert_eq!(error_of("( > ."), RfError::MissingOperands(riff::Op::Open));
    assert_eq!(error_of("() > ."), RfError::EmptyResult);
}

#[test]
fn output_before_an_error_is_kept() {
    let r = run("\"a\" > .; 1 / 0 > .; \"b\" > .");
    assert_eq!(r.output, vec!["a"]);
    assert_eq!(r.error, Some(RfError::DivisionByZero));
}

#[test]
fn comments_nesting_and_leaking_names() {
    let code = "@ a comment > .\n*2{ *2{ _ > k; } k > . } k > .;\n?1{ 9 > z } z > .";
    assert_eq!(lines(code), vec!["1", "1", "1", "9"]);
}
