use lambda_types::lambda::{Statement, Term};
use lambda_types::parser::{is_reserved_word, parse, ParseError};
use std::rc::Rc;

fn var(name: &str) -> Term {
    Term::Var { name: String::from(name) }
}

fn app(func: Term, arg: Term) -> Term {
    Term::App { func: Rc::new(func), arg: Rc::new(arg) }
}

fn abs(param: &str, body: Term) -> Term {
    Term::Abs { param: String::from(param), body: Rc::new(body) }
}

fn bind(name: &str, value: Term, body: Term) -> Term {
    Term::Let { name: String::from(name), value: Rc::new(value), body: Rc::new(body) }
}

fn decl(name: &str, value: Term) -> Statement {
    Statement::Declaration { name: String::from(name), value: Rc::new(value) }
}

#[test]
fn reserved_words_are_fun_let_and_in() {
    assert!(is_reserved_word("fun"));
    assert!(is_reserved_word("let"));
    assert!(is_reserved_word("in"));
    assert!(!is_reserved_word("fund"));
    assert!(!is_reserved_word("Let"));
    assert!(!is_reserved_word(""));
    assert!(!is_reserved_word("x"));
}

#[test]
fn the_empty_text_is_the_empty_program() {
    assert_eq!(parse(""), Ok(vec![]));
}

#[test]
fn semicolons_alone_are_the_empty_program() {
    assert_eq!(parse(";"), Ok(vec![]));
    assert_eq!(parse(" ; ;\n;"), Ok(vec![]));
}

#[test]
fn white_space_alone_is_no_program() {
    assert_eq!(parse(" \n"), Err(ParseError { offset: 0 }));
}

#[test]
fn application_associates_to_the_left() {
    assert_eq!(
        parse("let a = x y z"),
        Ok(vec![decl("a", app(app(var("x"), var("y")), var("z")))])
    );
}

#[test]
fn parentheses_group() {
    assert_eq!(
        parse("let a = (x) ((y z))"),
        Ok(vec![decl("a", app(var("x"), app(var("y"), var("z"))))])
    );
}

#[test]
fn parameters_of_a_declaration_become_abstractions() {
    assert_eq!(
        parse("let f x y = x"),
        Ok(vec![decl("f", abs("x", abs("y", var("x"))))])
    );
}

#[test]
fn parameters_of_a_local_let_become_abstractions() {
    assert_eq!(
        parse("let a = let f x y = x in f"),
        Ok(vec![decl("a", bind("f", abs("x", abs("y", var("x"))), var("f")))])
    );
}

#[test]
fn an_abstraction_reaches_as_far_as_it_can() {
    assert_eq!(
        parse("let a = fun x -> x fun"),
        Err(ParseError { offset: 19 })
    );
    assert_eq!(
        parse("let a = f (fun x -> x y)"),
        Ok(vec![decl("a", app(var("f"), abs("x", app(var("x"), var("y")))))])
    );
}

#[test]
fn comments_and_white_space_surround_tokens() {
    assert_eq!(
        parse("(* one *)let(**)a\t=\r\n(* two\n lines *) x (* three *) ; (* four *)"),
        Ok(vec![decl("a", var("x"))])
    );
}

#[test]
fn a_comment_ends_at_the_first_close() {
    assert_eq!(
        parse("let a = (* (* *) x"),
        Ok(vec![decl("a", var("x"))])
    );
    assert_eq!(parse("let a = x (* *) *)"), Err(ParseError { offset: 16 }));
}

#[test]
fn an_open_comment_is_no_white_space() {
    assert_eq!(parse("let a = x (* y"), Err(ParseError { offset: 10 }));
    assert_eq!(parse("let a = x (*)"), Err(ParseError { offset: 10 }));
}

#[test]
fn comments_may_hold_any_character() {
    assert_eq!(
        parse("let a = (* \u{3bb} \u{2192} *) x"),
        Ok(vec![decl("a", var("x"))])
    );
}

#[test]
fn identifiers_hold_letters_digits_and_underscores() {
    assert_eq!(
        parse("let _a1 = B_2 __ x9_"),
        Ok(vec![decl("_a1", app(app(var("B_2"), var("__")), var("x9_")))])
    );
}

#[test]
fn an_identifier_does_not_start_with_a_digit() {
    assert_eq!(parse("let a = 1"), Err(ParseError { offset: 0 }));
    assert_eq!(parse("let 1a = x"), Err(ParseError { offset: 0 }));
}

#[test]
fn reserved_words_are_no_identifiers() {
    assert_eq!(parse("let let = x"), Err(ParseError { offset: 0 }));
    assert_eq!(parse("let a = in"), Err(ParseError { offset: 0 }));
    assert_eq!(parse("let a = fun"), Err(ParseError { offset: 0 }));
}

#[test]
fn a_word_that_starts_like_a_reserved_word_is_an_identifier() {
    assert_eq!(
        parse("let a = letter funny inner"),
        Ok(vec![decl("a", app(app(var("letter"), var("funny")), var("inner")))])
    );
}

#[test]
fn a_keyword_needs_no_space_after_it() {
    assert_eq!(parse("letx=y"), Ok(vec![decl("x", var("y"))]));
    assert_eq!(
        parse("let a = let x=y in(x)"),
        Ok(vec![decl("a", bind("x", var("y"), var("x")))])
    );
}

#[test]
fn an_abstraction_needs_a_parameter() {
    assert_eq!(parse("let a = fun -> x"), Err(ParseError { offset: 0 }));
}

#[test]
fn a_local_let_needs_its_body() {
    assert_eq!(parse("let a = let x = y"), Err(ParseError { offset: 0 }));
}

#[test]
fn statements_are_separated_by_semicolons() {
    assert_eq!(
        parse("let a = x;;; let b = y ;"),
        Ok(vec![decl("a", var("x")), decl("b", var("y"))])
    );
    assert_eq!(parse("let a = x let b = y"), Err(ParseError { offset: 10 }));
}

#[test]
fn the_offset_counts_characters() {
    assert_eq!(
        parse("let a = x; (* \u{3bb}\u{3bb} *) let"),
        Err(ParseError { offset: 20 })
    );
    assert_eq!(
        parse("(* \u{3bb}\u{3bb} *) let a = x )"),
        Err(ParseError { offset: 19 })
    );
}

#[test]
fn a_let_in_the_value_of_a_let_is_read() {
    assert_eq!(
        parse("let a = let x = let y = z in y in x"),
        Ok(vec![decl("a", bind("x", bind("y", var("z"), var("y")), var("x")))])
    );
}
