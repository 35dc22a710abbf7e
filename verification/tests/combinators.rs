//! The grammar written with parser combinators, and the parser held against it.

use lambda_types::lambda::{Statement, Term};
use lambda_types::parser::{parse, ParseError};
use nom::{
    branch::alt,
    bytes::complete::{tag, take_until},
    character::complete::{alpha1, alphanumeric1, multispace1},
    combinator::{eof, map_opt, recognize, value},
    error::{Error, ParseError as CombinatorError},
    multi::{many0, many0_count, many1, separated_list0},
    sequence::{delimited, pair, tuple},
    Finish, IResult,
};
use std::rc::Rc;

fn comment<'a, E: CombinatorError<&'a str>>(input: &'a str) -> IResult<&'a str, (), E> {
    value((), tuple((tag("(*"), take_until("*)"), tag("*)"))))(input)
}

fn ws<'a, E: CombinatorError<&'a str>>(input: &'a str) -> IResult<&'a str, (), E> {
    value((), many0_count(alt((value((), multispace1), comment))))(input)
}

fn token<'a, F: 'a, O, E: CombinatorError<&'a str>>(
    inner: F,
) -> impl FnMut(&'a str) -> IResult<&'a str, O, E>
where
    F: Fn(&'a str) -> IResult<&'a str, O, E>,
{
    delimited(ws, inner, ws)
}

fn identifier(input: &str) -> IResult<&str, &str> {
    map_opt(
        recognize(pair(
            alt((alpha1, tag("_"))),
            many0_count(alt((alphanumeric1, tag("_")))),
        )),
        |id| {
            if id != "fun" && id != "let" && id != "in" {
                Some(id)
            } else {
                None
            }
        },
    )(input)
}

fn parens<'a, F: 'a, O, E: CombinatorError<&'a str> + 'a>(
    inner: F,
) -> impl FnMut(&'a str) -> IResult<&'a str, O, E>
where
    F: Fn(&'a str) -> IResult<&'a str, O, E>,
{
    delimited(token(tag("(")), inner, token(tag(")")))
}

fn term(input: &str) -> IResult<&str, Term> {
    alt((term_app, term_abs, term_let, parens(term)))(input)
}

fn aterm(input: &str) -> IResult<&str, Term> {
    alt((term_var, parens(term)))(input)
}

fn term_var(input: &str) -> IResult<&str, Term> {
    let (input, name) = token(identifier)(input)?;
    Ok((input, Term::Var { name: String::from(name) }))
}

fn term_app(input: &str) -> IResult<&str, Term> {
    let (input, func) = aterm(input)?;
    let (input, args) = many0(aterm)(input)?;
    let result = args
        .into_iter()
        .fold(func, |acc, arg| Term::App { func: Rc::new(acc), arg: Rc::new(arg) });
    Ok((input, result))
}

fn abstraction(params: &[&str], body: Term) -> Term {
    params
        .iter()
        .rev()
        .fold(body, |acc, &param| Term::Abs { param: String::from(param), body: Rc::new(acc) })
}

fn term_abs(input: &str) -> IResult<&str, Term> {
    let (input, _) = token(tag("fun"))(input)?;
    let (input, params) = many1(token(identifier))(input)?;
    let (input, _) = token(tag("->"))(input)?;
    let (input, body) = term(input)?;
    Ok((input, abstraction(&params, body)))
}

fn term_let(input: &str) -> IResult<&str, Term> {
    let (input, _) = token(tag("let"))(input)?;
    let (input, name) = token(identifier)(input)?;
    let (input, params) = many0(token(identifier))(input)?;
    let (input, _) = token(tag("="))(input)?;
    let (input, value) = term(input)?;
    let (input, _) = token(tag("in"))(input)?;
    let (input, body) = term(input)?;
    let result = Term::Let {
        name: String::from(name),
        value: Rc::new(abstraction(&params, value)),
        body: Rc::new(body),
    };
    Ok((input, result))
}

fn stmt(input: &str) -> IResult<&str, Statement> {
    let (input, _) = token(tag("let"))(input)?;
    let (input, name) = token(identifier)(input)?;
    let (input, params) = many0(token(identifier))(input)?;
    let (input, _) = token(tag("="))(input)?;
    let (input, value) = term(input)?;
    let result = Statement::Declaration {
        name: String::from(name),
        value: Rc::new(abstraction(&params, value)),
    };
    Ok((input, result))
}

fn program(input: &str) -> IResult<&str, Vec<Statement>> {
    let (input, stmts) = separated_list0(many1(token(tag(";"))), stmt)(input)?;
    let (input, _) = many0(token(tag(";")))(input)?;
    let (input, _) = eof(input)?;
    Ok((input, stmts))
}

fn with_combinators(input: &str) -> Result<Vec<Statement>, ParseError> {
    match program(input).finish() {
        Ok((_, stmts)) => Ok(stmts),
        Err(Error { input: rest, .. }) => {
            let read = &input[..input.len() - rest.len()];
            Err(ParseError { offset: read.chars().count() })
        }
    }
}

struct Source {
    state: u64,
}

impl Source {
    fn next(&mut self, bound: usize) -> usize {
        self.state ^= self.state << 13;
        self.state ^= self.state >> 7;
        self.state ^= self.state << 17;
        (self.state % bound as u64) as usize
    }

    fn pick<'a>(&mut self, pieces: &[&'a str]) -> &'a str {
        pieces[self.next(pieces.len())]
    }

    fn space(&mut self, text: &mut String) {
        let pieces = ["", "", " ", " ", "\n", "\t", "\r\n", "(* c *)", "(**)", " (* \u{3bb} *) "];
        text.push_str(self.pick(&pieces));
    }

    fn name(&mut self, text: &mut String) {
        let pieces = ["x", "y", "f", "_", "x1", "fun_", "letter", "inner", "In", "A_b9"];
        text.push_str(self.pick(&pieces));
    }

    fn term(&mut self, text: &mut String, depth: u32) {
        let choice = if depth == 0 { 0 } else { self.next(7) };
        match choice {
            0 | 1 => self.name(text),
            2 | 3 => {
                let count = 2 + self.next(2);
                for index in 0..count {
                    if index > 0 {
                        text.push(' ');
                    }
                    if self.next(2) == 0 {
                        self.name(text);
                    } else {
                        text.push('(');
                        self.space(text);
                        self.term(text, depth - 1);
                        self.space(text);
                        text.push(')');
                    }
                    self.space(text);
                }
            }
            4 => {
                text.push('(');
                self.space(text);
                self.term(text, depth - 1);
                self.space(text);
                text.push(')');
            }
            5 => {
                text.push_str("fun ");
                for _ in 0..1 + self.next(3) {
                    self.space(text);
                    self.name(text);
                    text.push(' ');
                }
                text.push_str("->");
                self.space(text);
                self.term(text, depth - 1);
            }
            _ => {
                text.push_str("let ");
                self.binding(text, depth);
                text.push_str(" in ");
                self.space(text);
                self.term(text, depth - 1);
            }
        }
    }

    fn binding(&mut self, text: &mut String, depth: u32) {
        for _ in 0..1 + self.next(3) {
            self.space(text);
            self.name(text);
            text.push(' ');
        }
        self.space(text);
        text.push('=');
        self.space(text);
        self.term(text, depth - 1);
    }

    fn program(&mut self) -> String {
        let mut text = String::new();
        self.space(&mut text);
        for _ in 0..self.next(4) {
            text.push_str("let ");
            let depth = 1 + self.next(4) as u32;
            self.binding(&mut text, depth);
            self.space(&mut text);
            for _ in 0..1 + self.next(2) {
                text.push(';');
                self.space(&mut text);
            }
        }
        text
    }

    fn noise(&mut self) -> String {
        let pieces = [
            "let", "fun", "in", "x", "y", "f", "(", ")", "->", "=", ";", " ", " ", "(*", "*)",
            "*", "_", "1", "\n", "-", ">", "\u{3bb}",
        ];
        let mut text = String::new();
        for _ in 0..self.next(14) {
            text.push_str(self.pick(&pieces));
            if self.next(3) == 0 {
                text.push(' ');
            }
        }
        text
    }

    fn damaged(&mut self) -> String {
        let text = self.program();
        let chars: Vec<char> = text.chars().collect();
        if chars.is_empty() {
            return text;
        }
        let at = self.next(chars.len());
        let mut result: String = chars[..at].iter().collect();
        match self.next(3) {
            0 => {}
            1 => result.push_str(self.pick(&["(", ")", ";", "=", "in", "let", "fun", "->", "(*"])),
            _ => {
                result.push_str(self.pick(&[" ", "x", "1", "*)"]));
                result.push(chars[at]);
            }
        }
        result.extend(chars[at + 1..].iter());
        result
    }
}

#[test]
fn the_parser_agrees_with_the_combinators_on_chosen_texts() {
    let texts = [
        "",
        " ",
        ";",
        "let foo = x;",
        "let foo = x",
        "let bar = x (y z);",
        "let baz = fun x y -> x y;",
        "let qux = let f x = y in z;\n",
        "let a = x; let b = y",
        "let a = x;; ; let b = y;;",
        "let a = x let b = y",
        "letx=y",
        "let a = funx -> x",
        "let a = fun x->x",
        "let a = let x = y inz",
        "let a = let x = y in z",
        "let a = (x",
        "let a = x)",
        "let a = ((((x))))",
        "let a = ((((x)))",
        "let a = (* c *) x",
        "let a = (* c x",
        "let a = (*) x",
        "let a = x (* *) *)",
        "(* *)let a = x(* *)",
        "let a = 1",
        "let 1 = x",
        "let _ = _",
        "let a b c = a b c",
        "let fun = x",
        "let a = in",
        "let a = fun -> x",
        "let a = fun x y",
        "let a = x -> y",
        "let a = \u{3bb}",
        "let a = x (* \u{3bb}\u{3bb} *) )",
    ];
    for text in texts {
        assert_eq!(parse(text), with_combinators(text), "on {:?}", text);
    }
}

#[test]
fn the_parser_agrees_with_the_combinators_on_programs() {
    let mut source = Source { state: 0x853c_49e6_748f_ea9b };
    let mut read = 0;
    for _ in 0..600 {
        let text = source.program();
        let expected = with_combinators(&text);
        if expected.is_ok() {
            read += 1;
        }
        assert_eq!(parse(&text), expected, "on {:?}", text);
    }
    assert!(read > 300);
}

#[test]
fn the_parser_agrees_with_the_combinators_on_damaged_programs() {
    let mut source = Source { state: 0xda94_2042_e4dd_58b5 };
    let mut refused = 0;
    for _ in 0..600 {
        let text = source.damaged();
        let expected = with_combinators(&text);
        if expected.is_err() {
            refused += 1;
        }
        assert_eq!(parse(&text), expected, "on {:?}", text);
    }
    assert!(refused > 100);
}

#[test]
fn the_parser_agrees_with_the_combinators_on_noise() {
    let mut source = Source { state: 0x6a09_e667_f3bc_c908 };
    for _ in 0..1500 {
        let text = source.noise();
        assert_eq!(parse(&text), with_combinators(&text), "on {:?}", text);
    }
}
