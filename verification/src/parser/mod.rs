//! The parser: from the text of a program to its statements.
//!
//! The grammar is read as ordered choices over the characters of the text: each
//! rule takes a position and yields what it read and where it stopped, or nothing.
//! Every token may be surrounded by white space and comments.

pub mod lexer;
pub mod terms;

pub use crate::parser::lexer::is_reserved_word;

use crate::lambda::{program_view, Decl, Statement};
use crate::parser::lexer::{is_identifier, lemma_token_tag_bounds, to_chars, token, token_tag};
use crate::parser::terms::{
    abstracted, abstraction, binding, lemma_abstracted_well_named, lemma_binding_well_named,
    lemma_parse_binding_bounds, lemma_parse_term_bounds, lemma_term_well_named, parse_binding,
    parse_term, term, well_named,
};
use std::rc::Rc;
use vstd::prelude::*;

verus! {

/// Why a text is no program: reading it stopped before its end.
#[derive(Clone, Copy, Debug, PartialEq, Eq)]
pub struct ParseError {
    /// The number of characters before the place where reading stopped.
    pub offset: usize,
}

/// `stmt := "let" id id* "=" term`: the declaration of the first identifier as the
/// term, abstracted over the other identifiers.
pub open spec fn parse_decl(s: Seq<char>, i: int) -> Option<(Decl, int)> {
    match parse_binding(s, i) {
        Some((name, params, equals)) => match parse_term(s, equals) {
            Some((value, end)) => Some(
                (Decl::Declaration { name, value: abstracted(params, value) }, end),
            ),
            None => None,
        },
        None => None,
    }
}

/// The position after the semicolons that follow one another from `i` on.
pub open spec fn semicolons(s: Seq<char>, i: int) -> int
    decreases s.len() - i,
{
    if 0 <= i <= s.len() {
        match token_tag(s, i, ";"@) {
            Some(next) => {
                proof {
                    lemma_token_tag_bounds(s, i, ";"@);
                    reveal_strlit(";");
                }
                semicolons(s, next)
            },
            None => i,
        }
    } else {
        i
    }
}

/// The statements that follow those in `acc` from `i` on, each after one semicolon
/// or more, and the position after the last of them.
pub open spec fn parse_more_decls(s: Seq<char>, i: int, acc: Seq<Decl>) -> (Seq<Decl>, int)
    decreases s.len() - i,
{
    if 0 <= i <= s.len() {
        match token_tag(s, i, ";"@) {
            Some(next) => {
                let start = semicolons(s, next);
                match parse_decl(s, start) {
                    Some((decl, end)) => {
                        proof {
                            lemma_token_tag_bounds(s, i, ";"@);
                            lemma_semicolons_bounds(s, next);
                            lemma_parse_decl_bounds(s, start);
                        }
                        parse_more_decls(s, end, acc.push(decl))
                    },
                    None => (acc, i),
                }
            },
            None => (acc, i),
        }
    } else {
        (acc, i)
    }
}

/// `stmt (";"+ stmt)*`, or nothing: the statements at the start of the text, and
/// the position after the last of them.
pub open spec fn parse_decls(s: Seq<char>) -> (Seq<Decl>, int) {
    match parse_decl(s, 0) {
        Some((decl, end)) => parse_more_decls(s, end, seq![decl]),
        None => (Seq::empty(), 0),
    }
}

/// Where reading the program stops: after its statements and the semicolons that
/// follow them.
pub open spec fn parse_stop(s: Seq<char>) -> int {
    semicolons(s, parse_decls(s).1)
}

/// `program := (stmt (";"+ stmt)* ";"*)? EOF`: the statements of the text, if
/// reading them stops at its end.
pub open spec fn parse_program(s: Seq<char>) -> Option<Seq<Decl>> {
    if parse_stop(s) == s.len() {
        Some(parse_decls(s).0)
    } else {
        None
    }
}

/// A run of semicolons ends after its start and within the text.
pub proof fn lemma_semicolons_bounds(s: Seq<char>, i: int)
    requires
        0 <= i <= s.len(),
    ensures
        i <= semicolons(s, i) <= s.len(),
    decreases s.len() - i,
{
    lemma_token_tag_bounds(s, i, ";"@);
    reveal_strlit(";");
    if let Some(next) = token_tag(s, i, ";"@) {
        lemma_semicolons_bounds(s, next);
    }
}

/// A statement takes at least one character and ends within the text.
pub proof fn lemma_parse_decl_bounds(s: Seq<char>, i: int)
    requires
        0 <= i <= s.len(),
    ensures
        parse_decl(s, i) matches Some((_, end)) ==> i < end <= s.len(),
{
    lemma_parse_binding_bounds(s, i);
    if let Some((name, params, equals)) = parse_binding(s, i) {
        lemma_parse_term_bounds(s, equals);
    }
}

/// The statement declares an identifier as a term in which every name is one.
pub open spec fn decl_well_named(decl: Decl) -> bool {
    match decl {
        Decl::Declaration { name, value } => is_identifier(name) && well_named(value),
    }
}

/// A statement that was read declares an identifier as a term of identifiers.
pub proof fn lemma_decl_well_named(s: Seq<char>, i: int)
    requires
        0 <= i <= s.len(),
    ensures
        parse_decl(s, i) matches Some((decl, _)) ==> decl_well_named(decl),
{
    lemma_parse_binding_bounds(s, i);
    lemma_binding_well_named(s, i);
    if let Some((name, params, equals)) = parse_binding(s, i) {
        lemma_term_well_named(s, equals);
        if let Some((value, end)) = parse_term(s, equals) {
            lemma_abstracted_well_named(params, value);
        }
    }
}

/// The statements read after statements of identifiers are statements of
/// identifiers.
proof fn lemma_more_decls_well_named(s: Seq<char>, i: int, acc: Seq<Decl>)
    requires
        forall|k: int| 0 <= k < acc.len() ==> decl_well_named(#[trigger] acc[k]),
    ensures
        forall|k: int|
            0 <= k < parse_more_decls(s, i, acc).0.len() ==> decl_well_named(
                #[trigger] parse_more_decls(s, i, acc).0[k],
            ),
    decreases s.len() - i,
{
    let read = parse_more_decls(s, i, acc);
    if 0 <= i <= s.len() {
        if let Some(next) = token_tag(s, i, ";"@) {
            lemma_token_tag_bounds(s, i, ";"@);
            lemma_semicolons_bounds(s, next);
            let start = semicolons(s, next);
            lemma_parse_decl_bounds(s, start);
            lemma_decl_well_named(s, start);
            if let Some((decl, end)) = parse_decl(s, start) {
                let more = acc.push(decl);
                assert(read == parse_more_decls(s, end, more));
                assert forall|k: int| 0 <= k < more.len() implies decl_well_named(
                    #[trigger] more[k],
                ) by {
                    if k < acc.len() {
                        assert(more[k] == acc[k]);
                    }
                }
                lemma_more_decls_well_named(s, end, more);
            } else {
                assert(read.0 == acc);
            }
        } else {
            assert(read.0 == acc);
        }
    } else {
        assert(read.0 == acc);
    }
}

/// The parser yields well-formed programs: every name in a program that was read,
/// of a declaration, a binder or a variable, is an identifier.
pub proof fn lemma_program_well_named(s: Seq<char>)
    ensures
        parse_program(s) is Some ==> forall|k: int|
            0 <= k < parse_program(s)->0.len() ==> decl_well_named(
                #[trigger] parse_program(s)->0[k],
            ),
{
    lemma_parse_decl_bounds(s, 0);
    lemma_decl_well_named(s, 0);
    if let Some((decl, end)) = parse_decl(s, 0) {
        lemma_more_decls_well_named(s, end, seq![decl]);
    }
}

/// A statement.
fn stmt(chars: &Vec<char>, i: usize) -> (r: Option<(Statement, usize)>)
    requires
        i <= chars.len(),
    ensures
        match r {
            Some((decl, end)) => parse_decl(chars@, i as int) == Some((decl@, end as int)) && i
                < end <= chars.len(),
            None => parse_decl(chars@, i as int) is None,
        },
{
    stmt_decl(chars, i)
}

/// `stmt := "let" id id* "=" term`.
fn stmt_decl(chars: &Vec<char>, i: usize) -> (r: Option<(Statement, usize)>)
    requires
        i <= chars.len(),
    ensures
        match r {
            Some((decl, end)) => parse_decl(chars@, i as int) == Some((decl@, end as int)) && i
                < end <= chars.len(),
            None => parse_decl(chars@, i as int) is None,
        },
{
    let (name, params, equals) = binding(chars, i)?;
    let (value, end) = term(chars, equals)?;
    Some((Statement::Declaration { name, value: Rc::new(abstraction(&params, value)) }, end))
}

/// The semicolons that follow one another from `i` on.
fn separators(chars: &Vec<char>, i: usize) -> (end: usize)
    requires
        i <= chars.len(),
    ensures
        end == semicolons(chars@, i as int),
        i <= end <= chars.len(),
{
    proof {
        reveal_strlit(";");
    }
    let mut k: usize = i;
    loop
        invariant
            i <= k <= chars.len(),
            semicolons(chars@, i as int) == semicolons(chars@, k as int),
            ";"@.len() == 1,
        ensures
            i <= k <= chars.len(),
            k == semicolons(chars@, i as int),
        decreases chars.len() - k,
    {
        match token(chars, k, ";") {
            Some(next) => {
                k = next;
            },
            None => {
                break ;
            },
        }
    }
    k
}

/// `program := (stmt (";"+ stmt)* ";"*)? EOF`.
fn program(chars: &Vec<char>) -> (r: Result<Vec<Statement>, ParseError>)
    ensures
        match r {
            Ok(stmts) => parse_program(chars@) == Some(program_view(stmts@)),
            Err(e) => parse_program(chars@) is None && e.offset == parse_stop(chars@),
        },
{
    proof {
        reveal_strlit(";");
    }
    let mut stmts: Vec<Statement> = Vec::new();
    let mut k: usize = 0;
    match stmt(chars, 0) {
        Some((first, end)) => {
            stmts.push(first);
            k = end;
            assert(program_view(stmts@) =~= seq![first@]);
            loop
                invariant
                    k <= chars.len(),
                    ";"@.len() == 1,
                    parse_decls(chars@) == parse_more_decls(
                        chars@,
                        k as int,
                        program_view(stmts@),
                    ),
                ensures
                    k <= chars.len(),
                    parse_decls(chars@) == (program_view(stmts@), k as int),
                decreases chars.len() - k,
            {
                match token(chars, k, ";") {
                    Some(next) => {
                        let start: usize = separators(chars, next);
                        match stmt(chars, start) {
                            Some((decl, end)) => {
                                let ghost before = program_view(stmts@);
                                stmts.push(decl);
                                assert(program_view(stmts@) =~= before.push(decl@));
                                k = end;
                            },
                            None => {
                                break ;
                            },
                        }
                    },
                    None => {
                        break ;
                    },
                }
            }
        },
        None => {
            assert(program_view(stmts@) =~= Seq::<Decl>::empty());
        },
    }
    let stop: usize = separators(chars, k);
    if stop == chars.len() {
        Ok(stmts)
    } else {
        Err(ParseError { offset: stop })
    }
}

/// Reads a program: its statements if the whole text is one, else the place where
/// reading stopped. Every name in the statements read is an identifier.
pub fn parse(input: &str) -> (r: Result<Vec<Statement>, ParseError>)
    ensures
        match r {
            Ok(stmts) => parse_program(input@) == Some(program_view(stmts@)),
            Err(e) => parse_program(input@) is None && e.offset == parse_stop(input@),
        },
        r matches Ok(stmts) ==> forall|k: int|
            0 <= k < stmts@.len() ==> decl_well_named((#[trigger] stmts@[k])@),
{
    let chars = to_chars(input);
    let r = program(&chars);
    proof {
        lemma_program_well_named(input@);
        if r is Ok {
            let stmts = r->Ok_0;
            assert forall|k: int| 0 <= k < stmts@.len() implies decl_well_named(
                (#[trigger] stmts@[k])@,
            ) by {
                assert(parse_program(input@)->0 == program_view(stmts@));
                assert(decl_well_named(parse_program(input@)->0[k]));
            }
        }
    }
    r
}

} // verus!
