//! The whole compiler: parse, transform, generate.

use crate::generator::{generate, program_emittable, program_text};
use crate::lambda::{program_view, Decl, Statement};
use crate::parser::{parse, parse_program, parse_stop, ParseError};
use crate::transformer::shape::lemma_spine_is_lifted;
use crate::transformer::{transform, transformed};
use std::rc::Rc;
use vstd::prelude::*;

verus! {

/// The statement with its value transformed.
pub open spec fn transformed_decl(decl: Decl) -> Decl {
    match decl {
        Decl::Declaration { name, value } => Decl::Declaration { name, value: transformed(value) },
    }
}

/// The statements, each with its value transformed, in the same order.
pub open spec fn transformed_program(decls: Seq<Decl>) -> Seq<Decl> {
    decls.map_values(|decl: Decl| transformed_decl(decl))
}

/// The text generated for a source text, if the source is a program.
pub open spec fn compiled(source: Seq<char>) -> Option<Seq<char>> {
    match parse_program(source) {
        Some(decls) => Some(program_text(transformed_program(decls))),
        None => None,
    }
}

/// Transforms the value of every statement; the result is a program that the
/// generator takes.
pub fn transform_program(program: &Vec<Statement>) -> (result: Vec<Statement>)
    ensures
        program_view(result@) == transformed_program(program_view(program@)),
        program_emittable(program_view(result@)),
{
    let mut result: Vec<Statement> = Vec::new();
    let mut i: usize = 0;
    while i < program.len()
        invariant
            i <= program.len(),
            result@.len() == i,
            forall|k: int|
                0 <= k < i ==> (#[trigger] result@[k])@ == transformed_decl(program@[k]@),
            forall|k: int|
                0 <= k < i ==> {
                    &&& ((#[trigger] result@[k])@->value).lets_lifted()
                    &&& (result@[k]@->value).apps_normal()
                },
        decreases program.len() - i,
    {
        match &program[i] {
            Statement::Declaration { name, value } => {
                let value = transform(value);
                proof {
                    lemma_spine_is_lifted(value@);
                }
                result.push(Statement::Declaration { name: name.clone(), value: Rc::new(value) });
            },
        }
        i += 1;
    }
    assert(program_view(result@) =~= transformed_program(program_view(program@)));
    result
}

/// Compiles a source text: the generated text if the source is a program, else the
/// place where reading it stopped.
pub fn compile(source: &str) -> (r: Result<String, ParseError>)
    ensures
        match r {
            Ok(code) => compiled(source@) == Some(code@),
            Err(e) => compiled(source@) is None && e.offset == parse_stop(source@),
        },
{
    match parse(source) {
        Ok(program) => {
            let program = transform_program(&program);
            Ok(generate(&program))
        },
        Err(e) => Err(e),
    }
}

} // verus!
