//! The generator: from a program in normal form to the text of the type-level
//! encoding.

use crate::lambda::{lemma_rename_size, program_view, share, Decl, Lam, Statement, Term};
use crate::names::name_views;
use crate::text::{decimal, decimal_string};
use crate::transformer::shape::lemma_subst_shape;
use std::rc::Rc;
use vstd::prelude::*;
use vstd::string::StringExecFns;

verus! {

/// The text of an app-normal term: a variable is its name, an application is `App`
/// with the texts of its two parts.
pub open spec fn term_text(t: Lam) -> Seq<char>
    recommends
        t.is_app_normal(),
    decreases t,
{
    match t {
        Lam::Var { name } => name,
        Lam::App { func, arg } => "App<"@ + term_text(*func) + ", "@ + term_text(*arg) + ">"@,
        _ => Seq::empty(),
    }
}

/// The parameters of the abstractions at the head of a term, outermost first.
pub open spec fn spine_params(t: Lam) -> Seq<Seq<char>>
    decreases t,
{
    match t {
        Lam::Abs { param, body } => seq![param] + spine_params(*body),
        _ => Seq::empty(),
    }
}

/// What stands below the abstractions at the head of a term.
pub open spec fn spine_body(t: Lam) -> Lam
    decreases t,
{
    match t {
        Lam::Abs { body, .. } => spine_body(*body),
        _ => t,
    }
}

/// The names, separated by a comma and a space.
pub open spec fn joined(names: Seq<Seq<char>>) -> Seq<char>
    decreases names.len(),
{
    if names.len() == 0 {
        Seq::empty()
    } else if names.len() == 1 {
        names[0]
    } else {
        joined(names.drop_last()) + ", "@ + names.last()
    }
}

/// The name of the interface or alias for `name` after `depth` parameters.
pub open spec fn staged_name(name: Seq<char>, depth: nat) -> Seq<char> {
    name + "$"@ + decimal(depth)
}

/// The interface that takes the parameter at `depth`, given those before it.
pub open spec fn interface_text(name: Seq<char>, params: Seq<Seq<char>>, depth: nat) -> Seq<
    char,
> {
    let taken = joined(params.take(depth as int));
    let sig = if depth == 0 {
        name
    } else {
        staged_name(name, depth) + "<"@ + taken + ">"@
    };
    let ret = if depth == 0 {
        staged_name(name, depth + 1) + "<this[\"arg\"]>"@
    } else {
        staged_name(name, depth + 1) + "<"@ + taken + ", this[\"arg\"]>"@
    };
    "interface "@ + sig + " extends Fun { ret: "@ + ret + " }\n"@
}

/// The interfaces for the first `count` parameters, one line each.
pub open spec fn interfaces_text(name: Seq<char>, params: Seq<Seq<char>>, count: nat) -> Seq<
    char,
>
    decreases count,
{
    if count == 0 {
        Seq::empty()
    } else {
        interfaces_text(name, params, (count - 1) as nat) + interface_text(
            name,
            params,
            (count - 1) as nat,
        )
    }
}

/// The alias that ends the encoding of an abstraction: it takes all the parameters
/// and stands for the text of `inner`.
pub open spec fn terminal_text(name: Seq<char>, params: Seq<Seq<char>>, inner: Lam) -> Seq<char> {
    "type "@ + staged_name(name, params.len()) + "<"@ + joined(params) + "> = "@ + term_text(inner)
        + ";\n"@
}

/// The alias for a declaration whose value is app-normal.
pub open spec fn alias_text(name: Seq<char>, value: Lam) -> Seq<char> {
    "type "@ + name + " = "@ + term_text(value) + ";\n"@
}

/// The name under which the binding `inner` of the declaration `name` is emitted.
pub open spec fn inner_name(name: Seq<char>, inner: Seq<char>) -> Seq<char> {
    name + "$"@ + inner
}

/// The text for the declaration of `name` as `value`.
///
/// An app-normal value gives one alias. An abstraction gives one interface for each
/// parameter of its spine and a terminal alias. A `let` gives first the text for its
/// value, declared as `name$inner`, then the text for its body, in which that name
/// stands for the binding, declared as `name`.
pub open spec fn statement_text(name: Seq<char>, value: Lam) -> Seq<char>
    decreases value.size(),
{
    match value {
        Lam::Var { .. } => alias_text(name, value),
        Lam::App { .. } => alias_text(name, value),
        Lam::Abs { .. } => interfaces_text(name, spine_params(value), spine_params(value).len())
            + terminal_text(name, spine_params(value), spine_body(value)),
        Lam::Let { name: inner, value: bound, body } => {
            let new_name = inner_name(name, inner);
            proof {
                lemma_rename_size(*body, inner, new_name);
            }
            statement_text(new_name, *bound) + statement_text(name, body.rename(inner, new_name))
        },
    }
}

/// The text for a statement.
pub open spec fn decl_text(decl: Decl) -> Seq<char> {
    match decl {
        Decl::Declaration { name, value } => statement_text(name, value),
    }
}

/// The texts for the statements, in order.
pub open spec fn statements_text(decls: Seq<Decl>) -> Seq<char>
    decreases decls.len(),
{
    if decls.len() == 0 {
        Seq::empty()
    } else {
        statements_text(decls.drop_last()) + decl_text(decls.last())
    }
}

/// The two lines that every generated program starts with.
pub open spec fn preamble_text() -> Seq<char> {
    "interface Fun { arg: unknown; ret: unknown }\n"@
        + "type App<F, X> = F extends Fun ? (F & { arg: X })[\"ret\"] : never;\n"@
}

/// The text of the whole program: the preamble, then the statements in order.
pub open spec fn program_text(decls: Seq<Decl>) -> Seq<char> {
    preamble_text() + statements_text(decls)
}

/// The values that the generator takes: no `let` below an abstraction, and every
/// application app-normal.
pub open spec fn emittable(value: Lam) -> bool {
    value.lets_lifted() && value.apps_normal()
}

/// Every statement of the program declares a value that the generator takes.
pub open spec fn program_emittable(decls: Seq<Decl>) -> bool {
    forall|i: int| 0 <= i < decls.len() ==> emittable((#[trigger] decls[i])->value)
}

/// The text of an app-normal term.
pub fn generate_term(term: &Term) -> (text: String)
    requires
        term@.is_app_normal(),
    ensures
        text@ == term_text(term@),
    decreases term,
{
    match term {
        Term::Var { name } => name.clone(),
        Term::App { func, arg } => {
            let func = generate_term(func);
            let arg = generate_term(arg);
            let mut text = String::from_str("App<");
            text.append(func.as_str());
            text.append(", ");
            text.append(arg.as_str());
            text.append(">");
            text
        },
        Term::Abs { .. } => unreached(),
        Term::Let { .. } => unreached(),
    }
}

/// Adds the parameters of the abstractions at the head of `term` to `params`, and
/// returns what stands below them.
fn abs_spine<'a>(term: &'a Term, params: &mut Vec<String>) -> (inner: &'a Term)
    ensures
        name_views(final(params)@) == name_views(old(params)@) + spine_params(term@),
        inner@ == spine_body(term@),
    decreases term,
{
    match term {
        Term::Abs { param, body } => {
            let ghost before = name_views(params@);
            params.push(param.clone());
            assert(name_views(params@) =~= before + seq![param@]);
            let inner = abs_spine(body, params);
            assert(name_views(params@) =~= before + spine_params(term@));
            inner
        },
        _ => {
            assert(name_views(params@) =~= name_views(params@) + spine_params(term@));
            term
        },
    }
}

/// `name`, a dollar sign and `depth` in decimal.
fn staged(name: &String, depth: usize) -> (text: String)
    ensures
        text@ == staged_name(name@, depth as nat),
{
    let mut text = name.clone();
    text.append("$");
    text.append(decimal_string(depth).as_str());
    text
}

/// The line of the interface that takes the parameter at `depth`; `taken` lists
/// the parameters before it.
fn interface_line(name: &String, depth: usize, taken: &String, Ghost(params): Ghost<
    Seq<Seq<char>>,
>) -> (line: String)
    requires
        depth < usize::MAX,
        taken@ == joined(params.take(depth as int)),
    ensures
        line@ == interface_text(name@, params, depth as nat),
{
    let if_sig = if depth == 0 {
        name.clone()
    } else {
        let mut sig = staged(name, depth);
        sig.append("<");
        sig.append(taken.as_str());
        sig.append(">");
        sig
    };
    let next_depth: usize = depth + 1;
    let mut if_ret = staged(name, next_depth);
    if depth == 0 {
        if_ret.append("<this[\"arg\"]>");
    } else {
        if_ret.append("<");
        if_ret.append(taken.as_str());
        if_ret.append(", this[\"arg\"]>");
    }
    let mut line = String::from_str("interface ");
    line.append(if_sig.as_str());
    line.append(" extends Fun { ret: ");
    line.append(if_ret.as_str());
    line.append(" }\n");
    line
}

/// The text for a statement whose value the generator takes.
pub fn generate_statement(stmt: &Statement) -> (text: String)
    requires
        emittable(stmt@->value),
    ensures
        text@ == decl_text(stmt@),
    decreases stmt@->value.size(),
{
    match stmt {
        Statement::Declaration { name, value } => match &**value {
            Term::Var { .. } | Term::App { .. } => {
                let ret = generate_term(value);
                let mut text = String::from_str("type ");
                text.append(name.as_str());
                text.append(" = ");
                text.append(ret.as_str());
                text.append(";\n");
                text
            },
            Term::Abs { .. } => {
                let mut res = String::new();
                let mut if_args = String::new();
                let mut params: Vec<String> = Vec::new();
                let inner = abs_spine(value, &mut params);
                let ghost listed = name_views(params@);
                proof {
                    assert(listed =~= spine_params((**value)@));
                    lemma_spine_body_app_normal((**value)@);
                }
                let mut depth: usize = 0;
                while depth < params.len()
                    invariant
                        depth <= params.len(),
                        listed == name_views(params@),
                        res@ == interfaces_text(name@, listed, depth as nat),
                        if_args@ == joined(listed.take(depth as int)),
                    decreases params.len() - depth,
                {
                    let if_code = interface_line(name, depth, &if_args, Ghost(listed));
                    res.append(if_code.as_str());
                    if depth == 0 {
                        if_args.append(params[depth].as_str());
                    } else {
                        if_args.append(", ");
                        if_args.append(params[depth].as_str());
                    }
                    proof {
                        let next = listed.take(depth + 1);
                        assert(next.drop_last() =~= listed.take(depth as int));
                        assert(next.last() == params@[depth as int]@);
                    }
                    depth = depth + 1;
                }
                assert(listed.take(depth as int) =~= listed);
                let alias_name = staged(name, depth);
                let alias_ret = generate_term(inner);
                let mut alias_code = String::from_str("type ");
                alias_code.append(alias_name.as_str());
                alias_code.append("<");
                alias_code.append(if_args.as_str());
                alias_code.append("> = ");
                alias_code.append(alias_ret.as_str());
                alias_code.append(";\n");
                res.append(alias_code.as_str());
                res
            },
            Term::Let { .. } => {
                let mut res = String::new();
                let mut current_term: Term = (**value).clone();
                loop
                    invariant_except_break
                        emittable(current_term@),
                        current_term@ == (**value)@ || current_term@.size() < (**value)@.size(),
                        statement_text(name@, (**value)@) == res@ + statement_text(
                            name@,
                            current_term@,
                        ),
                    invariant
                        (**value)@ is Let,
                        (**value)@ == stmt@->value,
                    ensures
                        emittable(current_term@),
                        !(current_term@ is Let),
                        current_term@.size() < (**value)@.size(),
                        statement_text(name@, (**value)@) == res@ + statement_text(
                            name@,
                            current_term@,
                        ),
                    decreases current_term@.size(),
                {
                    if let Term::Let { name: inner_name, value: inner_value, body: inner_body } =
                        &current_term {
                        let mut new_name = name.clone();
                        new_name.append("$");
                        new_name.append(inner_name.as_str());
                        proof {
                            lemma_rename_size((**inner_body)@, inner_name@, new_name@);
                            lemma_subst_shape((**inner_body)@, inner_name@, Lam::var(new_name@));
                        }
                        let hyp_stmt = Statement::Declaration {
                            name: new_name.clone(),
                            value: share(inner_value),
                        };
                        let code = generate_statement(&hyp_stmt);
                        let ghost before = res@;
                        res.append(code.as_str());
                        let next = inner_body.subst(inner_name, &Term::var(new_name));
                        proof {
                            assert(statement_text(name@, current_term@) == code@ + statement_text(
                                name@,
                                next@,
                            ));
                            assert(before + (code@ + statement_text(name@, next@)) =~= (before
                                + code@) + statement_text(name@, next@));
                        }
                        current_term = next;
                    } else {
                        break ;
                    }
                }
                let hyp_stmt = Statement::Declaration {
                    name: name.clone(),
                    value: Rc::new(current_term),
                };
                let code = generate_statement(&hyp_stmt);
                res.append(code.as_str());
                res
            },
        },
    }
}

/// The text of a program whose statements declare values that the generator takes:
/// the preamble, then the text for each statement, in order.
pub fn generate(program: &Vec<Statement>) -> (code: String)
    requires
        program_emittable(program_view(program@)),
    ensures
        code@ == program_text(program_view(program@)),
{
    let mut res = String::new();
    res.append("interface Fun { arg: unknown; ret: unknown }\n");
    res.append("type App<F, X> = F extends Fun ? (F & { arg: X })[\"ret\"] : never;\n");
    let ghost decls = program_view(program@);
    assert(res@ =~= preamble_text());
    let mut i: usize = 0;
    while i < program.len()
        invariant
            i <= program.len(),
            decls == program_view(program@),
            program_emittable(decls),
            res@ == preamble_text() + statements_text(decls.take(i as int)),
        decreases program.len() - i,
    {
        let stmt = &program[i];
        assert(decls[i as int] == stmt@);
        let text = generate_statement(stmt);
        let ghost before = res@;
        res.append(text.as_str());
        proof {
            let next = decls.take(i + 1);
            assert(next.drop_last() =~= decls.take(i as int));
            assert(next.last() == stmt@);
            assert(res@ =~= preamble_text() + statements_text(next));
        }
        i = i + 1;
    }
    assert(decls.take(i as int) =~= decls);
    res
}

/// The text is a function of the program: two programs with the same statements,
/// character for character, get the same text.
pub proof fn lemma_program_text_deterministic(first: Seq<Statement>, second: Seq<Statement>)
    requires
        program_view(first) == program_view(second),
    ensures
        program_text(program_view(first)) == program_text(program_view(second)),
{
}

/// Below the abstractions at the head of a term without `let`s whose applications
/// are app-normal stands an app-normal term.
pub proof fn lemma_spine_body_app_normal(t: Lam)
    requires
        t.is_abs_normal(),
        t.apps_normal(),
    ensures
        spine_body(t).is_app_normal(),
    decreases t,
{
    match t {
        Lam::Abs { body, .. } => {
            lemma_spine_body_app_normal(*body);
        },
        _ => {},
    }
}

} // verus!
