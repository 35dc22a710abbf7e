//! The terms: applications, abstractions, `let`s and terms in parentheses.

use crate::lambda::{Lam, Term};
use crate::names::name_views;
use crate::parser::lexer::{
    identifier, is_identifier, lemma_token_ident_bounds, lemma_token_ident_is_identifier,
    lemma_token_tag_bounds, token, token_ident, token_tag,
};
use std::rc::Rc;
use vstd::prelude::*;

verus! {

/// `r`, if it stopped after `from` and within the text, else nothing.
///
/// Every rule that reads a term takes at least one character
/// (`lemma_parse_term_bounds`), so this keeps each of their results; the rules ask
/// for it so that their definition is well-founded by itself.
pub open spec fn consuming(r: Option<(Lam, int)>, from: int, s: Seq<char>) -> Option<(Lam, int)> {
    match r {
        Some((_, end)) => if from < end <= s.len() {
            r
        } else {
            None
        },
        None => None,
    }
}

/// The identifiers that follow one another from `i` on, and the position after them.
pub open spec fn idents(s: Seq<char>, i: int) -> (Seq<Seq<char>>, int)
    decreases s.len() - i,
{
    if 0 <= i <= s.len() {
        match token_ident(s, i) {
            Some((name, next)) => {
                proof {
                    lemma_token_ident_bounds(s, i);
                }
                let (rest, end) = idents(s, next);
                (seq![name] + rest, end)
            },
            None => (Seq::empty(), i),
        }
    } else {
        (Seq::empty(), i)
    }
}

/// `body` abstracted over the parameters, the first of them outermost.
pub open spec fn abstracted(params: Seq<Seq<char>>, body: Lam) -> Lam
    decreases params.len(),
{
    if params.len() == 0 {
        body
    } else {
        Lam::abs(params[0], abstracted(params.drop_first(), body))
    }
}

/// `term := app | abs | let | "(" term ")"`, the first that reads something.
pub open spec fn parse_term(s: Seq<char>, i: int) -> Option<(Lam, int)>
    decreases s.len() - i, 4int,
{
    if !(0 <= i <= s.len()) {
        None
    } else if parse_app(s, i) is Some {
        parse_app(s, i)
    } else if parse_abs(s, i) is Some {
        parse_abs(s, i)
    } else if parse_let(s, i) is Some {
        parse_let(s, i)
    } else {
        parse_parens(s, i)
    }
}

/// `app := aterm aterm*`, applied from the left.
pub open spec fn parse_app(s: Seq<char>, i: int) -> Option<(Lam, int)>
    decreases s.len() - i, 3int,
{
    if !(0 <= i <= s.len()) {
        None
    } else {
        match consuming(parse_aterm(s, i), i, s) {
            Some((func, next)) => Some(parse_args(s, next, func)),
            None => None,
        }
    }
}

/// `aterm*` after the function `acc`: each argument read is applied to what was
/// read before it.
pub open spec fn parse_args(s: Seq<char>, i: int, acc: Lam) -> (Lam, int)
    decreases s.len() - i, 2int,
{
    if !(0 <= i <= s.len()) {
        (acc, i)
    } else {
        match consuming(parse_aterm(s, i), i, s) {
            Some((arg, next)) => parse_args(s, next, Lam::app(acc, arg)),
            None => (acc, i),
        }
    }
}

/// `aterm := id | "(" term ")"`.
pub open spec fn parse_aterm(s: Seq<char>, i: int) -> Option<(Lam, int)>
    decreases s.len() - i, 1int,
{
    if !(0 <= i <= s.len()) {
        None
    } else {
        match token_ident(s, i) {
            Some((name, end)) => Some((Lam::var(name), end)),
            None => parse_parens(s, i),
        }
    }
}

/// `"(" term ")"`.
pub open spec fn parse_parens(s: Seq<char>, i: int) -> Option<(Lam, int)>
    decreases s.len() - i, 0int,
{
    if !(0 <= i <= s.len()) {
        None
    } else {
        match token_tag(s, i, "("@) {
            Some(open) => {
                proof {
                    lemma_token_tag_bounds(s, i, "("@);
                    reveal_strlit("(");
                }
                match consuming(parse_term(s, open), open, s) {
                    Some((inner, end)) => match token_tag(s, end, ")"@) {
                        Some(close) => Some((inner, close)),
                        None => None,
                    },
                    None => None,
                }
            },
            None => None,
        }
    }
}

/// `abs := "fun" id+ "->" term`: the term abstracted over the identifiers.
pub open spec fn parse_abs(s: Seq<char>, i: int) -> Option<(Lam, int)>
    decreases s.len() - i, 0int,
{
    if !(0 <= i <= s.len()) {
        None
    } else {
        match token_tag(s, i, "fun"@) {
            Some(start) => {
                let (params, next) = idents(s, start);
                if params.len() == 0 {
                    None
                } else {
                    match token_tag(s, next, "->"@) {
                        Some(arrow) => {
                            proof {
                                lemma_token_tag_bounds(s, i, "fun"@);
                                reveal_strlit("fun");
                                lemma_idents_bounds(s, start);
                                lemma_token_tag_bounds(s, next, "->"@);
                            }
                            match consuming(parse_term(s, arrow), arrow, s) {
                                Some((body, end)) => Some((abstracted(params, body), end)),
                                None => None,
                            }
                        },
                        None => None,
                    }
                }
            },
            None => None,
        }
    }
}

/// `let := "let" id id* "=" term "in" term`: the first identifier is bound to the
/// first term, abstracted over the other identifiers, in the second term.
pub open spec fn parse_let(s: Seq<char>, i: int) -> Option<(Lam, int)>
    decreases s.len() - i, 0int,
{
    if !(0 <= i <= s.len()) {
        None
    } else {
        match parse_binding(s, i) {
            Some((name, params, equals)) => {
                proof {
                    lemma_parse_binding_bounds(s, i);
                }
                match consuming(parse_term(s, equals), equals, s) {
                    Some((value, next)) => match token_tag(s, next, "in"@) {
                        Some(start) => {
                            proof {
                                lemma_token_tag_bounds(s, next, "in"@);
                            }
                            match consuming(parse_term(s, start), start, s) {
                                Some((body, end)) => Some(
                                    (Lam::bind(name, abstracted(params, value), body), end),
                                ),
                                None => None,
                            }
                        },
                        None => None,
                    },
                    None => None,
                }
            },
            None => None,
        }
    }
}

/// `"let" id id* "="`, the head of a binding: the name bound, the parameters, and
/// the position after the equals sign.
pub open spec fn parse_binding(s: Seq<char>, i: int) -> Option<(Seq<char>, Seq<Seq<char>>, int)> {
    match token_tag(s, i, "let"@) {
        Some(start) => match token_ident(s, start) {
            Some((name, next)) => {
                let (params, end) = idents(s, next);
                match token_tag(s, end, "="@) {
                    Some(equals) => Some((name, params, equals)),
                    None => None,
                }
            },
            None => None,
        },
        None => None,
    }
}

/// A run of identifiers ends after its start and within the text.
pub proof fn lemma_idents_bounds(s: Seq<char>, i: int)
    requires
        0 <= i <= s.len(),
    ensures
        i <= idents(s, i).1 <= s.len(),
        idents(s, i).0.len() > 0 ==> i < idents(s, i).1,
    decreases s.len() - i,
{
    lemma_token_ident_bounds(s, i);
    if let Some((name, next)) = token_ident(s, i) {
        lemma_idents_bounds(s, next);
    }
}

/// The head of a binding takes at least one character.
pub proof fn lemma_parse_binding_bounds(s: Seq<char>, i: int)
    requires
        0 <= i <= s.len(),
    ensures
        parse_binding(s, i) matches Some((_, _, end)) ==> i < end <= s.len(),
{
    lemma_token_tag_bounds(s, i, "let"@);
    if let Some(start) = token_tag(s, i, "let"@) {
        lemma_token_ident_bounds(s, start);
        if let Some((name, next)) = token_ident(s, start) {
            lemma_idents_bounds(s, next);
            lemma_token_tag_bounds(s, idents(s, next).1, "="@);
        }
    }
}

/// A term takes at least one character and ends within the text.
pub proof fn lemma_parse_term_bounds(s: Seq<char>, i: int)
    ensures
        parse_term(s, i) matches Some((_, end)) ==> i < end <= s.len(),
        parse_app(s, i) matches Some((_, end)) ==> i < end <= s.len(),
        parse_aterm(s, i) matches Some((_, end)) ==> i < end <= s.len(),
        parse_parens(s, i) matches Some((_, end)) ==> i < end <= s.len(),
        parse_abs(s, i) matches Some((_, end)) ==> i < end <= s.len(),
        parse_let(s, i) matches Some((_, end)) ==> i < end <= s.len(),
{
    if 0 <= i <= s.len() {
        lemma_token_ident_bounds(s, i);
        lemma_token_tag_bounds(s, i, "("@);
        if let Some(open) = token_tag(s, i, "("@) {
            if let Some((inner, end)) = consuming(parse_term(s, open), open, s) {
                lemma_token_tag_bounds(s, end, ")"@);
            }
        }
        if let Some((func, next)) = consuming(parse_aterm(s, i), i, s) {
            lemma_parse_args_bounds(s, next, func);
        }
        lemma_token_tag_bounds(s, i, "fun"@);
        if let Some(start) = token_tag(s, i, "fun"@) {
            lemma_idents_bounds(s, start);
            lemma_token_tag_bounds(s, idents(s, start).1, "->"@);
        }
        lemma_parse_binding_bounds(s, i);
        if let Some((name, params, equals)) = parse_binding(s, i) {
            if let Some((value, next)) = consuming(parse_term(s, equals), equals, s) {
                lemma_token_tag_bounds(s, next, "in"@);
            }
        }
    }
}

/// The arguments of an application end after their start and within the text.
pub proof fn lemma_parse_args_bounds(s: Seq<char>, i: int, acc: Lam)
    requires
        0 <= i <= s.len(),
    ensures
        i <= parse_args(s, i, acc).1 <= s.len(),
    decreases s.len() - i,
{
    if let Some((arg, next)) = consuming(parse_aterm(s, i), i, s) {
        lemma_parse_args_bounds(s, next, Lam::app(acc, arg));
    }
}

/// `consuming` keeps what the rules that read a term yield.
pub proof fn lemma_consuming_keeps(s: Seq<char>, i: int)
    ensures
        consuming(parse_term(s, i), i, s) == parse_term(s, i),
        consuming(parse_aterm(s, i), i, s) == parse_aterm(s, i),
{
    lemma_parse_term_bounds(s, i);
}

/// Every name in the term, of a variable or of a binder, is an identifier.
pub open spec fn well_named(t: Lam) -> bool
    decreases t,
{
    match t {
        Lam::Var { name } => is_identifier(name),
        Lam::App { func, arg } => well_named(*func) && well_named(*arg),
        Lam::Abs { param, body } => is_identifier(param) && well_named(*body),
        Lam::Let { name, value, body } => is_identifier(name) && well_named(*value) && well_named(
            *body,
        ),
    }
}

/// The identifiers of a run are identifiers.
pub proof fn lemma_idents_are_identifiers(s: Seq<char>, i: int)
    requires
        0 <= i <= s.len(),
    ensures
        forall|k: int|
            0 <= k < idents(s, i).0.len() ==> is_identifier(#[trigger] idents(s, i).0[k]),
    decreases s.len() - i,
{
    lemma_token_ident_bounds(s, i);
    lemma_token_ident_is_identifier(s, i);
    if let Some((name, next)) = token_ident(s, i) {
        lemma_idents_are_identifiers(s, next);
        let rest = idents(s, next).0;
        assert(idents(s, i).0 == seq![name] + rest);
        assert forall|k: int| 0 <= k < idents(s, i).0.len() implies is_identifier(
            #[trigger] idents(s, i).0[k],
        ) by {
            if k > 0 {
                assert(idents(s, i).0[k] == rest[k - 1]);
            }
        }
    }
}

/// Abstracting a term over identifiers keeps every name an identifier.
pub proof fn lemma_abstracted_well_named(params: Seq<Seq<char>>, body: Lam)
    requires
        forall|k: int| 0 <= k < params.len() ==> is_identifier(#[trigger] params[k]),
        well_named(body),
    ensures
        well_named(abstracted(params, body)),
    decreases params.len(),
{
    if params.len() > 0 {
        let rest = params.drop_first();
        assert forall|k: int| 0 <= k < rest.len() implies is_identifier(#[trigger] rest[k]) by {
            assert(rest[k] == params[k + 1]);
        }
        lemma_abstracted_well_named(rest, body);
    }
}

/// The head of a binding names identifiers.
pub proof fn lemma_binding_well_named(s: Seq<char>, i: int)
    requires
        0 <= i <= s.len(),
    ensures
        parse_binding(s, i) matches Some((name, params, _)) ==> is_identifier(name) && forall|
            k: int,
        | 0 <= k < params.len() ==> is_identifier(#[trigger] params[k]),
{
    lemma_token_tag_bounds(s, i, "let"@);
    if let Some(start) = token_tag(s, i, "let"@) {
        lemma_token_ident_bounds(s, start);
        lemma_token_ident_is_identifier(s, start);
        if let Some((name, next)) = token_ident(s, start) {
            lemma_idents_are_identifiers(s, next);
        }
    }
}

/// Every name in a term that was read is an identifier.
pub proof fn lemma_term_well_named(s: Seq<char>, i: int)
    ensures
        parse_term(s, i) matches Some((term, _)) ==> well_named(term),
    decreases s.len() - i, 4int,
{
    if 0 <= i <= s.len() {
        lemma_app_well_named(s, i);
        lemma_abs_well_named(s, i);
        lemma_let_well_named(s, i);
        lemma_parens_well_named(s, i);
    }
}

/// Every name in an application that was read is an identifier.
proof fn lemma_app_well_named(s: Seq<char>, i: int)
    ensures
        parse_app(s, i) matches Some((term, _)) ==> well_named(term),
    decreases s.len() - i, 3int,
{
    if 0 <= i <= s.len() {
        lemma_aterm_well_named(s, i);
        if let Some((func, next)) = consuming(parse_aterm(s, i), i, s) {
            lemma_args_well_named(s, next, func);
        }
    }
}

/// Every name in an application of a term of identifiers to arguments that were
/// read is an identifier.
proof fn lemma_args_well_named(s: Seq<char>, i: int, acc: Lam)
    requires
        well_named(acc),
    ensures
        well_named(parse_args(s, i, acc).0),
    decreases s.len() - i, 2int,
{
    if 0 <= i <= s.len() {
        lemma_aterm_well_named(s, i);
        if let Some((arg, next)) = consuming(parse_aterm(s, i), i, s) {
            lemma_args_well_named(s, next, Lam::app(acc, arg));
        }
    }
}

/// Every name in a variable or a term in parentheses that was read is an identifier.
proof fn lemma_aterm_well_named(s: Seq<char>, i: int)
    ensures
        parse_aterm(s, i) matches Some((term, _)) ==> well_named(term),
    decreases s.len() - i, 1int,
{
    if 0 <= i <= s.len() {
        lemma_token_ident_is_identifier(s, i);
        lemma_parens_well_named(s, i);
    }
}

/// Every name in a term in parentheses that was read is an identifier.
proof fn lemma_parens_well_named(s: Seq<char>, i: int)
    ensures
        parse_parens(s, i) matches Some((term, _)) ==> well_named(term),
    decreases s.len() - i, 0int,
{
    if 0 <= i <= s.len() {
        if let Some(open) = token_tag(s, i, "("@) {
            lemma_token_tag_bounds(s, i, "("@);
            reveal_strlit("(");
            lemma_term_well_named(s, open);
        }
    }
}

/// Every name in an abstraction that was read is an identifier.
proof fn lemma_abs_well_named(s: Seq<char>, i: int)
    ensures
        parse_abs(s, i) matches Some((term, _)) ==> well_named(term),
    decreases s.len() - i, 0int,
{
    if 0 <= i <= s.len() {
        if let Some(start) = token_tag(s, i, "fun"@) {
            lemma_token_tag_bounds(s, i, "fun"@);
            reveal_strlit("fun");
            lemma_idents_bounds(s, start);
            lemma_idents_are_identifiers(s, start);
            let (params, next) = idents(s, start);
            if let Some(arrow) = token_tag(s, next, "->"@) {
                lemma_token_tag_bounds(s, next, "->"@);
                lemma_term_well_named(s, arrow);
                if let Some((body, end)) = consuming(parse_term(s, arrow), arrow, s) {
                    lemma_abstracted_well_named(params, body);
                }
            }
        }
    }
}

/// Every name in a `let` that was read is an identifier.
proof fn lemma_let_well_named(s: Seq<char>, i: int)
    ensures
        parse_let(s, i) matches Some((term, _)) ==> well_named(term),
    decreases s.len() - i, 0int,
{
    if 0 <= i <= s.len() {
        lemma_parse_binding_bounds(s, i);
        lemma_binding_well_named(s, i);
        if let Some((name, params, equals)) = parse_binding(s, i) {
            lemma_term_well_named(s, equals);
            if let Some((value, next)) = consuming(parse_term(s, equals), equals, s) {
                lemma_abstracted_well_named(params, value);
                if let Some(start) = token_tag(s, next, "in"@) {
                    lemma_token_tag_bounds(s, next, "in"@);
                    lemma_term_well_named(s, start);
                }
            }
        }
    }
}

/// What a rule that reads a term yields, against what the grammar says.
pub open spec fn term_read(r: Option<(Term, usize)>, m: Option<(Lam, int)>) -> bool {
    match r {
        Some((term, end)) => m == Some((term@, end as int)),
        None => m is None,
    }
}

/// The identifiers that follow one another from `i` on.
pub(crate) fn identifiers(chars: &Vec<char>, i: usize) -> (found: (Vec<String>, usize))
    requires
        i <= chars.len(),
    ensures
        idents(chars@, i as int) == (name_views(found.0@), found.1 as int),
        i <= found.1 <= chars.len(),
{
    let mut names: Vec<String> = Vec::new();
    let mut k: usize = i;
    loop
        invariant
            i <= k <= chars.len(),
            idents(chars@, i as int) == (
                name_views(names@) + idents(chars@, k as int).0,
                idents(chars@, k as int).1,
            ),
        ensures
            i <= k <= chars.len(),
            idents(chars@, i as int) == (name_views(names@), k as int),
        decreases chars.len() - k,
    {
        match identifier(chars, k) {
            Some((name, end)) => {
                let ghost before = name_views(names@);
                let ghost rest = idents(chars@, end as int).0;
                names.push(name);
                assert(name_views(names@) + rest =~= before + (seq![name@] + rest));
                k = end;
            },
            None => {
                assert(name_views(names@) + Seq::<Seq<char>>::empty() =~= name_views(names@));
                break ;
            },
        }
    }
    (names, k)
}

/// `body` abstracted over the parameters, the first of them outermost.
pub(crate) fn abstraction(params: &Vec<String>, body: Term) -> (term: Term)
    ensures
        term@ == abstracted(name_views(params@), body@),
{
    let mut term = body;
    let mut k: usize = params.len();
    assert(name_views(params@).skip(k as int) =~= Seq::<Seq<char>>::empty());
    while k > 0
        invariant
            k <= params.len(),
            term@ == abstracted(name_views(params@).skip(k as int), body@),
        decreases k,
    {
        k -= 1;
        term = Term::abs(params[k].clone(), Rc::new(term));
        assert(name_views(params@).skip(k as int).drop_first() =~= name_views(params@).skip(
            k + 1,
        ));
    }
    assert(name_views(params@).skip(0) =~= name_views(params@));
    term
}

/// `term := app | abs | let | "(" term ")"`. Where no application can be read, no
/// term in parentheses can be read either, so the last choice is not tried again.
pub(crate) fn term(chars: &Vec<char>, i: usize) -> (r: Option<(Term, usize)>)
    requires
        i <= chars.len(),
    ensures
        term_read(r, parse_term(chars@, i as int)),
        r matches Some((_, end)) ==> i < end <= chars.len(),
    decreases chars.len() - i, 4int,
{
    if let Some(r) = term_app(chars, i) {
        return Some(r);
    }
    if let Some(r) = term_abs(chars, i) {
        return Some(r);
    }
    if let Some(r) = term_let(chars, i) {
        return Some(r);
    }
    proof {
        lemma_parse_term_bounds(chars@, i as int);
    }
    None
}

/// `aterm := id | "(" term ")"`.
fn aterm(chars: &Vec<char>, i: usize) -> (r: Option<(Term, usize)>)
    requires
        i <= chars.len(),
    ensures
        term_read(r, parse_aterm(chars@, i as int)),
        r matches Some((_, end)) ==> i < end <= chars.len(),
    decreases chars.len() - i, 1int,
{
    if let Some(r) = term_var(chars, i) {
        return Some(r);
    }
    parens(chars, i)
}

/// A variable: an identifier.
fn term_var(chars: &Vec<char>, i: usize) -> (r: Option<(Term, usize)>)
    requires
        i <= chars.len(),
    ensures
        match r {
            Some((term, end)) => token_ident(chars@, i as int) matches Some((name, stop))
                && term@ == Lam::var(name) && stop == end && i < end <= chars.len(),
            None => token_ident(chars@, i as int) is None,
        },
{
    match identifier(chars, i) {
        Some((name, end)) => Some((Term::var(name), end)),
        None => None,
    }
}

/// `"(" term ")"`.
fn parens(chars: &Vec<char>, i: usize) -> (r: Option<(Term, usize)>)
    requires
        i <= chars.len(),
    ensures
        term_read(r, parse_parens(chars@, i as int)),
        r matches Some((_, end)) ==> i < end <= chars.len(),
    decreases chars.len() - i, 0int,
{
    proof {
        reveal_strlit("(");
    }
    let open = token(chars, i, "(")?;
    let (inner, end) = term(chars, open)?;
    let close = token(chars, end, ")")?;
    Some((inner, close))
}

/// `app := aterm aterm*`, applied from the left.
fn term_app(chars: &Vec<char>, i: usize) -> (r: Option<(Term, usize)>)
    requires
        i <= chars.len(),
    ensures
        term_read(r, parse_app(chars@, i as int)),
        r matches Some((_, end)) ==> i < end <= chars.len(),
    decreases chars.len() - i, 3int,
{
    let (func, next) = aterm(chars, i)?;
    let mut result = func;
    let mut k: usize = next;
    loop
        invariant
            i < k <= chars.len(),
            parse_app(chars@, i as int) == Some(parse_args(chars@, k as int, result@)),
        ensures
            i < k <= chars.len(),
            parse_app(chars@, i as int) == Some((result@, k as int)),
        decreases chars.len() - k,
    {
        match aterm(chars, k) {
            Some((arg, end)) => {
                result = Term::app(Rc::new(result), Rc::new(arg));
                k = end;
            },
            None => {
                break ;
            },
        }
    }
    Some((result, k))
}

/// `abs := "fun" id+ "->" term`.
fn term_abs(chars: &Vec<char>, i: usize) -> (r: Option<(Term, usize)>)
    requires
        i <= chars.len(),
    ensures
        term_read(r, parse_abs(chars@, i as int)),
        r matches Some((_, end)) ==> i < end <= chars.len(),
    decreases chars.len() - i, 0int,
{
    proof {
        reveal_strlit("fun");
    }
    let start = token(chars, i, "fun")?;
    let (params, next) = identifiers(chars, start);
    if params.len() == 0 {
        return None;
    }
    let arrow = token(chars, next, "->")?;
    let (body, end) = term(chars, arrow)?;
    Some((abstraction(&params, body), end))
}

/// `"let" id id* "="`, the head of a binding.
pub(crate) fn binding(chars: &Vec<char>, i: usize) -> (r: Option<(String, Vec<String>, usize)>)
    requires
        i <= chars.len(),
    ensures
        match r {
            Some((name, params, end)) => parse_binding(chars@, i as int) == Some(
                (name@, name_views(params@), end as int),
            ) && i < end <= chars.len(),
            None => parse_binding(chars@, i as int) is None,
        },
{
    proof {
        reveal_strlit("let");
    }
    let start = token(chars, i, "let")?;
    let (name, next) = identifier(chars, start)?;
    let (params, end) = identifiers(chars, next);
    let equals = token(chars, end, "=")?;
    Some((name, params, equals))
}

/// `let := "let" id id* "=" term "in" term`.
fn term_let(chars: &Vec<char>, i: usize) -> (r: Option<(Term, usize)>)
    requires
        i <= chars.len(),
    ensures
        term_read(r, parse_let(chars@, i as int)),
        r matches Some((_, end)) ==> i < end <= chars.len(),
    decreases chars.len() - i, 0int,
{
    let (name, params, equals) = binding(chars, i)?;
    let (value, next) = term(chars, equals)?;
    let start = token(chars, next, "in")?;
    let (body, end) = term(chars, start)?;
    Some((Term::bind(name, Rc::new(abstraction(&params, value)), Rc::new(body)), end))
}

} // verus!
