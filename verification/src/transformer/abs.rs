//! The second pass: `let`s are lifted out of abstractions.

use crate::fresh::{find_fresh_var, fresh};
use crate::lambda::{share, Lam, Term};
use crate::transformer::shape::{is_term_abs, lemma_app_normal_implies, lemma_subst_shape};
use std::rc::Rc;
use vstd::prelude::*;

verus! {

/// What is left to do at the root once the number of `let`s cannot fall: the size of
/// an abstraction of an abstraction that still holds a `let`, else 0.
pub open spec fn abs_stage(t: Lam) -> nat {
    match t {
        Lam::Abs { body, .. } => if *body is Abs && !body.is_abs_normal() {
            t.size()
        } else {
            0
        },
        _ => 0,
    }
}

/// What the pass yields for the body `r` of an abstraction whose body was `t`: no
/// more `let`s than `t` has, and no abstraction that still holds a `let`.
///
/// On a term whose applications are app-normal the pass always yields such a term
/// (`lemma_abs_normalized`); the definition of `abs_normalized` asks for it so that
/// it is well-founded by itself (`lemma_abs_normalized_again` states the rule
/// without the condition).
pub open spec fn abs_settled(r: Lam, t: Lam) -> bool {
    &&& r.let_count() <= t.let_count()
    &&& r is Abs ==> r.is_abs_normal()
}

/// The application of the variable `f` to the variable `x`.
pub open spec fn var_applied(f: Seq<char>, x: Seq<char>) -> Lam {
    Lam::app(Lam::var(f), Lam::var(x))
}

/// The result of the second pass, for a term whose applications are app-normal.
///
/// An abstraction of a `let` becomes a `let` of abstractions. Where the value of the
/// `let` has the parameter free, the value is abstracted over the parameter too, and
/// the name stands for that abstraction applied to the parameter; the name is a
/// fresh one if it is the parameter's. An abstraction of an abstraction that holds a
/// `let` is normalized from the inside and then taken up again. Elsewhere the pass
/// goes down into the parts of a `let` and leaves the rest.
pub open spec fn abs_normalized(t: Lam) -> Lam
    decreases t.let_count(), abs_stage(t),
{
    match t {
        Lam::Var { .. } => t,
        Lam::App { .. } => t,
        Lam::Abs { param, body } => match *body {
            Lam::Var { .. } => t,
            Lam::App { .. } => t,
            Lam::Abs { .. } => {
                if body.is_abs_normal() {
                    t
                } else {
                    let b = abs_normalized(*body);
                    if abs_settled(b, *body) {
                        abs_normalized(Lam::abs(param, b))
                    } else {
                        t
                    }
                }
            },
            Lam::Let { name, value, body: inner } => {
                let n = if name == param {
                    fresh(inner.free_vars(), name)
                } else {
                    name
                };
                if value.free_vars().contains(param) {
                    proof {
                        lemma_var_applied_shape(n, param);
                        lemma_subst_shape(*inner, name, var_applied(n, param));
                    }
                    Lam::bind(
                        n,
                        abs_normalized(Lam::abs(param, *value)),
                        abs_normalized(Lam::abs(param, inner.subst(name, var_applied(n, param)))),
                    )
                } else {
                    proof {
                        lemma_subst_shape(*inner, name, Lam::var(n));
                    }
                    Lam::bind(
                        n,
                        abs_normalized(*value),
                        abs_normalized(Lam::abs(param, inner.rename(name, n))),
                    )
                }
            },
        },
        Lam::Let { name, value, body } => Lam::bind(
            name,
            abs_normalized(*value),
            abs_normalized(*body),
        ),
    }
}

/// A variable applied to a variable is app-normal.
pub proof fn lemma_var_applied_shape(f: Seq<char>, x: Seq<char>)
    ensures
        var_applied(f, x).is_app_normal(),
{
    assert(Lam::var(f).is_app_normal());
    assert(Lam::var(x).is_app_normal());
}

/// On a term whose applications are app-normal, the second pass leaves no `let`
/// below an abstraction, keeps the applications app-normal and keeps the number of
/// `let`s: the condition on which `abs_normalized` takes an abstraction up again is
/// always met.
pub proof fn lemma_abs_normalized(t: Lam)
    requires
        t.apps_normal(),
    ensures
        abs_normalized(t).lets_lifted(),
        abs_normalized(t).apps_normal(),
        abs_normalized(t).let_count() == t.let_count(),
        abs_settled(abs_normalized(t), t),
    decreases t.let_count(), abs_stage(t),
{
    reveal_with_fuel(Lam::apps_normal, 3);
    reveal_with_fuel(Lam::lets_lifted, 3);
    reveal_with_fuel(Lam::is_abs_normal, 3);
    reveal_with_fuel(Lam::let_count, 3);
    match t {
        Lam::Var { .. } => {},
        Lam::App { .. } => {
            lemma_app_normal_implies(t);
        },
        Lam::Abs { param, body } => match *body {
            Lam::Var { .. } => {},
            Lam::App { .. } => {
                lemma_app_normal_implies(*body);
            },
            Lam::Abs { .. } => {
                if !body.is_abs_normal() {
                    let b = abs_normalized(*body);
                    lemma_abs_normalized(*body);
                    lemma_abs_normalized(Lam::abs(param, b));
                }
            },
            Lam::Let { name, value, body: inner } => {
                let n = if name == param {
                    fresh(inner.free_vars(), name)
                } else {
                    name
                };
                if value.free_vars().contains(param) {
                    let moved = inner.subst(name, var_applied(n, param));
                    lemma_var_applied_shape(n, param);
                    lemma_subst_shape(*inner, name, var_applied(n, param));
                    lemma_abs_normalized(Lam::abs(param, *value));
                    lemma_abs_normalized(Lam::abs(param, moved));
                } else {
                    lemma_subst_shape(*inner, name, Lam::var(n));
                    lemma_abs_normalized(*value);
                    lemma_abs_normalized(Lam::abs(param, inner.rename(name, n)));
                }
            },
        },
        Lam::Let { name, value, body } => {
            lemma_abs_normalized(*value);
            lemma_abs_normalized(*body);
        },
    }
}

/// An abstraction of an abstraction that holds a `let` is normalized by normalizing
/// the inner abstraction and then the abstraction of the result.
pub proof fn lemma_abs_normalized_again(param: Seq<char>, body: Lam)
    requires
        body.apps_normal(),
        body is Abs,
        !body.is_abs_normal(),
    ensures
        abs_normalized(Lam::abs(param, body)) == abs_normalized(
            Lam::abs(param, abs_normalized(body)),
        ),
{
    lemma_abs_normalized(body);
}

/// The second pass changes nothing in a term with no `let` below an abstraction.
pub proof fn lemma_abs_normalized_fixed(t: Lam)
    requires
        t.lets_lifted(),
    ensures
        abs_normalized(t) == t,
    decreases t,
{
    reveal_with_fuel(Lam::is_abs_normal, 2);
    match t {
        Lam::Let { name, value, body } => {
            lemma_abs_normalized_fixed(*value);
            lemma_abs_normalized_fixed(*body);
        },
        _ => {},
    }
}

/// Lifts `let`s out of abstractions, in a term whose applications are app-normal.
pub fn normalize_abs(term: &Term) -> (result: Term)
    requires
        term@.apps_normal(),
    ensures
        result@ == abs_normalized(term@),
        result@.lets_lifted(),
        result@.apps_normal(),
    decreases term@.let_count(), abs_stage(term@),
{
    proof {
        reveal_with_fuel(Lam::apps_normal, 3);
        reveal_with_fuel(Lam::let_count, 3);
        lemma_abs_normalized(term@);
    }
    match term {
        Term::Var { .. } => term.clone(),
        Term::App { .. } => term.clone(),
        Term::Abs { param, body } => {
            match &**body {
                Term::Var { .. } => term.clone(),
                Term::App { .. } => term.clone(),
                Term::Abs { .. } => {
                    if is_term_abs(body) {
                        term.clone()
                    } else {
                        let inner = normalize_abs(body);
                        proof {
                            lemma_abs_normalized((**body)@);
                        }
                        normalize_abs(&Term::abs(param.clone(), Rc::new(inner)))
                    }
                },
                Term::Let { name: let_name, value: let_value, body: let_body } => {
                    let let_value_fvs = let_value.free_vars();
                    let new_let_name = if *let_name == *param {
                        let let_body_fvs = let_body.free_vars();
                        find_fresh_var(&let_body_fvs, let_name)
                    } else {
                        let_name.clone()
                    };
                    if let_value_fvs.contains(param) {
                        proof {
                            lemma_var_applied_shape(new_let_name@, param@);
                            lemma_subst_shape(
                                (**let_body)@,
                                let_name@,
                                var_applied(new_let_name@, param@),
                            );
                        }
                        let applied = Term::app(
                            Rc::new(Term::var(new_let_name.clone())),
                            Rc::new(Term::var(param.clone())),
                        );
                        Term::bind(
                            new_let_name,
                            Rc::new(normalize_abs(&Term::abs(param.clone(), share(let_value)))),
                            Rc::new(
                                normalize_abs(
                                    &Term::abs(
                                        param.clone(),
                                        Rc::new(let_body.subst(let_name, &applied)),
                                    ),
                                ),
                            ),
                        )
                    } else {
                        proof {
                            lemma_subst_shape((**let_body)@, let_name@, Lam::var(new_let_name@));
                        }
                        let renamed = let_body.subst(let_name, &Term::var(new_let_name.clone()));
                        Term::bind(
                            new_let_name,
                            Rc::new(normalize_abs(let_value)),
                            Rc::new(normalize_abs(&Term::abs(param.clone(), Rc::new(renamed)))),
                        )
                    }
                },
            }
        },
        Term::Let { name, value, body } => Term::bind(
            name.clone(),
            Rc::new(normalize_abs(value)),
            Rc::new(normalize_abs(body)),
        ),
    }
}

} // verus!
