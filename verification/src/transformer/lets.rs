//! The third pass: `let`s in the value of a `let` are rotated onto one spine.

use crate::fresh::{find_fresh_var, fresh};
use crate::lambda::{lemma_rename_size, share, Lam, Term};
use crate::transformer::shape::{
    is_term_let, lemma_let_normal_is_abs_normal, lemma_spine_is_lifted, lemma_subst_shape,
};
use std::rc::Rc;
use vstd::prelude::*;

verus! {

/// What is left to do at the root once the size cannot fall: 1 where the value of a
/// `let` is a `let` whose own value still holds one, else 0.
pub open spec fn let_stage(t: Lam) -> nat {
    match t {
        Lam::Let { value, .. } => match *value {
            Lam::Let { value: inner, .. } => if inner.is_let_normal() {
                0
            } else {
                1
            },
            _ => 0,
        },
        _ => 0,
    }
}

/// What the pass yields for the value `r` of a `let` whose value was `t`: no larger
/// than `t`, and if it is a `let`, then one whose value holds none.
///
/// On a term with no `let` below an abstraction the pass always yields such a term
/// (`lemma_let_normalized`); the definition of `let_normalized` asks for it so that
/// it is well-founded by itself (`lemma_let_normalized_again` states the rule
/// without the condition).
pub open spec fn let_settled(r: Lam, t: Lam) -> bool {
    &&& r.size() <= t.size()
    &&& r matches Lam::Let { value, .. } ==> value.is_let_normal()
}

/// The result of the third pass, for a term with no `let` below an abstraction.
///
/// A `let` whose value is a `let` with a value that holds none is rotated: the inner
/// `let` comes first, under a fresh name if it has the outer one's, and the outer
/// `let` binds what was the inner body. If the inner value holds a `let`, the value
/// is normalized first and the outer `let` taken up again. Below any other `let`
/// the pass goes on in the body; it leaves what is not a `let`.
pub open spec fn let_normalized(t: Lam) -> Lam
    decreases t.size(), let_stage(t),
{
    match t {
        Lam::Let { name, value, body } => match *value {
            Lam::Let { name: inner_name, value: inner_value, body: inner_body } => {
                if inner_value.is_let_normal() {
                    let n = if inner_name == name {
                        fresh(inner_body.free_vars(), inner_name)
                    } else {
                        inner_name
                    };
                    proof {
                        reveal_with_fuel(Lam::size, 3);
                        lemma_rename_size(*inner_body, inner_name, n);
                    }
                    Lam::bind(
                        n,
                        *inner_value,
                        let_normalized(Lam::bind(name, inner_body.rename(inner_name, n), *body)),
                    )
                } else {
                    let v = let_normalized(*value);
                    if let_settled(v, *value) {
                        let_normalized(Lam::bind(name, v, *body))
                    } else {
                        t
                    }
                }
            },
            _ => Lam::bind(name, *value, let_normalized(*body)),
        },
        _ => t,
    }
}

/// On a term with no `let` below an abstraction, the third pass yields a spine of
/// `let`s of the size of the term, and keeps app-normal applications: the condition
/// on which `let_normalized` takes a `let` up again is always met.
pub proof fn lemma_let_normalized(t: Lam)
    requires
        t.lets_lifted(),
    ensures
        let_normalized(t).is_let_spine(),
        let_normalized(t).size() == t.size(),
        let_normalized(t).let_count() == t.let_count(),
        t.apps_normal() ==> let_normalized(t).apps_normal(),
        let_settled(let_normalized(t), t),
    decreases t.size(), let_stage(t),
{
    reveal_with_fuel(Lam::apps_normal, 3);
    reveal_with_fuel(Lam::let_count, 3);
    reveal_with_fuel(Lam::lets_lifted, 3);
    reveal_with_fuel(Lam::is_let_spine, 3);
    reveal_with_fuel(Lam::size, 3);
    lemma_let_normal_is_abs_normal(t);
    match t {
        Lam::Let { name, value, body } => match *value {
            Lam::Let { name: inner_name, value: inner_value, body: inner_body } => {
                if inner_value.is_let_normal() {
                    let n = if inner_name == name {
                        fresh(inner_body.free_vars(), inner_name)
                    } else {
                        inner_name
                    };
                    let moved = inner_body.rename(inner_name, n);
                    lemma_rename_size(*inner_body, inner_name, n);
                    lemma_subst_shape(*inner_body, inner_name, Lam::var(n));
                    lemma_let_normalized(Lam::bind(name, moved, *body));
                } else {
                    let v = let_normalized(*value);
                    lemma_let_normalized(*value);
                    lemma_spine_is_lifted(v);
                    lemma_let_normalized(Lam::bind(name, v, *body));
                }
            },
            _ => {
                lemma_let_normal_is_abs_normal(*value);
                lemma_let_normalized(*body);
            },
        },
        _ => {},
    }
}

/// A `let` whose value is a `let` with a value that holds a `let` is normalized by
/// normalizing its value and then the `let` of the result.
pub proof fn lemma_let_normalized_again(name: Seq<char>, value: Lam, body: Lam)
    requires
        value.lets_lifted(),
        value matches Lam::Let { value: inner, .. } && !inner.is_let_normal(),
    ensures
        let_normalized(Lam::bind(name, value, body)) == let_normalized(
            Lam::bind(name, let_normalized(value), body),
        ),
{
    lemma_let_normalized(value);
}

/// The third pass changes nothing in a spine of `let`s.
pub proof fn lemma_let_normalized_fixed(t: Lam)
    requires
        t.is_let_spine(),
    ensures
        let_normalized(t) == t,
    decreases t,
{
    match t {
        Lam::Let { name, value, body } => {
            lemma_let_normalized_fixed(*body);
        },
        _ => {},
    }
}

/// Rotates the `let`s onto one spine that leans to the right, in a term with no
/// `let` below an abstraction.
pub fn normalize_let(term: &Term) -> (result: Term)
    requires
        term@.lets_lifted(),
    ensures
        result@ == let_normalized(term@),
        result@.is_let_spine(),
        term@.apps_normal() ==> result@.apps_normal(),
    decreases term@.size(), let_stage(term@),
{
    proof {
        reveal_with_fuel(Lam::lets_lifted, 3);
        reveal_with_fuel(Lam::size, 3);
        lemma_let_normalized(term@);
    }
    match term {
        Term::Var { .. } => term.clone(),
        Term::App { .. } => term.clone(),
        Term::Abs { .. } => term.clone(),
        Term::Let { name, value, body } => {
            match &**value {
                Term::Var { .. } => Term::bind(
                    name.clone(),
                    share(value),
                    Rc::new(normalize_let(body)),
                ),
                Term::App { .. } => Term::bind(
                    name.clone(),
                    share(value),
                    Rc::new(normalize_let(body)),
                ),
                Term::Abs { .. } => Term::bind(
                    name.clone(),
                    share(value),
                    Rc::new(normalize_let(body)),
                ),
                Term::Let { name: inner_name, value: inner_value, body: inner_body } => {
                    if is_term_let(inner_value) {
                        let new_name = if *inner_name == *name {
                            let inner_body_fvs = inner_body.free_vars();
                            find_fresh_var(&inner_body_fvs, inner_name)
                        } else {
                            inner_name.clone()
                        };
                        proof {
                            lemma_rename_size((**inner_body)@, inner_name@, new_name@);
                            lemma_subst_shape((**inner_body)@, inner_name@, Lam::var(new_name@));
                        }
                        let renamed = inner_body.subst(inner_name, &Term::var(new_name.clone()));
                        Term::bind(
                            new_name,
                            share(inner_value),
                            Rc::new(
                                normalize_let(
                                    &Term::bind(name.clone(), Rc::new(renamed), share(body)),
                                ),
                            ),
                        )
                    } else {
                        let inner = normalize_let(value);
                        proof {
                            lemma_let_normalized((**value)@);
                            lemma_spine_is_lifted(inner@);
                        }
                        normalize_let(&Term::bind(name.clone(), Rc::new(inner), share(body)))
                    }
                },
            }
        },
    }
}

} // verus!
