//! The first pass: abstractions and `let`s are hoisted out of applications.

use crate::fresh::{find_fresh_var, fresh};
use crate::lambda::{share, Lam, Term};
use crate::transformer::shape::{is_term_app, lemma_app_normal_implies};
use std::rc::Rc;
use vstd::prelude::*;
use vstd::string::StringExecFns;

verus! {

/// The measure by which the first pass ends: a binder weighs more the deeper it
/// stands below applications, and an abstraction more than the `let` that takes
/// its place once it is hoisted.
pub open spec fn app_weight(t: Lam) -> nat
    decreases t,
{
    match t {
        Lam::Var { .. } => 1,
        Lam::App { func, arg } => 2 * (app_weight(*func) + app_weight(*arg)) + 1,
        Lam::Abs { body, .. } => 2 + app_weight(*body),
        Lam::Let { value, body, .. } => 1 + app_weight(*value) + app_weight(*body),
    }
}

/// What is left to do at the root once the weight cannot fall: 2 where the function
/// of an application has yet to be normalized, 1 where its argument has, else 0.
pub open spec fn app_stage(t: Lam) -> nat {
    match t {
        Lam::App { func, arg } => if *func is App && !func.is_app_normal() {
            2
        } else if func.is_app_normal() && *arg is App && !arg.is_app_normal() {
            1
        } else {
            0
        },
        _ => 0,
    }
}

/// What the pass yields for a part `r` of an application whose part was `t`: no
/// heavier than `t`, and no application that is still to be normalized.
///
/// The pass always yields such a term (`lemma_app_normalized`); the definition of
/// `app_normalized` asks for it so that it is well-founded by itself
/// (`lemma_app_normalized_again` states the rule without the condition).
pub open spec fn app_settled(r: Lam, t: Lam) -> bool {
    &&& app_weight(r) <= app_weight(t)
    &&& r is App ==> r.is_app_normal()
}

/// The result of the first pass.
///
/// An application that is not app-normal is rewritten by its function if that is
/// not app-normal, else by its argument:
/// - an application in that place is normalized, and the outer application is taken
///   up again with the result;
/// - an abstraction is bound to a fresh name, `v` if that is not free in the other
///   part, and the name takes its place;
/// - a `let` is moved out of the application, under a fresh name if its own is free
///   in the other part.
/// Elsewhere the pass goes down into the sub-terms.
pub open spec fn app_normalized(t: Lam) -> Lam
    decreases app_weight(t), app_stage(t),
{
    match t {
        Lam::Var { .. } => t,
        Lam::App { func, arg } => {
            proof {
                reveal_with_fuel(app_weight, 3);
            }
            if !func.is_app_normal() {
                match *func {
                    Lam::Abs { param, body } => {
                        let v = fresh(arg.free_vars(), "v"@);
                        Lam::bind(
                            v,
                            Lam::abs(param, app_normalized(*body)),
                            app_normalized(Lam::app(Lam::var(v), *arg)),
                        )
                    },
                    Lam::Let { name, value, body } => {
                        if arg.free_vars().contains(name) {
                            let n = fresh(arg.free_vars(), name);
                            proof {
                                lemma_rename_weight(*body, name, n);
                            }
                            Lam::bind(
                                n,
                                app_normalized(*value),
                                app_normalized(Lam::app(body.rename(name, n), *arg)),
                            )
                        } else {
                            Lam::bind(
                                name,
                                app_normalized(*value),
                                app_normalized(Lam::app(*body, *arg)),
                            )
                        }
                    },
                    _ => {
                        let f = app_normalized(*func);
                        if app_settled(f, *func) {
                            app_normalized(Lam::app(f, *arg))
                        } else {
                            t
                        }
                    },
                }
            } else if !arg.is_app_normal() {
                match *arg {
                    Lam::Abs { param, body } => {
                        let v = fresh(func.free_vars(), "v"@);
                        Lam::bind(
                            v,
                            Lam::abs(param, app_normalized(*body)),
                            Lam::app(*func, Lam::var(v)),
                        )
                    },
                    Lam::Let { name, value, body } => {
                        if func.free_vars().contains(name) {
                            let n = fresh(func.free_vars(), name);
                            proof {
                                lemma_rename_weight(*body, name, n);
                            }
                            Lam::bind(
                                n,
                                app_normalized(*value),
                                app_normalized(Lam::app(*func, body.rename(name, n))),
                            )
                        } else {
                            Lam::bind(
                                name,
                                app_normalized(*value),
                                app_normalized(Lam::app(*func, *body)),
                            )
                        }
                    },
                    _ => {
                        let a = app_normalized(*arg);
                        if app_settled(a, *arg) {
                            app_normalized(Lam::app(*func, a))
                        } else {
                            t
                        }
                    },
                }
            } else {
                t
            }
        },
        Lam::Abs { param, body } => Lam::abs(param, app_normalized(*body)),
        Lam::Let { name, value, body } => Lam::bind(
            name,
            app_normalized(*value),
            app_normalized(*body),
        ),
    }
}

/// Replacing a variable by a variable keeps the weight.
pub proof fn lemma_rename_weight(t: Lam, x: Seq<char>, y: Seq<char>)
    ensures
        app_weight(t.rename(x, y)) == app_weight(t),
    decreases t,
{
    match t {
        Lam::Var { .. } => {},
        Lam::App { func, arg } => {
            lemma_rename_weight(*func, x, y);
            lemma_rename_weight(*arg, x, y);
        },
        Lam::Abs { param, body } => {
            if param != x {
                lemma_rename_weight(*body, x, y);
            }
        },
        Lam::Let { name, value, body } => {
            lemma_rename_weight(*value, x, y);
            if name != x {
                lemma_rename_weight(*body, x, y);
            }
        },
    }
}

/// The first pass leaves every application app-normal, and its result is no heavier
/// than its argument: the condition on which `app_normalized` takes an application
/// up again is always met.
pub proof fn lemma_app_normalized(t: Lam)
    ensures
        app_normalized(t).apps_normal(),
        app_settled(app_normalized(t), t),
    decreases app_weight(t), app_stage(t),
{
    reveal_with_fuel(app_weight, 3);
    reveal_with_fuel(Lam::apps_normal, 2);
    match t {
        Lam::Var { .. } => {},
        Lam::App { func, arg } => {
            if !func.is_app_normal() {
                match *func {
                    Lam::Abs { param, body } => {
                        let v = fresh(arg.free_vars(), "v"@);
                        lemma_app_normalized(*body);
                        lemma_app_normalized(Lam::app(Lam::var(v), *arg));
                    },
                    Lam::Let { name, value, body } => {
                        lemma_app_normalized(*value);
                        if arg.free_vars().contains(name) {
                            let n = fresh(arg.free_vars(), name);
                            lemma_rename_weight(*body, name, n);
                            lemma_app_normalized(Lam::app(body.rename(name, n), *arg));
                        } else {
                            lemma_app_normalized(Lam::app(*body, *arg));
                        }
                    },
                    _ => {
                        lemma_app_normalized(*func);
                        lemma_app_normalized(Lam::app(app_normalized(*func), *arg));
                    },
                }
            } else if !arg.is_app_normal() {
                match *arg {
                    Lam::Abs { param, body } => {
                        let v = fresh(func.free_vars(), "v"@);
                        lemma_app_normalized(*body);
                        assert(Lam::var(v).is_app_normal());
                        assert(Lam::app(*func, Lam::var(v)).is_app_normal());
                    },
                    Lam::Let { name, value, body } => {
                        lemma_app_normalized(*value);
                        if func.free_vars().contains(name) {
                            let n = fresh(func.free_vars(), name);
                            lemma_rename_weight(*body, name, n);
                            lemma_app_normalized(Lam::app(*func, body.rename(name, n)));
                        } else {
                            lemma_app_normalized(Lam::app(*func, *body));
                        }
                    },
                    _ => {
                        lemma_app_normalized(*arg);
                        lemma_app_normalized(Lam::app(*func, app_normalized(*arg)));
                    },
                }
            }
        },
        Lam::Abs { param, body } => {
            lemma_app_normalized(*body);
        },
        Lam::Let { name, value, body } => {
            lemma_app_normalized(*value);
            lemma_app_normalized(*body);
        },
    }
}

/// Hoists abstractions and `let`s out of applications, so that every application
/// that is left applies variables and applications of them only.
pub fn normalize_app(term: &Term) -> (result: Term)
    ensures
        result@ == app_normalized(term@),
        result@.apps_normal(),
    decreases app_weight(term@), app_stage(term@),
{
    proof {
        lemma_app_normalized(term@);
    }
    match term {
        Term::Var { .. } => term.clone(),
        Term::App { func, arg } => {
            proof {
                lemma_app_steps((**func)@, (**arg)@);
            }
            if !is_term_app(func) {
                match &**func {
                    Term::Var { .. } | Term::App { .. } => {
                        let inner = normalize_app(func);
                        proof {
                            lemma_app_normalized((**func)@);
                        }
                        normalize_app(&Term::app(Rc::new(inner), share(arg)))
                    },
                    Term::Abs { param, body } => {
                        let arg_fvs = arg.free_vars();
                        let new_name = find_fresh_var(&arg_fvs, &String::from_str("v"));
                        proof {
                            lemma_app_steps(Lam::var(new_name@), (**arg)@);
                        }
                        Term::bind(
                            new_name.clone(),
                            Rc::new(Term::abs(param.clone(), Rc::new(normalize_app(body)))),
                            Rc::new(
                                normalize_app(
                                    &Term::app(Rc::new(Term::var(new_name)), share(arg)),
                                ),
                            ),
                        )
                    },
                    Term::Let { name, value, body } => {
                        let arg_fvs = arg.free_vars();
                        if arg_fvs.contains(name) {
                            let new_name = find_fresh_var(&arg_fvs, name);
                            proof {
                                lemma_rename_weight((**body)@, name@, new_name@);
                                lemma_app_steps((**body)@.rename(name@, new_name@), (**arg)@);
                            }
                            Term::bind(
                                new_name.clone(),
                                Rc::new(normalize_app(value)),
                                Rc::new(
                                    normalize_app(
                                        &Term::app(
                                            Rc::new(body.subst(name, &Term::var(new_name))),
                                            share(arg),
                                        ),
                                    ),
                                ),
                            )
                        } else {
                            proof {
                                lemma_app_steps((**body)@, (**arg)@);
                            }
                            Term::bind(
                                name.clone(),
                                Rc::new(normalize_app(value)),
                                Rc::new(normalize_app(&Term::app(share(body), share(arg)))),
                            )
                        }
                    },
                }
            } else if !is_term_app(arg) {
                match &**arg {
                    Term::Var { .. } | Term::App { .. } => {
                        let inner = normalize_app(arg);
                        proof {
                            lemma_app_normalized((**arg)@);
                        }
                        normalize_app(&Term::app(share(func), Rc::new(inner)))
                    },
                    Term::Abs { param, body } => {
                        let func_fvs = func.free_vars();
                        let new_name = find_fresh_var(&func_fvs, &String::from_str("v"));
                        Term::bind(
                            new_name.clone(),
                            Rc::new(Term::abs(param.clone(), Rc::new(normalize_app(body)))),
                            Rc::new(Term::app(share(func), Rc::new(Term::var(new_name)))),
                        )
                    },
                    Term::Let { name, value, body } => {
                        let func_fvs = func.free_vars();
                        if func_fvs.contains(name) {
                            let new_name = find_fresh_var(&func_fvs, name);
                            proof {
                                lemma_rename_weight((**body)@, name@, new_name@);
                                lemma_app_steps((**func)@, (**body)@.rename(name@, new_name@));
                            }
                            Term::bind(
                                new_name.clone(),
                                Rc::new(normalize_app(value)),
                                Rc::new(
                                    normalize_app(
                                        &Term::app(
                                            share(func),
                                            Rc::new(body.subst(name, &Term::var(new_name))),
                                        ),
                                    ),
                                ),
                            )
                        } else {
                            proof {
                                lemma_app_steps((**func)@, (**body)@);
                            }
                            Term::bind(
                                name.clone(),
                                Rc::new(normalize_app(value)),
                                Rc::new(normalize_app(&Term::app(share(func), share(body)))),
                            )
                        }
                    },
                }
            } else {
                term.clone()
            }
        },
        Term::Abs { param, body } => Term::abs(param.clone(), Rc::new(normalize_app(body))),
        Term::Let { name, value, body } => Term::bind(
            name.clone(),
            Rc::new(normalize_app(value)),
            Rc::new(normalize_app(body)),
        ),
    }
}

/// An application whose function, or else whose argument, is an application that
/// is not app-normal is normalized by normalizing that part and then the
/// application of the result.
pub proof fn lemma_app_normalized_again(func: Lam, arg: Lam)
    ensures
        func is App && !func.is_app_normal() ==> app_normalized(Lam::app(func, arg))
            == app_normalized(Lam::app(app_normalized(func), arg)),
        func.is_app_normal() && arg is App && !arg.is_app_normal() ==> app_normalized(
            Lam::app(func, arg),
        ) == app_normalized(Lam::app(func, app_normalized(arg))),
{
    lemma_app_normalized(func);
    lemma_app_normalized(arg);
}

/// The first pass changes nothing in a term whose applications are app-normal.
pub proof fn lemma_app_normalized_fixed(t: Lam)
    requires
        t.apps_normal(),
    ensures
        app_normalized(t) == t,
    decreases t,
{
    match t {
        Lam::Var { .. } => {},
        Lam::App { .. } => {},
        Lam::Abs { param, body } => {
            lemma_app_normalized_fixed(*body);
        },
        Lam::Let { name, value, body } => {
            lemma_app_normalized_fixed(*value);
            lemma_app_normalized_fixed(*body);
        },
    }
}

/// The result of the first pass is app-normal exactly if the term was: the pass puts
/// a `let` around every other application, and keeps abstractions and `let`s.
pub proof fn lemma_app_normalized_app_normal(t: Lam)
    ensures
        app_normalized(t).is_app_normal() <==> t.is_app_normal(),
    decreases app_weight(t), app_stage(t),
{
    if t.is_app_normal() {
        lemma_app_normal_implies(t);
        lemma_app_normalized_fixed(t);
    } else {
        match t {
            Lam::App { func, arg } => {
                if !func.is_app_normal() {
                    if *func is App {
                        let f = app_normalized(*func);
                        lemma_app_normalized(*func);
                        lemma_app_normalized_app_normal(*func);
                        lemma_app_normalized_app_normal(Lam::app(f, *arg));
                    }
                } else if *arg is App {
                    let a = app_normalized(*arg);
                    lemma_app_normalized(*arg);
                    lemma_app_normalized_app_normal(*arg);
                    lemma_app_normalized_app_normal(Lam::app(*func, a));
                }
            },
            _ => {},
        }
    }
}

/// The result of the first pass holds no `let` exactly if the term held none and
/// its applications were app-normal, so that the pass had nothing to do.
pub proof fn lemma_app_normalized_abs_normal(t: Lam)
    ensures
        app_normalized(t).is_abs_normal() <==> t.is_abs_normal() && t.apps_normal(),
    decreases app_weight(t), app_stage(t),
{
    if t.apps_normal() {
        lemma_app_normalized_fixed(t);
    } else {
        match t {
            Lam::App { func, arg } => {
                if !func.is_app_normal() {
                    if *func is App {
                        let f = app_normalized(*func);
                        lemma_app_normalized(*func);
                        lemma_app_normalized_app_normal(*func);
                        lemma_app_normalized_abs_normal(Lam::app(f, *arg));
                    }
                } else if *arg is App {
                    let a = app_normalized(*arg);
                    lemma_app_normalized(*arg);
                    lemma_app_normalized_app_normal(*arg);
                    lemma_app_normalized_abs_normal(Lam::app(*func, a));
                }
            },
            Lam::Abs { param, body } => {
                lemma_app_normalized_abs_normal(*body);
            },
            _ => {},
        }
    }
}

/// The weight of an application against the weights of its parts and of theirs.
proof fn lemma_app_steps(func: Lam, arg: Lam)
    ensures
        app_weight(Lam::app(func, arg)) == 2 * (app_weight(func) + app_weight(arg)) + 1,
        app_weight(func) >= 1,
        app_weight(arg) >= 1,
        func matches Lam::Abs { body, .. } ==> app_weight(func) == 2 + app_weight(*body),
        func matches Lam::Let { value, body, .. } ==> app_weight(func) == 1 + app_weight(*value)
            + app_weight(*body),
        arg matches Lam::Abs { body, .. } ==> app_weight(arg) == 2 + app_weight(*body),
        arg matches Lam::Let { value, body, .. } ==> app_weight(arg) == 1 + app_weight(*value)
            + app_weight(*body),
{
    reveal_with_fuel(app_weight, 2);
}

} // verus!
