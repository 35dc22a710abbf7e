//! The normal forms that the passes establish, and the functions that decide them.

use crate::lambda::{Lam, Term};
use vstd::prelude::*;

verus! {

impl Lam {
    /// App-normal: neither an abstraction nor a `let` anywhere in the term, which is
    /// then a variable or an application of app-normal terms.
    pub open spec fn is_app_normal(self) -> bool
        decreases self,
    {
        match self {
            Lam::Var { .. } => true,
            Lam::App { func, arg } => func.is_app_normal() && arg.is_app_normal(),
            Lam::Abs { .. } => false,
            Lam::Let { .. } => false,
        }
    }

    /// Abs-normal: no `let` anywhere in the term.
    pub open spec fn is_abs_normal(self) -> bool
        decreases self,
    {
        match self {
            Lam::Var { .. } => true,
            Lam::App { func, arg } => func.is_abs_normal() && arg.is_abs_normal(),
            Lam::Abs { body, .. } => body.is_abs_normal(),
            Lam::Let { .. } => false,
        }
    }

    /// Let-normal: no `let` anywhere in the term; the same as abs-normal.
    pub open spec fn is_let_normal(self) -> bool
        decreases self,
    {
        match self {
            Lam::Var { .. } => true,
            Lam::App { func, arg } => func.is_let_normal() && arg.is_let_normal(),
            Lam::Abs { body, .. } => body.is_let_normal(),
            Lam::Let { .. } => false,
        }
    }

    /// Every application in the term is app-normal: abstractions and `let`s stand
    /// outside all applications.
    pub open spec fn apps_normal(self) -> bool
        decreases self,
    {
        match self {
            Lam::Var { .. } => true,
            Lam::App { .. } => self.is_app_normal(),
            Lam::Abs { body, .. } => body.apps_normal(),
            Lam::Let { value, body, .. } => value.apps_normal() && body.apps_normal(),
        }
    }

    /// No `let` stands below an abstraction: what is not a `let` holds none.
    pub open spec fn lets_lifted(self) -> bool
        decreases self,
    {
        match self {
            Lam::Let { value, body, .. } => value.lets_lifted() && body.lets_lifted(),
            _ => self.is_abs_normal(),
        }
    }

    /// The `let`s form a spine that leans to the right: the value of each `let`, and
    /// what stands at the end of the spine, hold no `let`.
    pub open spec fn is_let_spine(self) -> bool
        decreases self,
    {
        match self {
            Lam::Let { value, body, .. } => value.is_let_normal() && body.is_let_spine(),
            _ => self.is_let_normal(),
        }
    }

    /// The number of `let`s in the term.
    pub open spec fn let_count(self) -> nat
        decreases self,
    {
        match self {
            Lam::Var { .. } => 0,
            Lam::App { func, arg } => func.let_count() + arg.let_count(),
            Lam::Abs { body, .. } => body.let_count(),
            Lam::Let { value, body, .. } => 1 + value.let_count() + body.let_count(),
        }
    }
}

/// Whether the term is app-normal.
pub fn is_term_app(term: &Term) -> (normal: bool)
    ensures
        normal == term@.is_app_normal(),
    decreases term,
{
    match term {
        Term::Var { .. } => true,
        Term::App { func, arg } => is_term_app(func) && is_term_app(arg),
        Term::Abs { .. } => false,
        Term::Let { .. } => false,
    }
}

/// Whether the term is abs-normal.
pub fn is_term_abs(term: &Term) -> (normal: bool)
    ensures
        normal == term@.is_abs_normal(),
    decreases term,
{
    match term {
        Term::Var { .. } => true,
        Term::App { func, arg } => is_term_abs(func) && is_term_abs(arg),
        Term::Abs { body, .. } => is_term_abs(body),
        Term::Let { .. } => false,
    }
}

/// Whether the term is let-normal.
pub fn is_term_let(term: &Term) -> (normal: bool)
    ensures
        normal == term@.is_let_normal(),
    decreases term,
{
    match term {
        Term::Var { .. } => true,
        Term::App { func, arg } => is_term_let(func) && is_term_let(arg),
        Term::Abs { body, .. } => is_term_let(body),
        Term::Let { .. } => false,
    }
}

/// Let-normal and abs-normal are one predicate.
pub proof fn lemma_let_normal_is_abs_normal(t: Lam)
    ensures
        t.is_let_normal() == t.is_abs_normal(),
    decreases t,
{
    match t {
        Lam::App { func, arg } => {
            lemma_let_normal_is_abs_normal(*func);
            lemma_let_normal_is_abs_normal(*arg);
        },
        Lam::Abs { body, .. } => {
            lemma_let_normal_is_abs_normal(*body);
        },
        _ => {},
    }
}

/// A term holds no `let` exactly if its count of `let`s is 0.
pub proof fn lemma_abs_normal_let_count(t: Lam)
    ensures
        t.is_abs_normal() <==> t.let_count() == 0,
    decreases t,
{
    match t {
        Lam::App { func, arg } => {
            lemma_abs_normal_let_count(*func);
            lemma_abs_normal_let_count(*arg);
        },
        Lam::Abs { body, .. } => {
            lemma_abs_normal_let_count(*body);
        },
        _ => {},
    }
}

/// An app-normal term is abs-normal, and all its applications are app-normal.
pub proof fn lemma_app_normal_implies(t: Lam)
    requires
        t.is_app_normal(),
    ensures
        t.is_abs_normal(),
        t.apps_normal(),
    decreases t,
{
    match t {
        Lam::App { func, arg } => {
            lemma_app_normal_implies(*func);
            lemma_app_normal_implies(*arg);
        },
        _ => {},
    }
}

/// A right-leaning spine of `let`s has no `let` below an abstraction.
pub proof fn lemma_spine_is_lifted(t: Lam)
    requires
        t.is_let_spine(),
    ensures
        t.lets_lifted(),
    decreases t,
{
    lemma_let_normal_is_abs_normal(t);
    match t {
        Lam::Let { value, body, .. } => {
            lemma_let_normal_is_abs_normal(*value);
            lemma_abs_normal_is_lifted(*value);
            lemma_spine_is_lifted(*body);
        },
        _ => {
            lemma_abs_normal_is_lifted(t);
        },
    }
}

/// A term without `let`s is, trivially, one whose `let`s are lifted, and a spine.
pub proof fn lemma_abs_normal_is_lifted(t: Lam)
    requires
        t.is_abs_normal(),
    ensures
        t.lets_lifted(),
        t.is_let_spine(),
{
    lemma_let_normal_is_abs_normal(t);
}

/// Putting an app-normal term in place of a variable keeps an app-normal term
/// app-normal, keeps applications app-normal, and keeps the arrangement and the
/// number of the `let`s.
pub proof fn lemma_subst_shape(t: Lam, x: Seq<char>, s: Lam)
    requires
        s.is_app_normal(),
    ensures
        t.is_app_normal() ==> t.subst(x, s).is_app_normal(),
        t.apps_normal() ==> t.subst(x, s).apps_normal(),
        t.is_abs_normal() == t.subst(x, s).is_abs_normal(),
        t.is_let_normal() == t.subst(x, s).is_let_normal(),
        t.lets_lifted() == t.subst(x, s).lets_lifted(),
        t.is_let_spine() == t.subst(x, s).is_let_spine(),
        t.subst(x, s).let_count() == t.let_count(),
        t is Let == t.subst(x, s) is Let,
        t is Abs == t.subst(x, s) is Abs,
    decreases t,
{
    lemma_app_normal_implies(s);
    lemma_let_normal_is_abs_normal(s);
    lemma_abs_normal_let_count(s);
    lemma_abs_normal_is_lifted(s);
    match t {
        Lam::Var { .. } => {},
        Lam::App { func, arg } => {
            lemma_subst_shape(*func, x, s);
            lemma_subst_shape(*arg, x, s);
        },
        Lam::Abs { param, body } => {
            lemma_subst_shape(*body, x, s);
        },
        Lam::Let { name, value, body } => {
            lemma_subst_shape(*value, x, s);
            lemma_subst_shape(*body, x, s);
        },
    }
}

} // verus!
