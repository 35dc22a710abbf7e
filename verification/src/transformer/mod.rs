//! The passes that bring a term into the form that the generator takes.
//!
//! `normalize_app` hoists abstractions and `let`s out of applications,
//! `normalize_abs` lifts `let`s out of abstractions, `normalize_let` rotates the
//! `let`s onto one spine, and `mangle` renames the `let`s along that spine. Each pass
//! takes what the pass before it yields; `transform` runs the four in order.

pub mod abs;
pub mod app;
pub mod lets;
pub mod mangle;
pub mod shape;

pub use crate::fresh::find_fresh_var;
pub use crate::transformer::abs::normalize_abs;
pub use crate::transformer::app::normalize_app;
pub use crate::transformer::lets::normalize_let;
pub use crate::transformer::mangle::mangle;
pub use crate::transformer::shape::{is_term_abs, is_term_app, is_term_let};

use crate::fresh::{fresh, lemma_fresh_not_in_env};
use crate::lambda::{lemma_free_vars_finite, Lam, Term};
use crate::names::NameSet;
use crate::transformer::abs::{abs_normalized, lemma_abs_normalized, lemma_abs_normalized_fixed};
use crate::transformer::app::{
    app_normalized, lemma_app_normalized, lemma_app_normalized_abs_normal,
    lemma_app_normalized_fixed,
};
use crate::transformer::lets::{lemma_let_normalized, lemma_let_normalized_fixed, let_normalized};
use crate::transformer::mangle::{lemma_mangled_shape, mangled};
use crate::transformer::shape::{
    lemma_abs_normal_is_lifted, lemma_abs_normal_let_count, lemma_let_normal_is_abs_normal,
    lemma_spine_is_lifted,
};
use vstd::prelude::*;

verus! {

/// The result of the three normalizing passes, one after the other.
pub open spec fn normalized(t: Lam) -> Lam {
    let_normalized(abs_normalized(app_normalized(t)))
}

/// The result of all four passes: the normalized term with its `let`s renamed.
pub open spec fn transformed(t: Lam) -> Lam {
    mangled(normalized(t), Set::empty())
}

/// Brings a term into the form that the generator takes: a spine of `let`s whose
/// values, like the term at its end, are abstractions over app-normal terms.
pub fn transform(term: &Term) -> (result: Term)
    ensures
        result@ == transformed(term@),
        result@.is_let_spine(),
        result@.apps_normal(),
{
    let term = normalize_app(term);
    let term = normalize_abs(&term);
    let term = normalize_let(&term);
    proof {
        lemma_mangled_shape(term@, Set::empty());
    }
    mangle(&term, &NameSet::new())
}

/// A name made fresh for the free variables of a term is not free in the term: a
/// binder of that name, put around the term, binds nothing in it.
pub proof fn lemma_fresh_not_free(t: Lam, prefix: Seq<char>)
    ensures
        !t.free_vars().contains(fresh(t.free_vars(), prefix)),
{
    lemma_free_vars_finite(t);
    lemma_fresh_not_in_env(t.free_vars(), prefix);
}

/// After the three passes the term is a spine of `let`s whose applications are
/// app-normal.
pub proof fn lemma_normalized_shape(t: Lam)
    ensures
        normalized(t).is_let_spine(),
        normalized(t).apps_normal(),
        normalized(t).let_count() == app_normalized(t).let_count(),
{
    lemma_app_normalized(t);
    lemma_abs_normalized(app_normalized(t));
    lemma_let_normalized(abs_normalized(app_normalized(t)));
}

/// None of the three passes changes the result of the three passes.
pub proof fn lemma_normalized_fixed(t: Lam)
    ensures
        app_normalized(normalized(t)) == normalized(t),
        abs_normalized(normalized(t)) == normalized(t),
        let_normalized(normalized(t)) == normalized(t),
        normalized(normalized(t)) == normalized(t),
{
    lemma_normalized_shape(t);
    lemma_app_normalized_fixed(normalized(t));
    lemma_spine_is_lifted(normalized(t));
    lemma_abs_normalized_fixed(normalized(t));
    lemma_let_normalized_fixed(normalized(t));
}

/// After the first two passes the term holds no `let` exactly if it held none
/// before and its applications were app-normal; the passes then changed nothing.
pub proof fn lemma_abs_normal_after_two(t: Lam)
    ensures
        abs_normalized(app_normalized(t)).is_abs_normal() <==> t.is_abs_normal()
            && t.apps_normal(),
        t.is_abs_normal() && t.apps_normal() ==> abs_normalized(app_normalized(t)) == t,
{
    let a = app_normalized(t);
    lemma_app_normalized(t);
    lemma_app_normalized_abs_normal(t);
    lemma_abs_normalized(a);
    lemma_abs_normal_let_count(a);
    lemma_abs_normal_let_count(abs_normalized(a));
    if t.is_abs_normal() && t.apps_normal() {
        lemma_app_normalized_fixed(t);
        lemma_abs_normal_is_lifted(t);
        lemma_abs_normalized_fixed(t);
    }
}

/// After the three passes the term holds no `let` exactly if it held none before
/// and its applications were app-normal; the passes then changed nothing.
pub proof fn lemma_let_normal_after_three(t: Lam)
    ensures
        normalized(t).is_let_normal() <==> t.is_abs_normal() && t.apps_normal(),
        t.is_abs_normal() && t.apps_normal() ==> normalized(t) == t,
{
    let b = abs_normalized(app_normalized(t));
    lemma_abs_normal_after_two(t);
    lemma_app_normalized(t);
    lemma_abs_normalized(app_normalized(t));
    lemma_let_normalized(b);
    lemma_let_normal_is_abs_normal(normalized(t));
    lemma_abs_normal_let_count(normalized(t));
    lemma_abs_normal_let_count(b);
    if t.is_abs_normal() && t.apps_normal() {
        lemma_abs_normal_is_lifted(t);
        lemma_let_normalized_fixed(t);
    }
}

} // verus!
