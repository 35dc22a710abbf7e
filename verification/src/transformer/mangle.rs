//! The last pass: the `let`s along the spine get names that were not bound before.

use crate::fresh::{
    candidate, find_fresh_var, first_free, fresh, lemma_first_free_unique, lemma_fresh_exists,
    lemma_fresh_not_in_env,
};
use crate::lambda::{lemma_rename_size, share, Lam, Term};
use crate::names::NameSet;
use crate::text::{decimal, is_digit, lemma_decimal_ends_in_digit};
use crate::transformer::shape::lemma_subst_shape;
use std::rc::Rc;
use vstd::prelude::*;

verus! {

/// The name that a `let` called `name` gets when the names in `env` were bound
/// before it.
pub open spec fn mangled_name(name: Seq<char>, env: Set<Seq<char>>) -> Seq<char> {
    if env.contains(name) {
        fresh(env, name)
    } else {
        name
    }
}

/// The result of the last pass on a term below the binders named in `env`.
///
/// Going down the spine, a `let` whose name is in `env` is renamed to a fresh name,
/// in its body too. Its old name joins `env` for what follows; the values are left
/// as they are.
pub open spec fn mangled(t: Lam, env: Set<Seq<char>>) -> Lam
    decreases t.size(),
{
    match t {
        Lam::Let { name, value, body } => {
            let n = mangled_name(name, env);
            proof {
                lemma_rename_size(*body, name, n);
            }
            Lam::bind(n, *value, mangled(body.rename(name, n), env.insert(name)))
        },
        _ => t,
    }
}

/// The last pass keeps the size of the term, a spine of `let`s, and app-normal
/// applications.
pub proof fn lemma_mangled_shape(t: Lam, env: Set<Seq<char>>)
    ensures
        mangled(t, env).size() == t.size(),
        t.is_let_spine() ==> mangled(t, env).is_let_spine(),
        t.apps_normal() ==> mangled(t, env).apps_normal(),
    decreases t.size(),
{
    match t {
        Lam::Let { name, value, body } => {
            let n = mangled_name(name, env);
            lemma_rename_size(*body, name, n);
            lemma_subst_shape(*body, name, Lam::var(n));
            lemma_mangled_shape(body.rename(name, n), env.insert(name));
        },
        _ => {},
    }
}

/// Renames the `let`s along the spine of `term` whose names are in `env` or were
/// bound further up the spine.
pub fn mangle(term: &Term, env: &NameSet) -> (result: Term)
    ensures
        result@ == mangled(term@, env@),
    decreases term@.size(),
{
    match term {
        Term::Var { .. } => term.clone(),
        Term::App { .. } => term.clone(),
        Term::Abs { .. } => term.clone(),
        Term::Let { name, value, body } => {
            let new_name = if env.contains(name) {
                find_fresh_var(env, name)
            } else {
                name.clone()
            };
            let mut new_env = env.clone();
            new_env.insert(name.clone());
            proof {
                lemma_rename_size((**body)@, name@, new_name@);
            }
            let renamed = body.subst(name, &Term::var(new_name.clone()));
            Term::bind(new_name, share(value), Rc::new(mangle(&renamed, &new_env)))
        },
    }
}

/// The names that the `let`s along the spine bind, outermost first.
pub open spec fn spine_names(t: Lam) -> Seq<Seq<char>>
    decreases t,
{
    match t {
        Lam::Let { name, body, .. } => seq![name] + spine_names(*body),
        _ => Seq::empty(),
    }
}

/// The names bound before the `let` at position `i` of a spine that binds `names`
/// and stands below the binders named in `env`.
pub open spec fn bound_before(names: Seq<Seq<char>>, env: Set<Seq<char>>, i: int) -> Set<
    Seq<char>,
> {
    env.union(names.take(i).to_set())
}

/// The names that the last pass gives to a spine that binds `names` below the
/// binders named in `env`: each name is mangled against those bound before it.
pub open spec fn mangled_names(names: Seq<Seq<char>>, env: Set<Seq<char>>) -> Seq<Seq<char>> {
    Seq::new(names.len(), |i: int| mangled_name(names[i], bound_before(names, env, i)))
}

/// A name that does not end in a digit.
pub open spec fn is_plain(name: Seq<char>) -> bool {
    name.len() == 0 || !is_digit(name.last())
}

/// No name is bound three times, nor twice if it is in `env`: of two `let`s of one
/// name the first is the first of that name, and the name is not in `env`.
pub open spec fn bound_twice_at_most(names: Seq<Seq<char>>, env: Set<Seq<char>>) -> bool {
    forall|i: int, j: int|
        0 <= j < i < names.len() && #[trigger] names[j] == #[trigger] names[i] ==> !bound_before(
            names,
            env,
            j,
        ).contains(names[j])
}

/// Putting a term that is no `let` in place of a variable keeps the names that the
/// spine binds.
pub proof fn lemma_subst_spine_names(t: Lam, x: Seq<char>, s: Lam)
    requires
        !(s is Let),
    ensures
        spine_names(t.subst(x, s)) == spine_names(t),
    decreases t,
{
    match t {
        Lam::Let { name, value, body } => {
            if name != x {
                lemma_subst_spine_names(*body, x, s);
            }
        },
        _ => {},
    }
}

/// The names along the spine after the last pass: the name of each `let` is
/// mangled against `env` and the names that the `let`s before it had.
pub proof fn lemma_mangled_spine_names(t: Lam, env: Set<Seq<char>>)
    ensures
        spine_names(mangled(t, env)) == mangled_names(spine_names(t), env),
    decreases t.size(),
{
    let names = spine_names(t);
    match t {
        Lam::Let { name, value, body } => {
            let n = mangled_name(name, env);
            let renamed = body.rename(name, n);
            let rest = spine_names(*body);
            lemma_rename_size(*body, name, n);
            lemma_subst_spine_names(*body, name, Lam::var(n));
            lemma_mangled_spine_names(renamed, env.insert(name));
            assert(names =~= seq![name] + rest);
            assert forall|i: int| 0 <= i < names.len() implies (seq![n] + mangled_names(
                rest,
                env.insert(name),
            ))[i] == mangled_names(names, env)[i] by {
                if i == 0 {
                    assert(names.take(0) =~= Seq::<Seq<char>>::empty());
                    assert(bound_before(names, env, 0) =~= env);
                } else {
                    assert(names.take(i) =~= seq![name] + rest.take(i - 1));
                    lemma_push_front_to_set(rest.take(i - 1), name);
                    assert(bound_before(names, env, i) =~= bound_before(
                        rest,
                        env.insert(name),
                        i - 1,
                    ));
                }
            }
            assert(spine_names(mangled(t, env)) =~= mangled_names(names, env));
        },
        _ => {
            assert(spine_names(mangled(t, env)) =~= mangled_names(names, env));
        },
    }
}

/// The elements of a sequence with one more in front are those of the sequence and
/// that one.
proof fn lemma_push_front_to_set(s: Seq<Seq<char>>, a: Seq<char>)
    ensures
        (seq![a] + s).to_set() == s.to_set().insert(a),
{
    let t = seq![a] + s;
    assert forall|x: Seq<char>| t.contains(x) <==> (s.contains(x) || x == a) by {
        if s.contains(x) {
            let k = choose|k: int| 0 <= k < s.len() && s[k] == x;
            assert(t[k + 1] == x);
        }
        if x == a {
            assert(t[0] == x);
        }
        if t.contains(x) {
            let k = choose|k: int| 0 <= k < t.len() && t[k] == x;
            if k > 0 {
                assert(s[k - 1] == x);
            }
        }
    }
    assert(t.to_set() =~= s.to_set().insert(a));
}

/// After the last pass, below finitely many binders, the name of each `let` along
/// the spine is none of `env` and none of the names that the `let`s before it had
/// before the pass.
pub proof fn lemma_mangled_names_avoid(t: Lam, env: Set<Seq<char>>, i: int)
    requires
        env.finite(),
        0 <= i < spine_names(t).len(),
    ensures
        spine_names(mangled(t, env)).len() == spine_names(t).len(),
        !env.contains(spine_names(mangled(t, env))[i]),
        forall|j: int| 0 <= j < i ==> spine_names(mangled(t, env))[i] != spine_names(t)[j],
{
    let names = spine_names(t);
    let before = bound_before(names, env, i);
    lemma_mangled_spine_names(t, env);
    vstd::seq_lib::seq_to_set_is_finite(names.take(i));
    lemma_fresh_not_in_env(before, names[i]);
    assert forall|j: int| 0 <= j < i implies before.contains(names[j]) by {
        assert(names.take(i)[j] == names[j]);
    }
}

/// The `let` at position `j` of a spine is renamed by the last pass: its name was
/// bound before it.
pub open spec fn is_renamed(names: Seq<Seq<char>>, env: Set<Seq<char>>, j: int) -> bool {
    bound_before(names, env, j).contains(names[j])
}

/// After the last pass, below finitely many binders, the names along the spine are
/// distinct exactly if no `let` has the name that a renamed `let` before it got: a
/// `let` that keeps its name shares it with none.
pub proof fn lemma_mangled_names_distinct_iff(t: Lam, env: Set<Seq<char>>)
    requires
        env.finite(),
    ensures
        spine_names(mangled(t, env)).no_duplicates() <==> forall|j: int, i: int|
            0 <= j < i < spine_names(t).len() && is_renamed(spine_names(t), env, j)
                ==> #[trigger] mangled_names(spine_names(t), env)[j] != #[trigger] mangled_names(
                spine_names(t),
                env,
            )[i],
{
    let names = spine_names(t);
    let out = spine_names(mangled(t, env));
    lemma_mangled_spine_names(t, env);
    if forall|j: int, i: int|
        0 <= j < i < names.len() && is_renamed(names, env, j) ==> #[trigger] mangled_names(
            names,
            env,
        )[j] != #[trigger] mangled_names(names, env)[i] {
        assert forall|i: int, j: int|
            0 <= i < out.len() && 0 <= j < out.len() && i != j implies out[i] != out[j] by {
            let (lo, hi) = if j < i {
                (j, i)
            } else {
                (i, j)
            };
            lemma_mangled_names_avoid(t, env, hi);
            if !is_renamed(names, env, lo) {
                assert(out[lo] == names[lo]);
            }
        }
    }
}

/// After the last pass the names along the spine are distinct, if before it no name
/// there or in `env` ended in a digit, and none was bound three times, nor twice if
/// it was in `env`.
pub proof fn lemma_mangled_names_distinct(t: Lam, env: Set<Seq<char>>)
    requires
        env.finite(),
        forall|n: Seq<char>| env.contains(n) ==> is_plain(n),
        forall|i: int| 0 <= i < spine_names(t).len() ==> is_plain(#[trigger] spine_names(t)[i]),
        bound_twice_at_most(spine_names(t), env),
    ensures
        spine_names(mangled(t, env)).no_duplicates(),
{
    let names = spine_names(t);
    let out = spine_names(mangled(t, env));
    lemma_mangled_spine_names(t, env);
    assert forall|i: int, j: int| 0 <= i < out.len() && 0 <= j < out.len() && i != j implies out[i]
        != out[j] by {
        if j < i {
            lemma_mangled_pair_distinct(names, env, j, i);
        } else {
            lemma_mangled_pair_distinct(names, env, i, j);
        }
    }
}

/// Among plain names, in a finite set of which the name is one, the fresh name is
/// the name followed by `0`.
proof fn lemma_fresh_among_plain(before: Set<Seq<char>>, name: Seq<char>)
    requires
        before.finite(),
        forall|n: Seq<char>| before.contains(n) ==> is_plain(n),
        before.contains(name),
    ensures
        fresh(before, name) == name + decimal(0),
        !is_plain(fresh(before, name)),
{
    lemma_decimal_ends_in_digit(0);
    let first = candidate(name, 1);
    assert(first == name + decimal(0));
    assert(first.last() == decimal(0).last());
    assert(!is_plain(first));
    assert(!before.contains(first));
    assert(first_free(before, name, 1)) by {
        assert forall|j: nat| j < 1 implies before.contains(#[trigger] candidate(name, j)) by {
            assert(j == 0);
            assert(candidate(name, j) == name);
        }
    }
    let chosen = lemma_fresh_exists(before, name);
    lemma_first_free_unique(before, name, 1, chosen);
}

/// Two `let`s of a spine get different names, on the conditions of
/// `lemma_mangled_names_distinct`.
proof fn lemma_mangled_pair_distinct(names: Seq<Seq<char>>, env: Set<Seq<char>>, j: int, i: int)
    requires
        env.finite(),
        forall|n: Seq<char>| env.contains(n) ==> is_plain(n),
        forall|k: int| 0 <= k < names.len() ==> is_plain(#[trigger] names[k]),
        bound_twice_at_most(names, env),
        0 <= j < i < names.len(),
    ensures
        mangled_names(names, env)[j] != mangled_names(names, env)[i],
{
    let before_j = bound_before(names, env, j);
    let before_i = bound_before(names, env, i);
    vstd::seq_lib::seq_to_set_is_finite(names.take(j));
    vstd::seq_lib::seq_to_set_is_finite(names.take(i));
    assert forall|n: Seq<char>| before_j.contains(n) implies is_plain(n) by {
        if !env.contains(n) {
            let k = choose|k: int| 0 <= k < names.take(j).len() && names.take(j)[k] == n;
            assert(names[k] == n);
        }
    }
    assert forall|n: Seq<char>| before_i.contains(n) implies is_plain(n) by {
        if !env.contains(n) {
            let k = choose|k: int| 0 <= k < names.take(i).len() && names.take(i)[k] == n;
            assert(names[k] == n);
        }
    }
    assert(before_i.contains(names[j])) by {
        assert(names.take(i)[j] == names[j]);
    }
    let renamed_j = before_j.contains(names[j]);
    let renamed_i = before_i.contains(names[i]);
    if renamed_j {
        lemma_fresh_among_plain(before_j, names[j]);
    }
    if renamed_i {
        lemma_fresh_among_plain(before_i, names[i]);
    }
    if renamed_j && renamed_i {
        if names[j] + decimal(0) == names[i] + decimal(0) {
            let a = names[j] + decimal(0);
            let b = names[i] + decimal(0);
            assert(a.len() == b.len());
            assert(a.subrange(0, names[j].len() as int) =~= names[j]);
            assert(b.subrange(0, names[i].len() as int) =~= names[i]);
            assert(names[j] == names[i]);
        }
    }
}

} // verus!
