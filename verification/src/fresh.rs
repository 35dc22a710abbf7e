//! The supply of fresh names.

use crate::names::NameSet;
use crate::text::{decimal, decimal_string, lemma_decimal_injective, lemma_decimal_nonempty};
use vstd::prelude::*;
use vstd::string::StringExecFns;

verus! {

/// The candidates for a fresh name, in the order in which they are tried: the prefix
/// itself, then the prefix followed by `0`, by `1`, and so on.
pub open spec fn candidate(prefix: Seq<char>, k: nat) -> Seq<char> {
    if k == 0 {
        prefix
    } else {
        prefix + decimal((k - 1) as nat)
    }
}

/// `k` is the first candidate that is not in `env`.
pub open spec fn first_free(env: Set<Seq<char>>, prefix: Seq<char>, k: nat) -> bool {
    &&& !env.contains(candidate(prefix, k))
    &&& forall|j: nat| j < k ==> env.contains(#[trigger] candidate(prefix, j))
}

/// The fresh name for `prefix`: the first candidate that is not in `env`.
pub open spec fn fresh(env: Set<Seq<char>>, prefix: Seq<char>) -> Seq<char> {
    candidate(prefix, choose|k: nat| first_free(env, prefix, k))
}

/// The first `k` candidates.
pub open spec fn candidates(prefix: Seq<char>, k: nat) -> Set<Seq<char>>
    decreases k,
{
    if k == 0 {
        Set::empty()
    } else {
        candidates(prefix, (k - 1) as nat).insert(candidate(prefix, (k - 1) as nat))
    }
}

/// No two candidates are the same name.
pub proof fn lemma_candidate_injective(prefix: Seq<char>, j: nat, k: nat)
    requires
        candidate(prefix, j) == candidate(prefix, k),
    ensures
        j == k,
{
    if j > 0 {
        lemma_decimal_nonempty((j - 1) as nat);
    }
    if k > 0 {
        lemma_decimal_nonempty((k - 1) as nat);
    }
    if j > 0 && k > 0 {
        let dj = decimal((j - 1) as nat);
        let dk = decimal((k - 1) as nat);
        assert((prefix + dj).subrange(prefix.len() as int, (prefix + dj).len() as int) =~= dj);
        assert((prefix + dk).subrange(prefix.len() as int, (prefix + dk).len() as int) =~= dk);
        lemma_decimal_injective((j - 1) as nat, (k - 1) as nat);
    } else if j > 0 || k > 0 {
        assert(candidate(prefix, j).len() != candidate(prefix, k).len());
    }
}

/// The first `k` candidates are `k` names.
pub proof fn lemma_candidates(prefix: Seq<char>, k: nat)
    ensures
        candidates(prefix, k).finite(),
        candidates(prefix, k).len() == k,
        forall|n: Seq<char>|
            candidates(prefix, k).contains(n) <==> exists|j: nat|
                j < k && #[trigger] candidate(prefix, j) == n,
    decreases k,
{
    if k > 0 {
        let less = candidates(prefix, (k - 1) as nat);
        let last = candidate(prefix, (k - 1) as nat);
        lemma_candidates(prefix, (k - 1) as nat);
        if less.contains(last) {
            let j = choose|j: nat| j < k - 1 && #[trigger] candidate(prefix, j) == last;
            lemma_candidate_injective(prefix, j, (k - 1) as nat);
        }
        assert forall|n: Seq<char>| candidates(prefix, k).contains(n) implies exists|j: nat|
            j < k && #[trigger] candidate(prefix, j) == n by {
            if n == last {
                assert(candidate(prefix, (k - 1) as nat) == n);
            } else {
                let j = choose|j: nat| j < k - 1 && #[trigger] candidate(prefix, j) == n;
                assert(j < k && candidate(prefix, j) == n);
            }
        }
    }
}

/// A finite set that holds the first `k` candidates has at least `k` members.
pub proof fn lemma_candidates_in_env(env: Set<Seq<char>>, prefix: Seq<char>, k: nat)
    requires
        env.finite(),
        forall|j: nat| j < k ==> env.contains(#[trigger] candidate(prefix, j)),
    ensures
        k <= env.len(),
{
    lemma_candidates(prefix, k);
    assert(candidates(prefix, k).subset_of(env));
    vstd::set_lib::lemma_len_subset(candidates(prefix, k), env);
}

/// At most one candidate is the first that is free.
pub proof fn lemma_first_free_unique(env: Set<Seq<char>>, prefix: Seq<char>, j: nat, k: nat)
    requires
        first_free(env, prefix, j),
        first_free(env, prefix, k),
    ensures
        j == k,
{
    if j < k {
        assert(env.contains(candidate(prefix, j)));
    }
    if k < j {
        assert(env.contains(candidate(prefix, k)));
    }
}

/// A finite set leaves some candidate free, and the first of them is the fresh name.
pub proof fn lemma_fresh_exists(env: Set<Seq<char>>, prefix: Seq<char>) -> (k: nat)
    requires
        env.finite(),
    ensures
        first_free(env, prefix, k),
        fresh(env, prefix) == candidate(prefix, k),
        k <= env.len(),
{
    let k = lemma_first_free_from(env, prefix, 0);
    let chosen = choose|k: nat| first_free(env, prefix, k);
    lemma_first_free_unique(env, prefix, k, chosen);
    k
}

/// If the candidates before `from` are all taken, a first free candidate is found at
/// `from` or after it.
proof fn lemma_first_free_from(env: Set<Seq<char>>, prefix: Seq<char>, from: nat) -> (k: nat)
    requires
        env.finite(),
        forall|j: nat| j < from ==> env.contains(#[trigger] candidate(prefix, j)),
    ensures
        first_free(env, prefix, k),
        k <= env.len(),
    decreases env.len() - from,
{
    lemma_candidates_in_env(env, prefix, from);
    if env.contains(candidate(prefix, from)) {
        lemma_candidates_in_env(env, prefix, from + 1);
        lemma_first_free_from(env, prefix, from + 1)
    } else {
        from
    }
}

/// The fresh name is not in the set it was made for.
pub proof fn lemma_fresh_not_in_env(env: Set<Seq<char>>, prefix: Seq<char>)
    requires
        env.finite(),
    ensures
        !env.contains(fresh(env, prefix)),
{
    lemma_fresh_exists(env, prefix);
}

/// A prefix that is not in the set is its own fresh name.
pub proof fn lemma_fresh_unused_prefix(env: Set<Seq<char>>, prefix: Seq<char>)
    requires
        !env.contains(prefix),
    ensures
        fresh(env, prefix) == prefix,
{
    assert(first_free(env, prefix, 0));
    let chosen = choose|k: nat| first_free(env, prefix, k);
    lemma_first_free_unique(env, prefix, 0, chosen);
}

/// For the empty set the fresh name is the prefix itself.
pub proof fn lemma_fresh_empty(prefix: Seq<char>)
    ensures
        fresh(Set::empty(), prefix) == prefix,
{
    lemma_fresh_unused_prefix(Set::empty(), prefix);
}

/// For the set that holds the prefix alone the fresh name is the prefix followed by `0`.
pub proof fn lemma_fresh_singleton(prefix: Seq<char>)
    ensures
        fresh(set![prefix], prefix) == prefix.push('0'),
{
    let env = set![prefix];
    assert(candidate(prefix, 0) == prefix);
    assert(candidate(prefix, 1) =~= prefix.push('0'));
    assert(candidate(prefix, 1).len() != prefix.len());
    assert(first_free(env, prefix, 1)) by {
        assert forall|j: nat| j < 1 implies env.contains(#[trigger] candidate(prefix, j)) by {
            assert(j == 0);
        }
    }
    let chosen = choose|k: nat| first_free(env, prefix, k);
    lemma_first_free_unique(env, prefix, 1, chosen);
}

/// A name that is not in `env`: `prefix` if it is not there, else `prefix` followed by
/// the least number, counted from 0, that yields a name not there.
pub fn find_fresh_var(env: &NameSet, prefix: &String) -> (var: String)
    ensures
        var@ == fresh(env@, prefix@),
        !env@.contains(var@),
{
    let size: usize = env.len();
    let mut var = prefix.clone();
    let mut i: usize = 0;
    proof {
        env.lemma_finite();
    }
    loop
        invariant
            env@.finite(),
            size == env@.len(),
            i <= size,
            var@ == candidate(prefix@, i as nat),
            forall|j: nat| j < i ==> env@.contains(#[trigger] candidate(prefix@, j)),
        decreases size - i,
    {
        if !env.contains(&var) {
            proof {
                let chosen = lemma_fresh_exists(env@, prefix@);
                lemma_first_free_unique(env@, prefix@, i as nat, chosen);
            }
            return var;
        }
        proof {
            lemma_candidates_in_env(env@, prefix@, (i + 1) as nat);
        }
        var = prefix.clone();
        var.append(decimal_string(i).as_str());
        i += 1;
    }
}

} // verus!
