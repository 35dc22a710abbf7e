//! Finite sets of identifiers.

use vstd::prelude::*;

verus! {

/// The names held by a sequence of strings, in order.
pub open spec fn name_views(names: Seq<String>) -> Seq<Seq<char>> {
    names.map_values(|s: String| s@)
}

/// A finite set of identifiers, kept as a list in which no name occurs twice.
#[derive(Debug)]
pub struct NameSet {
    names: Vec<String>,
}

impl View for NameSet {
    type V = Set<Seq<char>>;

    /// The set of the names held.
    closed spec fn view(&self) -> Set<Seq<char>> {
        name_views(self.names@).to_set()
    }
}

impl NameSet {
    /// No name is held twice.
    #[verifier::type_invariant]
    spec fn distinct(self) -> bool {
        name_views(self.names@).no_duplicates()
    }

    /// Every `NameSet` stands for a finite set.
    pub proof fn lemma_finite(&self)
        ensures
            self@.finite(),
    {
        vstd::seq_lib::seq_to_set_is_finite(name_views(self.names@));
    }

    /// The empty set.
    pub fn new() -> (set: NameSet)
        ensures
            set@ == Set::<Seq<char>>::empty(),
    {
        let set = NameSet { names: Vec::new() };
        assert(set@ =~= Set::<Seq<char>>::empty());
        set
    }

    /// The number of names in the set.
    pub fn len(&self) -> (n: usize)
        ensures
            n == self@.len(),
    {
        proof {
            use_type_invariant(self);
            name_views(self.names@).unique_seq_to_set();
        }
        self.names.len()
    }

    /// Where `name` stands in the list, if it is there.
    fn position(&self, name: &String) -> (found: Option<usize>)
        ensures
            match found {
                Some(i) => i < self.names@.len() && self.names@[i as int]@ == name@,
                None => !self@.contains(name@),
            },
    {
        let mut i: usize = 0;
        while i < self.names.len()
            invariant
                i <= self.names@.len(),
                forall|k: int| 0 <= k < i ==> self.names@[k]@ != name@,
            decreases self.names@.len() - i,
        {
            if self.names[i] == *name {
                return Some(i);
            }
            i += 1;
        }
        assert(!name_views(self.names@).contains(name@));
        None
    }

    /// Whether `name` is in the set.
    pub fn contains(&self, name: &String) -> (found: bool)
        ensures
            found == self@.contains(name@),
    {
        match self.position(name) {
            Some(i) => {
                assert(name_views(self.names@)[i as int] == name@);
                true
            },
            None => false,
        }
    }

    /// Adds `name`; returns whether it was new.
    pub fn insert(&mut self, name: String) -> (added: bool)
        ensures
            final(self)@ == old(self)@.insert(name@),
            added == !old(self)@.contains(name@),
    {
        proof {
            use_type_invariant(&*self);
        }
        if self.contains(&name) {
            assert(self@.insert(name@) =~= self@);
            false
        } else {
            let ghost before = name_views(self.names@);
            let mut names = Vec::new();
            std::mem::swap(&mut names, &mut self.names);
            names.push(name);
            proof {
                let after = name_views(names@);
                assert(after =~= before.push(name@));
                lemma_push_to_set(before, name@);
            }
            self.names = names;
            true
        }
    }

    /// Takes `name` out; returns whether it was there.
    pub fn remove(&mut self, name: &String) -> (removed: bool)
        ensures
            final(self)@ == old(self)@.remove(name@),
            removed == old(self)@.contains(name@),
    {
        proof {
            use_type_invariant(&*self);
        }
        match self.position(name) {
            Some(i) => {
                let ghost before = name_views(self.names@);
                let mut names = Vec::new();
                std::mem::swap(&mut names, &mut self.names);
                names.remove(i);
                proof {
                    assert(name_views(names@) =~= before.remove(i as int));
                    lemma_remove_to_set(before, i as int);
                }
                self.names = names;
                true
            },
            None => {
                assert(self@.remove(name@) =~= self@);
                false
            },
        }
    }

    /// The names that are in `self` or in `other`.
    pub fn union(&self, other: &NameSet) -> (both: NameSet)
        ensures
            both@ == self@.union(other@),
    {
        let mut both = self.clone();
        let mut i: usize = 0;
        while i < other.names.len()
            invariant
                i <= other.names@.len(),
                both@ == self@.union(name_views(other.names@.take(i as int)).to_set()),
            decreases other.names@.len() - i,
        {
            let ghost seen = name_views(other.names@.take(i as int));
            both.insert(other.names[i].clone());
            proof {
                let next = name_views(other.names@.take(i + 1));
                assert(next =~= seen.push(other.names@[i as int]@));
                lemma_push_to_set(seen, other.names@[i as int]@);
                assert(both@ =~= self@.union(next.to_set()));
            }
            i += 1;
        }
        assert(other.names@.take(i as int) =~= other.names@);
        both
    }

    /// The set of the names listed, however often each occurs.
    pub fn from_names(names: Vec<String>) -> (set: NameSet)
        ensures
            set@ == name_views(names@).to_set(),
    {
        let mut set = NameSet::new();
        let mut i: usize = 0;
        while i < names.len()
            invariant
                i <= names@.len(),
                set@ == name_views(names@.take(i as int)).to_set(),
            decreases names@.len() - i,
        {
            let ghost seen = name_views(names@.take(i as int));
            set.insert(names[i].clone());
            proof {
                let next = name_views(names@.take(i + 1));
                assert(next =~= seen.push(names@[i as int]@));
                lemma_push_to_set(seen, names@[i as int]@);
            }
            i += 1;
        }
        assert(names@.take(i as int) =~= names@);
        set
    }
}

impl Clone for NameSet {
    /// A set of the same names.
    fn clone(&self) -> (copy: Self)
        ensures
            copy@ == self@,
    {
        proof {
            use_type_invariant(self);
        }
        let mut names: Vec<String> = Vec::new();
        let mut i: usize = 0;
        while i < self.names.len()
            invariant
                i <= self.names@.len(),
                names@.len() == i,
                forall|k: int| 0 <= k < i ==> names@[k]@ == self.names@[k]@,
            decreases self.names@.len() - i,
        {
            names.push(self.names[i].clone());
            i += 1;
        }
        assert(name_views(names@) =~= name_views(self.names@));
        NameSet { names }
    }
}

impl PartialEq for NameSet {
    /// Two sets are equal when they hold the same names, in whatever order.
    fn eq(&self, other: &NameSet) -> (same: bool) {
        proof {
            use_type_invariant(self);
            use_type_invariant(other);
            self.lemma_finite();
            other.lemma_finite();
            name_views(self.names@).unique_seq_to_set();
            name_views(other.names@).unique_seq_to_set();
        }
        if self.names.len() != other.names.len() {
            return false;
        }
        let mut i: usize = 0;
        while i < self.names.len()
            invariant
                i <= self.names@.len(),
                forall|k: int| 0 <= k < i ==> other@.contains(#[trigger] self.names@[k]@),
            decreases self.names@.len() - i,
        {
            if !other.contains(&self.names[i]) {
                assert(name_views(self.names@)[i as int] == self.names@[i as int]@);
                assert(self@.contains(self.names@[i as int]@));
                return false;
            }
            i += 1;
        }
        proof {
            assert forall|n: Seq<char>| self@.contains(n) implies other@.contains(n) by {
                let k = choose|k: int|
                    0 <= k < name_views(self.names@).len() && name_views(self.names@)[k] == n;
                assert(self.names@[k]@ == n);
            }
            vstd::set_lib::lemma_subset_equality(self@, other@);
        }
        true
    }
}

impl vstd::std_specs::cmp::PartialEqSpecImpl for NameSet {
    /// `==` on name sets is what `eq_spec` says.
    open spec fn obeys_eq_spec() -> bool {
        true
    }

    /// Two name sets are equal when they are the same set of names.
    open spec fn eq_spec(&self, other: &NameSet) -> bool {
        self@ == other@
    }
}

/// Removing the element at a position of a duplicate-free sequence removes it from the
/// set of its elements, and leaves the sequence free of duplicates.
pub proof fn lemma_remove_to_set<A>(s: Seq<A>, i: int)
    requires
        s.no_duplicates(),
        0 <= i < s.len(),
    ensures
        s.remove(i).to_set() == s.to_set().remove(s[i]),
        s.remove(i).no_duplicates(),
{
    let t = s.remove(i);
    assert forall|x: A| t.contains(x) <==> (s.contains(x) && x != s[i]) by {
        if t.contains(x) {
            let k = choose|k: int| 0 <= k < t.len() && t[k] == x;
            if k < i {
                assert(s[k] == x);
            } else {
                assert(s[k + 1] == x);
            }
        }
        if s.contains(x) && x != s[i] {
            let k = choose|k: int| 0 <= k < s.len() && s[k] == x;
            if k < i {
                assert(t[k] == x);
            } else {
                assert(t[k - 1] == x);
            }
        }
    }
    assert(t.to_set() =~= s.to_set().remove(s[i]));
}

/// Pushing an element onto a sequence inserts it into the set of its elements, and keeps
/// the sequence free of duplicates if the element is new.
pub proof fn lemma_push_to_set<A>(s: Seq<A>, a: A)
    ensures
        s.push(a).to_set() == s.to_set().insert(a),
        s.no_duplicates() && !s.contains(a) ==> s.push(a).no_duplicates(),
{
    let t = s.push(a);
    assert forall|x: A| t.contains(x) <==> (s.contains(x) || x == a) by {
        if s.contains(x) {
            let k = choose|k: int| 0 <= k < s.len() && s[k] == x;
            assert(t[k] == x);
        }
        if x == a {
            assert(t[s.len() as int] == x);
        }
    }
    assert(t.to_set() =~= s.to_set().insert(a));
}

} // verus!
