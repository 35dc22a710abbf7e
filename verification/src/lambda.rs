//! Lambda terms, their mathematical model, free variables and substitution.

use crate::names::NameSet;
use std::rc::Rc;
use vstd::prelude::*;

verus! {

/// The mathematical model of a term: a finite tree whose names are sequences of
/// characters.
pub enum Lam {
    /// A reference to a binding in scope.
    Var { name: Seq<char> },
    /// The application of one term to another.
    App { func: Box<Lam>, arg: Box<Lam> },
    /// An abstraction of one parameter, which it binds in its body.
    Abs { param: Seq<char>, body: Box<Lam> },
    /// A local binding: `name` is bound in `body`, not in `value`.
    Let { name: Seq<char>, value: Box<Lam>, body: Box<Lam> },
}

impl Lam {
    /// The variable called `name`.
    pub open spec fn var(name: Seq<char>) -> Lam {
        Lam::Var { name }
    }

    /// `func` applied to `arg`.
    pub open spec fn app(func: Lam, arg: Lam) -> Lam {
        Lam::App { func: Box::new(func), arg: Box::new(arg) }
    }

    /// The abstraction of `param` over `body`.
    pub open spec fn abs(param: Seq<char>, body: Lam) -> Lam {
        Lam::Abs { param, body: Box::new(body) }
    }

    /// `let name = value in body`.
    pub open spec fn bind(name: Seq<char>, value: Lam, body: Lam) -> Lam {
        Lam::Let { name, value: Box::new(value), body: Box::new(body) }
    }

    /// The number of nodes of the tree.
    pub open spec fn size(self) -> nat
        decreases self,
    {
        match self {
            Lam::Var { .. } => 1,
            Lam::App { func, arg } => 1 + func.size() + arg.size(),
            Lam::Abs { body, .. } => 1 + body.size(),
            Lam::Let { value, body, .. } => 1 + value.size() + body.size(),
        }
    }

    /// The names that occur as variables outside the scope of every binder for them.
    pub open spec fn free_vars(self) -> Set<Seq<char>>
        decreases self,
    {
        match self {
            Lam::Var { name } => set![name],
            Lam::App { func, arg } => func.free_vars().union(arg.free_vars()),
            Lam::Abs { param, body } => body.free_vars().remove(param),
            Lam::Let { name, value, body } => value.free_vars().union(
                body.free_vars().remove(name),
            ),
        }
    }

    /// The term with every free occurrence of the variable `x` replaced by `s`.
    ///
    /// Nothing is renamed: a binder of the term that is not `x` may capture a free
    /// variable of `s`. Below a binder that is `x` the term is left as it is.
    pub open spec fn subst(self, x: Seq<char>, s: Lam) -> Lam
        decreases self,
    {
        match self {
            Lam::Var { name } => if name == x {
                s
            } else {
                self
            },
            Lam::App { func, arg } => Lam::app(func.subst(x, s), arg.subst(x, s)),
            Lam::Abs { param, body } => Lam::abs(
                param,
                if param == x {
                    *body
                } else {
                    body.subst(x, s)
                },
            ),
            Lam::Let { name, value, body } => Lam::bind(
                name,
                value.subst(x, s),
                if name == x {
                    *body
                } else {
                    body.subst(x, s)
                },
            ),
        }
    }

    /// The term with every free occurrence of the variable `x` replaced by the
    /// variable `y`.
    pub open spec fn rename(self, x: Seq<char>, y: Seq<char>) -> Lam {
        self.subst(x, Lam::var(y))
    }
}

/// A term of the surface language. Sub-terms are shared and never changed in place.
#[derive(Debug, PartialEq)]
pub enum Term {
    Var { name: String },
    App { func: Rc<Term>, arg: Rc<Term> },
    Abs { param: String, body: Rc<Term> },
    Let { name: String, value: Rc<Term>, body: Rc<Term> },
}

impl View for Term {
    type V = Lam;

    /// The model of the term: the same tree, with each name as its characters.
    open spec fn view(&self) -> Lam
        decreases self,
    {
        match self {
            Term::Var { name } => Lam::var(name@),
            Term::App { func, arg } => Lam::app((**func)@, (**arg)@),
            Term::Abs { param, body } => Lam::abs(param@, (**body)@),
            Term::Let { name, value, body } => Lam::bind(name@, (**value)@, (**body)@),
        }
    }
}

/// `Rc::clone`: a second handle on the same allocation, hence on the same term.
#[verifier::external_body]
pub(crate) fn share(term: &Rc<Term>) -> (same: Rc<Term>)
    ensures
        same == *term,
{
    Rc::clone(term)
}

impl Clone for Term {
    /// A copy of the root node that shares the sub-terms.
    fn clone(&self) -> (copy: Self)
        ensures
            copy@ == self@,
    {
        match self {
            Term::Var { name } => Term::Var { name: name.clone() },
            Term::App { func, arg } => Term::App { func: share(func), arg: share(arg) },
            Term::Abs { param, body } => Term::Abs { param: param.clone(), body: share(body) },
            Term::Let { name, value, body } => Term::Let {
                name: name.clone(),
                value: share(value),
                body: share(body),
            },
        }
    }
}

impl Term {
    /// The variable called `name`.
    pub fn var(name: String) -> (term: Term)
        ensures
            term@ == Lam::var(name@),
    {
        Term::Var { name }
    }

    /// `func` applied to `arg`.
    pub fn app(func: Rc<Term>, arg: Rc<Term>) -> (term: Term)
        ensures
            term@ == Lam::app((*func)@, (*arg)@),
    {
        Term::App { func, arg }
    }

    /// The abstraction of `param` over `body`.
    pub fn abs(param: String, body: Rc<Term>) -> (term: Term)
        ensures
            term@ == Lam::abs(param@, (*body)@),
    {
        Term::Abs { param, body }
    }

    /// `let name = value in body`.
    pub fn bind(name: String, value: Rc<Term>, body: Rc<Term>) -> (term: Term)
        ensures
            term@ == Lam::bind(name@, (*value)@, (*body)@),
    {
        Term::Let { name, value, body }
    }

    /// The free variables of the term.
    pub fn free_vars(&self) -> (fvs: NameSet)
        ensures
            fvs@ == self@.free_vars(),
        decreases self,
    {
        match self {
            Term::Var { name } => {
                let mut fvs = NameSet::new();
                fvs.insert(name.clone());
                assert(fvs@ =~= set![name@]);
                fvs
            },
            Term::App { func, arg } => {
                let func_fvs = func.free_vars();
                let arg_fvs = arg.free_vars();
                func_fvs.union(&arg_fvs)
            },
            Term::Abs { param, body } => {
                let mut body_fvs = body.free_vars();
                body_fvs.remove(param);
                body_fvs
            },
            Term::Let { name, value, body } => {
                let value_fvs = value.free_vars();
                let mut body_fvs = body.free_vars();
                body_fvs.remove(name);
                value_fvs.union(&body_fvs)
            },
        }
    }

    /// Replaces every free occurrence of the variable `name` by `term`, without
    /// renaming any binder.
    pub fn subst(&self, name: &String, term: &Term) -> (result: Term)
        ensures
            result@ == self@.subst(name@, term@),
        decreases self,
    {
        match self {
            Term::Var { name: var_name } => {
                if *var_name == *name {
                    term.clone()
                } else {
                    self.clone()
                }
            },
            Term::App { func, arg } => Term::App {
                func: Rc::new(func.subst(name, term)),
                arg: Rc::new(arg.subst(name, term)),
            },
            Term::Abs { param, body } => Term::Abs {
                param: param.clone(),
                body: if *param == *name {
                    share(body)
                } else {
                    Rc::new(body.subst(name, term))
                },
            },
            Term::Let { name: let_name, value, body } => Term::Let {
                name: let_name.clone(),
                value: Rc::new(value.subst(name, term)),
                body: if *let_name == *name {
                    share(body)
                } else {
                    Rc::new(body.subst(name, term))
                },
            },
        }
    }
}

/// A top-level statement of a program.
#[derive(Debug, PartialEq)]
pub enum Statement {
    /// The definition of the top-level name `name` as `value`.
    Declaration { name: String, value: Rc<Term> },
}

impl Clone for Statement {
    /// A copy of the statement that shares its value.
    fn clone(&self) -> (copy: Self)
        ensures
            copy@ == self@,
    {
        match self {
            Statement::Declaration { name, value } => Statement::Declaration {
                name: name.clone(),
                value: share(value),
            },
        }
    }
}

/// The mathematical model of a statement.
pub enum Decl {
    Declaration { name: Seq<char>, value: Lam },
}

impl View for Statement {
    type V = Decl;

    /// The model of the statement: the characters of its name and the model of its
    /// value.
    open spec fn view(&self) -> Decl {
        match self {
            Statement::Declaration { name, value } => Decl::Declaration {
                name: name@,
                value: (**value)@,
            },
        }
    }
}

/// The models of the statements of a program, in order.
pub open spec fn program_view(program: Seq<Statement>) -> Seq<Decl> {
    program.map_values(|stmt: Statement| stmt@)
}

/// The free variables of a term are finitely many.
pub proof fn lemma_free_vars_finite(t: Lam)
    ensures
        t.free_vars().finite(),
    decreases t,
{
    match t {
        Lam::Var { .. } => {},
        Lam::App { func, arg } => {
            lemma_free_vars_finite(*func);
            lemma_free_vars_finite(*arg);
        },
        Lam::Abs { body, .. } => {
            lemma_free_vars_finite(*body);
        },
        Lam::Let { value, body, .. } => {
            lemma_free_vars_finite(*value);
            lemma_free_vars_finite(*body);
        },
    }
}

/// Substitution adds no free variable but those of the term put in, and the
/// variable replaced stays free only where the term put in has it: the free
/// variables of `t.subst(x, s)` are among those of `t`, less `x`, and those of `s`.
pub proof fn lemma_subst_free_vars(t: Lam, x: Seq<char>, s: Lam)
    ensures
        t.subst(x, s).free_vars().subset_of(t.free_vars().remove(x).union(s.free_vars())),
    decreases t,
{
    match t {
        Lam::Var { .. } => {},
        Lam::App { func, arg } => {
            lemma_subst_free_vars(*func, x, s);
            lemma_subst_free_vars(*arg, x, s);
        },
        Lam::Abs { param, body } => {
            if param != x {
                lemma_subst_free_vars(*body, x, s);
            }
        },
        Lam::Let { name, value, body } => {
            lemma_subst_free_vars(*value, x, s);
            if name != x {
                lemma_subst_free_vars(*body, x, s);
            }
        },
    }
}

/// Replacing a variable by a variable keeps the number of nodes.
pub proof fn lemma_rename_size(t: Lam, x: Seq<char>, y: Seq<char>)
    ensures
        t.rename(x, y).size() == t.size(),
    decreases t,
{
    match t {
        Lam::Var { .. } => {},
        Lam::App { func, arg } => {
            lemma_rename_size(*func, x, y);
            lemma_rename_size(*arg, x, y);
        },
        Lam::Abs { param, body } => {
            if param != x {
                lemma_rename_size(*body, x, y);
            }
        },
        Lam::Let { name, value, body } => {
            lemma_rename_size(*value, x, y);
            if name != x {
                lemma_rename_size(*body, x, y);
            }
        },
    }
}

} // verus!
