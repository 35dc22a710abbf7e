use lambda_types::generator::{generate_statement, generate_term};
use lambda_types::lambda::{Statement, Term};
use lambda_types::names::NameSet;
use lambda_types::text::decimal_string;
use lambda_types::transformer::{
    find_fresh_var, is_term_abs, is_term_app, is_term_let, mangle, normalize_abs, normalize_app,
    normalize_let, transform,
};
use std::rc::Rc;

fn name(text: &str) -> String {
    String::from(text)
}

fn names(list: &[&str]) -> NameSet {
    NameSet::from_names(list.iter().map(|text| String::from(*text)).collect())
}

fn var(text: &str) -> Term {
    Term::Var { name: name(text) }
}

fn app(func: Term, arg: Term) -> Term {
    Term::App { func: Rc::new(func), arg: Rc::new(arg) }
}

fn abs(param: &str, body: Term) -> Term {
    Term::Abs { param: name(param), body: Rc::new(body) }
}

fn bind(binder: &str, value: Term, body: Term) -> Term {
    Term::Let { name: name(binder), value: Rc::new(value), body: Rc::new(body) }
}

fn spine_names(term: &Term) -> Vec<String> {
    let mut found = Vec::new();
    let mut current = term;
    while let Term::Let { name, body, .. } = current {
        found.push(name.clone());
        current = &**body;
    }
    found
}

#[test]
fn a_name_set_holds_each_name_once() {
    let mut set = NameSet::new();
    assert_eq!(set.len(), 0);
    assert!(set.insert(name("x")));
    assert!(!set.insert(name("x")));
    assert!(set.insert(name("y")));
    assert_eq!(set.len(), 2);
    assert!(set.contains(&name("x")));
    assert!(!set.contains(&name("z")));
    assert!(set.remove(&name("x")));
    assert!(!set.remove(&name("x")));
    assert!(!set.contains(&name("x")));
    assert_eq!(set.len(), 1);
}

#[test]
fn name_sets_are_equal_whatever_the_order() {
    assert_eq!(names(&["x", "y", "z"]), names(&["z", "x", "y", "x"]));
    assert_ne!(names(&["x", "y"]), names(&["x", "z"]));
    assert_ne!(names(&["x", "y"]), names(&["x"]));
    assert_ne!(names(&["x"]), names(&["x", "y"]));
    assert_eq!(names(&[]), NameSet::new());
}

#[test]
fn the_union_holds_the_names_of_both() {
    assert_eq!(names(&["x", "y"]).union(&names(&["y", "z"])), names(&["x", "y", "z"]));
    assert_eq!(names(&[]).union(&names(&[])), names(&[]));
    assert_eq!(names(&["x"]).clone(), names(&["x"]));
}

#[test]
fn decimal_numerals() {
    assert_eq!(decimal_string(0), "0");
    assert_eq!(decimal_string(7), "7");
    assert_eq!(decimal_string(10), "10");
    assert_eq!(decimal_string(109), "109");
    assert_eq!(decimal_string(4096), "4096");
    assert_eq!(decimal_string(usize::MAX), usize::MAX.to_string());
}

#[test]
fn the_fresh_name_is_not_in_the_set() {
    let env = names(&["x", "x0", "x1", "y", "v"]);
    for prefix in ["x", "y", "v", "w", "x0", ""] {
        let fresh = find_fresh_var(&env, &name(prefix));
        assert!(!env.contains(&fresh));
        assert!(fresh.starts_with(prefix));
    }
}

#[test]
fn the_fresh_name_for_the_empty_set_is_the_prefix() {
    assert_eq!(find_fresh_var(&NameSet::new(), &name("name")), "name");
    assert_eq!(find_fresh_var(&NameSet::new(), &name("")), "");
}

#[test]
fn the_fresh_name_for_the_prefix_alone_ends_in_zero() {
    assert_eq!(find_fresh_var(&names(&["name"]), &name("name")), "name0");
}

#[test]
fn the_fresh_name_takes_the_least_number() {
    let env = names(&["a", "a0", "a1", "a2", "a3", "a4", "a5", "a6", "a7", "a8", "a9", "a11"]);
    assert_eq!(find_fresh_var(&env, &name("a")), "a10");
    let env = names(&["a", "a1", "a2"]);
    assert_eq!(find_fresh_var(&env, &name("a")), "a0");
}

#[test]
fn substitution_adds_only_the_free_variables_of_the_term_put_in() {
    let term = abs("y", app(var("x"), bind("z", var("x"), app(var("z"), var("w")))));
    let put = app(var("y"), var("u"));
    let result = term.subst(&name("x"), &put);
    let got = result.free_vars();
    let mut bound = term.free_vars();
    bound.remove(&name("x"));
    let bound = bound.union(&put.free_vars());
    assert_eq!(got, names(&["u", "w"]));
    assert_eq!(bound, names(&["u", "w", "y"]));
    assert_eq!(got.union(&bound), bound);
}

#[test]
fn substitution_stops_at_a_binder_of_the_name() {
    let term = app(var("x"), abs("x", var("x")));
    assert_eq!(term.subst(&name("x"), &var("y")), app(var("y"), abs("x", var("x"))));
    let term = bind("x", var("x"), var("x"));
    assert_eq!(term.subst(&name("x"), &var("y")), bind("x", var("y"), var("x")));
}

#[test]
fn substitution_may_capture() {
    let term = abs("y", var("x"));
    assert_eq!(term.subst(&name("x"), &var("y")), abs("y", var("y")));
}

#[test]
fn the_shape_functions_tell_the_normal_forms() {
    let applied = app(var("x"), app(var("y"), var("z")));
    let function = abs("x", applied.clone());
    let binding = bind("x", var("y"), var("x"));
    assert!(is_term_app(&applied) && is_term_abs(&applied) && is_term_let(&applied));
    assert!(!is_term_app(&function) && is_term_abs(&function) && is_term_let(&function));
    assert!(!is_term_app(&binding) && !is_term_abs(&binding) && !is_term_let(&binding));
    assert!(!is_term_app(&app(var("f"), function.clone())));
    assert!(is_term_abs(&app(var("f"), function)));
    assert!(!is_term_abs(&abs("x", binding.clone())));
    assert!(!is_term_let(&app(binding, var("z"))));
}

#[test]
fn the_first_pass_leaves_app_normal_terms_alone() {
    let term = app(app(var("f"), var("x")), app(var("g"), var("y")));
    assert!(is_term_app(&term));
    assert_eq!(normalize_app(&term), term);
    assert!(is_term_app(&normalize_app(&term)));
}

#[test]
fn the_first_pass_takes_an_application_up_again() {
    let term = app(app(abs("x", var("x")), var("y")), var("z"));
    let expected = bind("v", abs("x", var("x")), app(app(var("v"), var("y")), var("z")));
    assert_eq!(normalize_app(&term), expected);
    let term = app(var("f"), app(var("g"), abs("x", var("x"))));
    let expected = bind("v", abs("x", var("x")), app(var("f"), app(var("g"), var("v"))));
    assert_eq!(normalize_app(&term), expected);
}

#[test]
fn the_first_pass_works_below_binders() {
    let term = abs("a", bind("b", app(abs("x", var("x")), var("v")), var("b")));
    let expected = abs(
        "a",
        bind("b", bind("v0", abs("x", var("x")), app(var("v0"), var("v"))), var("b")),
    );
    assert_eq!(normalize_app(&term), expected);
}

#[test]
fn the_first_two_passes_leave_terms_without_lets_alone() {
    let term = abs("x", abs("y", app(var("x"), var("y"))));
    let once = normalize_app(&term);
    let twice = normalize_abs(&once);
    assert!(is_term_abs(&twice));
    assert_eq!(twice, term);
}

#[test]
fn the_second_pass_takes_an_abstraction_up_again() {
    let term = abs("x", abs("y", bind("z", var("w"), var("z"))));
    let expected = bind("z", var("w"), abs("x", abs("y", var("z"))));
    assert_eq!(normalize_abs(&term), expected);
}

#[test]
fn the_three_passes_yield_a_spine_that_no_pass_changes() {
    let term = app(
        abs("x", bind("y", bind("z", var("x"), var("z")), var("y"))),
        bind("x", abs("a", var("a")), var("x")),
    );
    let normal = normalize_let(&normalize_abs(&normalize_app(&term)));
    let mut current = &normal;
    while let Term::Let { value, body, .. } = current {
        assert!(is_term_let(value));
        current = &**body;
    }
    assert!(is_term_let(current));
    assert_eq!(normalize_app(&normal), normal);
    assert_eq!(normalize_abs(&normal), normal);
    assert_eq!(normalize_let(&normal), normal);
}

#[test]
fn the_three_passes_leave_normal_terms_alone() {
    let term = abs("x", app(var("x"), var("y")));
    let normal = normalize_let(&normalize_abs(&normalize_app(&term)));
    assert!(is_term_let(&normal));
    assert_eq!(normal, term);
}

#[test]
fn the_third_pass_rotates_from_the_inside() {
    let term = bind(
        "a",
        bind("b", bind("c", var("x"), var("c")), var("b")),
        var("a"),
    );
    let expected = bind("c", var("x"), bind("b", var("c"), bind("a", var("b"), var("a"))));
    assert_eq!(normalize_let(&term), expected);
}

#[test]
fn mangling_gives_a_second_binder_a_new_name() {
    let term = bind("x", var("a"), bind("y", var("x"), bind("x", var("y"), var("x"))));
    let result = mangle(&term, &NameSet::new());
    assert_eq!(
        result,
        bind("x", var("a"), bind("y", var("x"), bind("x0", var("y"), var("x0"))))
    );
    assert_eq!(spine_names(&result), vec![name("x"), name("y"), name("x0")]);
}

#[test]
fn mangling_avoids_the_names_given() {
    let term = bind("x", var("a"), var("x"));
    let result = mangle(&term, &names(&["x", "x0"]));
    assert_eq!(result, bind("x1", var("a"), var("x1")));
}

#[test]
fn mangling_remembers_the_old_name_only() {
    let term = bind("x", var("a"), bind("x", var("b"), bind("x", var("c"), var("x"))));
    let result = mangle(&term, &NameSet::new());
    assert_eq!(spine_names(&result), vec![name("x"), name("x0"), name("x0")]);
}

#[test]
fn mangling_leaves_the_values_alone() {
    let value = abs("x", bind("x", var("x"), var("x")));
    let term = bind("x", value.clone(), var("x"));
    assert_eq!(mangle(&term, &names(&["x"])), bind("x0", value, var("x0")));
}

#[test]
fn transform_runs_the_four_passes() {
    let term = abs("x", bind("y", var("x"), var("y")));
    let expected = bind("y", abs("x", var("x")), abs("x", app(var("y"), var("x"))));
    assert_eq!(transform(&term), expected);
    let term = app(bind("x", var("a"), var("x")), bind("x", var("b"), var("x")));
    let by_hand = mangle(
        &normalize_let(&normalize_abs(&normalize_app(&term))),
        &NameSet::new(),
    );
    assert_eq!(transform(&term), by_hand);
    assert_eq!(
        by_hand,
        bind("x", var("a"), bind("x0", var("b"), app(var("x"), var("x0"))))
    );
}

#[test]
fn the_text_of_a_term_nests_app() {
    assert_eq!(generate_term(&var("x")), "x");
    assert_eq!(
        generate_term(&app(app(var("f"), var("x")), app(var("g"), var("y")))),
        "App<App<f, x>, App<g, y>>"
    );
}

#[test]
fn a_let_in_the_value_of_a_let_is_declared_under_both_names() {
    let stmt = Statement::Declaration {
        name: name("a"),
        value: Rc::new(bind("x", bind("y", var("z"), var("y")), app(var("x"), var("x")))),
    };
    assert_eq!(
        generate_statement(&stmt),
        "type a$x$y = z;\ntype a$x = a$x$y;\ntype a = App<a$x, a$x>;\n"
    );
}

#[test]
fn the_builders_make_the_four_variants() {
    assert_eq!(Term::var(name("x")), var("x"));
    assert_eq!(
        Term::app(Rc::new(var("f")), Rc::new(var("x"))),
        app(var("f"), var("x"))
    );
    assert_eq!(Term::abs(name("x"), Rc::new(var("x"))), abs("x", var("x")));
    assert_eq!(
        Term::bind(name("x"), Rc::new(var("y")), Rc::new(var("x"))),
        bind("x", var("y"), var("x"))
    );
}

#[test]
fn a_clone_is_equal_to_what_it_was_made_of() {
    let term = bind("x", abs("y", app(var("y"), var("z"))), app(var("x"), var("x")));
    assert_eq!(term.clone(), term);
    let stmt = Statement::Declaration { name: name("d"), value: Rc::new(term) };
    assert_eq!(stmt.clone(), stmt);
}

#[test]
fn free_variables_of_a_let_leave_out_the_name_in_the_body_only() {
    let term = bind("x", app(var("x"), var("y")), app(var("x"), var("z")));
    assert_eq!(term.free_vars(), names(&["x", "y", "z"]));
    let term = bind("x", var("y"), var("x"));
    assert_eq!(term.free_vars(), names(&["y"]));
}
