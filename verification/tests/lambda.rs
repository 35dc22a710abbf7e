use lambda_types::lambda::Term;
use lambda_types::names::NameSet;
use std::rc::Rc;

#[test]
fn test_var() {
    let term = Term::Var {
        name: String::from("x"),
    };
    let expected = NameSet::from_names(vec![String::from("x")]);
    assert_eq!(term.free_vars(), expected);
}

#[test]
fn test_app() {
    let term = Term::App {
        func: Rc::new(Term::Var {
            name: String::from("x"),
        }),
        arg: Rc::new(Term::Var {
            name: String::from("y"),
        }),
    };
    let expected = NameSet::from_names(vec![String::from("x"), String::from("y")]);
    assert_eq!(term.free_vars(), expected);
}

#[test]
fn test_abs() {
    let term = Term::Abs {
        param: String::from("x"),
        body: Rc::new(Term::App {
            func: Rc::new(Term::Var {
                name: String::from("x"),
            }),
            arg: Rc::new(Term::Var {
                name: String::from("y"),
            }),
        }),
    };
    let expected = NameSet::from_names(vec![String::from("y")]);
    assert_eq!(term.free_vars(), expected);
}

#[test]
fn test_let() {
    let term = Term::Let {
        name: String::from("x"),
        value: Rc::new(Term::Var {
            name: String::from("y"),
        }),
        body: Rc::new(Term::App {
            func: Rc::new(Term::Var {
                name: String::from("x"),
            }),
            arg: Rc::new(Term::Var {
                name: String::from("z"),
            }),
        }),
    };
    let expected = NameSet::from_names(vec![String::from("y"), String::from("z")]);
    assert_eq!(term.free_vars(), expected);

    let term = Term::Let {
        name: String::from("x"),
        value: Rc::new(Term::Var {
            name: String::from("x"),
        }),
        body: Rc::new(Term::App {
            func: Rc::new(Term::Var {
                name: String::from("x"),
            }),
            arg: Rc::new(Term::Var {
                name: String::from("y"),
            }),
        }),
    };
    let expected = NameSet::from_names(vec![String::from("x"), String::from("y")]);
    assert_eq!(term.free_vars(), expected);
}

#[test]
fn lambda_test_var() {
    let term = Term::Var {
        name: String::from("x"),
    };
    let subst_term = Term::App {
        func: Rc::new(Term::Var {
            name: String::from("y"),
        }),
        arg: Rc::new(Term::Var {
            name: String::from("z"),
        }),
    };
    assert_eq!(term.subst(&String::from("x"), &subst_term), subst_term);
    assert_eq!(term.subst(&String::from("y"), &subst_term), term);
}

#[test]
fn lambda_test_app() {
    let term = Term::App {
        func: Rc::new(Term::Var {
            name: String::from("x"),
        }),
        arg: Rc::new(Term::Var {
            name: String::from("y"),
        }),
    };
    let subst_term = Term::Var {
        name: String::from("z"),
    };

    let expected = Term::App {
        func: Rc::new(Term::Var {
            name: String::from("z"),
        }),
        arg: Rc::new(Term::Var {
            name: String::from("y"),
        }),
    };
    assert_eq!(term.subst(&String::from("x"), &subst_term), expected);

    let expected = Term::App {
        func: Rc::new(Term::Var {
            name: String::from("x"),
        }),
        arg: Rc::new(Term::Var {
            name: String::from("z"),
        }),
    };
    assert_eq!(term.subst(&String::from("y"), &subst_term), expected);
}

#[test]
fn lambda_test_abs() {
    let term = Term::Abs {
        param: String::from("x"),
        body: Rc::new(Term::App {
            func: Rc::new(Term::Var {
                name: String::from("x"),
            }),
            arg: Rc::new(Term::Var {
                name: String::from("y"),
            }),
        }),
    };
    let subst_term = Term::Var {
        name: String::from("z"),
    };

    assert_eq!(term.subst(&String::from("x"), &subst_term), term);

    let expected = Term::Abs {
        param: String::from("x"),
        body: Rc::new(Term::App {
            func: Rc::new(Term::Var {
                name: String::from("x"),
            }),
            arg: Rc::new(Term::Var {
                name: String::from("z"),
            }),
        }),
    };
    assert_eq!(term.subst(&String::from("y"), &subst_term), expected);
}

#[test]
fn lambda_test_let() {
    let term = Term::Let {
        name: String::from("x"),
        value: Rc::new(Term::App {
            func: Rc::new(Term::Var {
                name: String::from("x"),
            }),
            arg: Rc::new(Term::Var {
                name: String::from("y"),
            }),
        }),
        body: Rc::new(Term::App {
            func: Rc::new(Term::Var {
                name: String::from("x"),
            }),
            arg: Rc::new(Term::Var {
                name: String::from("y"),
            }),
        }),
    };
    let subst_term = Term::Var {
        name: String::from("z"),
    };

    let expected = Term::Let {
        name: String::from("x"),
        value: Rc::new(Term::App {
            func: Rc::new(Term::Var {
                name: String::from("z"),
            }),
            arg: Rc::new(Term::Var {
                name: String::from("y"),
            }),
        }),
        body: Rc::new(Term::App {
            func: Rc::new(Term::Var {
                name: String::from("x"),
            }),
            arg: Rc::new(Term::Var {
                name: String::from("y"),
            }),
        }),
    };
    assert_eq!(term.subst(&String::from("x"), &subst_term), expected);

    let expected = Term::Let {
        name: String::from("x"),
        value: Rc::new(Term::App {
            func: Rc::new(Term::Var {
                name: String::from("x"),
            }),
            arg: Rc::new(Term::Var {
                name: String::from("z"),
            }),
        }),
        body: Rc::new(Term::App {
            func: Rc::new(Term::Var {
                name: String::from("x"),
            }),
            arg: Rc::new(Term::Var {
                name: String::from("z"),
            }),
        }),
    };
    assert_eq!(term.subst(&String::from("y"), &subst_term), expected);
}
