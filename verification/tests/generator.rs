use lambda_types::generator::generate;
use lambda_types::lambda::{Statement, Term};
use std::rc::Rc;

#[test]
fn test_generate() {
    let program = vec![
        Statement::Declaration {
            name: String::from("foo"),
            value: Rc::new(Term::Var {
                name: String::from("x"),
            }),
        },
        Statement::Declaration {
            name: String::from("bar"),
            value: Rc::new(Term::App {
                func: Rc::new(Term::Var {
                    name: String::from("x"),
                }),
                arg: Rc::new(Term::Var {
                    name: String::from("y"),
                }),
            }),
        },
        Statement::Declaration {
            name: String::from("baz"),
            value: Rc::new(Term::Abs {
                param: String::from("x"),
                body: Rc::new(Term::Abs {
                    param: String::from("y"),
                    body: Rc::new(Term::App {
                        func: Rc::new(Term::Var {
                            name: String::from("x"),
                        }),
                        arg: Rc::new(Term::Var {
                            name: String::from("y"),
                        }),
                    }),
                }),
            }),
        },
        Statement::Declaration {
            name: String::from("qux"),
            value: Rc::new(Term::Let {
                name: String::from("x"),
                value: Rc::new(Term::Var {
                    name: String::from("y"),
                }),
                body: Rc::new(Term::Let {
                    name: String::from("z"),
                    value: Rc::new(Term::Var {
                        name: String::from("x"),
                    }),
                    body: Rc::new(Term::App {
                        func: Rc::new(Term::Var {
                            name: String::from("x"),
                        }),
                        arg: Rc::new(Term::Var {
                            name: String::from("z"),
                        }),
                    }),
                }),
            }),
        },
    ];
    let expected = "interface Fun { arg: unknown; ret: unknown }\n\
type App<F, X> = F extends Fun ? (F & { arg: X })[\"ret\"] : never;\n\
type foo = x;\n\
type bar = App<x, y>;\n\
interface baz extends Fun { ret: baz$1<this[\"arg\"]> }\n\
interface baz$1<x> extends Fun { ret: baz$2<x, this[\"arg\"]> }\n\
type baz$2<x, y> = App<x, y>;\n\
type qux$x = y;\n\
type qux$z = qux$x;\n\
type qux = App<qux$x, qux$z>;\n";
    assert_eq!(generate(&program), expected);
}
