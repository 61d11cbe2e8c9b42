use cel::ast::{EntryExpr, Expr, IdedExpr};
use cel::{ParseError, ParseErrorKind, Program};

fn mistake(source: &str) -> ParseError {
    match Program::compile(source) {
        Ok(program) => panic!("{source}: {:?}", program.expression()),
        Err(errors) => {
            assert_eq!(errors.errors.len(), 1);
            errors.errors[0]
        }
    }
}

fn at(kind: ParseErrorKind, position: usize) -> ParseError {
    ParseError { kind, position }
}

#[test]
fn mistakes_tell_their_kind_and_position() {
    assert_eq!(mistake("1 # 2"), at(ParseErrorKind::UnexpectedCharacter, 2));
    assert_eq!(mistake("'abc"), at(ParseErrorKind::UnterminatedText, 4));
    assert_eq!(mistake("'a\nb'"), at(ParseErrorKind::UnterminatedText, 2));
    assert_eq!(mistake(r"'\q'"), at(ParseErrorKind::UnknownEscape, 1));
    assert_eq!(
        mistake("18446744073709551616u"),
        at(ParseErrorKind::NumberTooLarge, 0)
    );
    assert_eq!(
        mistake("1 + 9223372036854775808"),
        at(ParseErrorKind::NumberTooLarge, 4)
    );
    assert_eq!(
        mistake("-9223372036854775809"),
        at(ParseErrorKind::NumberTooLarge, 1)
    );
    assert_eq!(mistake("1 2"), at(ParseErrorKind::UnexpectedToken, 2));
    assert_eq!(mistake("f(1,)"), at(ParseErrorKind::UnexpectedToken, 4));
    assert_eq!(mistake("a ? b"), at(ParseErrorKind::UnexpectedEnd, 5));
    assert_eq!(mistake(""), at(ParseErrorKind::UnexpectedEnd, 0));
    assert_eq!(mistake("(1"), at(ParseErrorKind::UnexpectedEnd, 2));
    assert_eq!(mistake("[1, 2"), at(ParseErrorKind::UnexpectedEnd, 5));
    assert_eq!(mistake("{1 2}"), at(ParseErrorKind::UnexpectedToken, 3));
    assert_eq!(mistake("has(x)"), at(ParseErrorKind::MacroArgument, 0));
    assert_eq!(mistake("[1].all(1, true)"), at(ParseErrorKind::MacroArgument, 4));
}

#[test]
fn a_program_is_made_from_text() {
    let failed: Result<Program, _> = "1 +".try_into();
    assert_eq!(
        failed.err().map(|e| e.errors[0]),
        Some(at(ParseErrorKind::UnexpectedEnd, 3))
    );
}

fn collect_ids(e: &IdedExpr, ids: &mut Vec<u64>) {
    ids.push(e.id);
    match &e.expr {
        Expr::Unspecified | Expr::Ident(_) | Expr::Literal(_) => {}
        Expr::Call(c) => {
            for a in &c.args {
                collect_ids(a, ids);
            }
            if let Some(t) = &c.target {
                collect_ids(t, ids);
            }
        }
        Expr::Comprehension(c) => {
            for part in [&c.iter_range, &c.accu_init, &c.loop_cond, &c.loop_step, &c.result] {
                collect_ids(part, ids);
            }
        }
        Expr::List(l) => {
            for a in &l.elements {
                collect_ids(a, ids);
            }
        }
        Expr::Dict(m) => {
            for entry in &m.entries {
                match &entry.expr {
                    EntryExpr::MapEntry(e) => {
                        collect_ids(&e.key, ids);
                        collect_ids(&e.value, ids);
                    }
                    EntryExpr::StructField(f) => collect_ids(&f.value, ids),
                }
            }
        }
        Expr::Select(s) => collect_ids(&s.operand, ids),
        Expr::Struct(_) => unreachable!(),
    }
}

#[test]
fn every_node_has_its_own_identifier() {
    for source in [
        "1 + 2 * x.y[3]",
        "[1, 2].map(x, [x].filter(y, y > x && has(y.z)))",
        "{'a': [1].exists_one(x, x == 1), 'b': f(a, g(b)).h(c)}",
        "[1].map(x, x > 0, -x).all(y, y != 0) ? a : !b",
        "[1].exists(x, x in [2])",
    ] {
        let program = Program::compile(source).unwrap();
        let mut ids = Vec::new();
        collect_ids(program.expression(), &mut ids);
        let count = ids.len();
        ids.sort();
        ids.dedup();
        assert_eq!(ids.len(), count, "{source}");
    }
}

#[test]
fn references_name_variables_and_functions() {
    let program = Program::compile("x.f(y) + [z].map(v, v + g(x))[0]").unwrap();
    let refs = program.references();
    for name in ["x", "y", "z", "v"] {
        assert!(refs.has_variable(name));
    }
    assert!(!refs.has_variable("f"));
    assert!(!refs.has_variable("@result"));
    for name in ["f", "g", "_+_", "_[_]"] {
        assert!(refs.has_function(name));
    }
    assert!(!refs.has_function("x"));
    let mut variables = refs.variables();
    variables.sort();
    assert_eq!(variables, vec!["v", "x", "y", "z"]);
    let mut functions = refs.functions();
    functions.sort();
    assert_eq!(functions, vec!["_+_", "_[_]", "f", "g"]);
}
