use prolog_parser::parser::{
    parse_atom, parse_clause, parse_constant, parse_functor, parse_program, parse_term,
    parse_variable,
};
use prolog_parser::{ParseError, PrologAtom, PrologClause, PrologTerm, Step};

fn chars(s: &str) -> usize {
    s.chars().count()
}

#[test]
fn constant_term() {
    let s = "42";
    assert_eq!(
        parse_term(s, chars(s), 0),
        Step::Found(2, PrologTerm::Constant(42))
    );
}

#[test]
fn constant_is_maximal() {
    let s = "123(a)";
    assert_eq!(
        parse_term(s, chars(s), 0),
        Step::Found(3, PrologTerm::Constant(123))
    );
}

#[test]
fn constant_at_i32_max() {
    let s = "2147483647";
    assert_eq!(
        parse_constant(s, chars(s), 0),
        Step::Found(10, PrologTerm::Constant(2147483647))
    );
}

#[test]
fn constant_overflow_is_reported() {
    let s = "2147483648";
    assert_eq!(parse_constant(s, chars(s), 0), Step::Overflow(0));
    let long = "99999999999999999999999";
    assert_eq!(parse_constant(long, chars(long), 0), Step::Overflow(0));
}

#[test]
fn variable_term() {
    let s = "Xyz_9";
    assert_eq!(
        parse_variable(s, chars(s), 0),
        Step::Found(5, PrologTerm::Variable("Xyz_9".to_string()))
    );
}

#[test]
fn lowercase_name_is_a_variable() {
    let s = "foo";
    assert_eq!(
        parse_term(s, chars(s), 0),
        Step::Found(3, PrologTerm::Variable("foo".to_string()))
    );
}

#[test]
fn functor_stops_before_parenthesis() {
    let s = "abc(X)";
    assert_eq!(
        parse_functor(s, chars(s), 0),
        Step::Found(3, "abc".to_string())
    );
}

#[test]
fn nested_compounds() {
    // The nested-compound example: recursive term nesting of arbitrary
    // depth through the compound rule.
    let s = "foo(bar(1,2), X)";
    let expected = PrologTerm::Compound(
        "foo".to_string(),
        vec![
            PrologTerm::Compound(
                "bar".to_string(),
                vec![PrologTerm::Constant(1), PrologTerm::Constant(2)],
            ),
            PrologTerm::Variable("X".to_string()),
        ],
    );
    assert_eq!(parse_term(s, chars(s), 0), Step::Found(16, expected));
}

#[test]
fn compound_with_no_arguments() {
    let s = "f()";
    assert_eq!(
        parse_term(s, chars(s), 0),
        Step::Found(3, PrologTerm::Compound("f".to_string(), vec![]))
    );
}

#[test]
fn compound_tolerates_whitespace() {
    let s = "foo ( a , b )";
    assert_eq!(
        parse_term(s, chars(s), 0),
        Step::Found(
            13,
            PrologTerm::Compound(
                "foo".to_string(),
                vec![
                    PrologTerm::Variable("a".to_string()),
                    PrologTerm::Variable("b".to_string()),
                ]
            )
        )
    );
}

#[test]
fn fact_vs_rule_disambiguation() {
    // Lowercase identifier arguments parse as variables: the grammar has
    // no symbolic-constant term kind.
    let s = "parent(john, mary).";
    let expected = PrologClause::Fact(PrologAtom {
        name: "parent".to_string(),
        terms: vec![
            PrologTerm::Variable("john".to_string()),
            PrologTerm::Variable("mary".to_string()),
        ],
    });
    assert_eq!(parse_clause(s, chars(s), 0), Step::Found(19, expected));
}

#[test]
fn rule_parsing() {
    let s = "ancestor(X, Y) :- parent(X, Z), ancestor(Z, Y).";
    let head = PrologAtom {
        name: "ancestor".to_string(),
        terms: vec![
            PrologTerm::Variable("X".to_string()),
            PrologTerm::Variable("Y".to_string()),
        ],
    };
    let body = vec![
        PrologAtom {
            name: "parent".to_string(),
            terms: vec![
                PrologTerm::Variable("X".to_string()),
                PrologTerm::Variable("Z".to_string()),
            ],
        },
        PrologAtom {
            name: "ancestor".to_string(),
            terms: vec![
                PrologTerm::Variable("Z".to_string()),
                PrologTerm::Variable("Y".to_string()),
            ],
        },
    ];
    assert_eq!(
        parse_clause(s, chars(s), 0),
        Step::Found(47, PrologClause::Rule(head, body))
    );
}

#[test]
fn rule_with_empty_body() {
    let s = "a(X) :- .";
    match parse_clause(s, chars(s), 0) {
        Step::Found(9, PrologClause::Rule(head, body)) => {
            assert_eq!(head.name, "a");
            assert!(body.is_empty());
        }
        other => panic!("unexpected outcome: {:?}", other),
    }
}

#[test]
fn degenerate_atom_from_bare_variable() {
    // A bare term standing where an atom is due becomes a degenerate
    // atom named by the term's rendered form.
    let s = "foo.";
    match parse_program(s) {
        Ok((rest, clauses)) => {
            assert_eq!(rest, "");
            assert_eq!(clauses.len(), 1);
            match &clauses[0] {
                PrologClause::Fact(atom) => {
                    assert_eq!(atom.name, "Variable(\"foo\")");
                    assert_eq!(atom.terms, vec![PrologTerm::Variable("foo".to_string())]);
                }
                other => panic!("unexpected clause: {:?}", other),
            }
        }
        other => panic!("unexpected outcome: {:?}", other),
    }
}

#[test]
fn degenerate_atom_from_bare_constant() {
    let s = "123.";
    match parse_program(s) {
        Ok((_, clauses)) => match &clauses[0] {
            PrologClause::Fact(atom) => {
                assert_eq!(atom.name, "Constant(123)");
                assert_eq!(atom.terms, vec![PrologTerm::Constant(123)]);
            }
            other => panic!("unexpected clause: {:?}", other),
        },
        other => panic!("unexpected outcome: {:?}", other),
    }
}

#[test]
fn atom_with_digit_leading_name() {
    let s = "123(a)";
    match parse_atom(s, chars(s), 0) {
        Step::Found(6, atom) => {
            assert_eq!(atom.name, "123");
            assert_eq!(atom.terms, vec![PrologTerm::Variable("a".to_string())]);
        }
        other => panic!("unexpected outcome: {:?}", other),
    }
}

#[test]
fn empty_program() {
    assert_eq!(parse_program(""), Ok((String::new(), vec![])));
    assert_eq!(parse_program("  \t\r\n  "), Ok((String::new(), vec![])));
}

#[test]
fn malformed_input_fails() {
    // A missing terminator is a failure, never a truncated clause.
    match parse_program("parent(john, mary)") {
        Err(ParseError::Failure { .. }) => {}
        other => panic!("unexpected outcome: {:?}", other),
    }
}

#[test]
fn failure_carries_the_unconsumed_input() {
    match parse_program("?") {
        Err(ParseError::Failure { remaining }) => assert_eq!(remaining, "?"),
        other => panic!("unexpected outcome: {:?}", other),
    }
}

#[test]
fn failure_in_a_later_clause_fails_the_program() {
    match parse_program("a(b). c(d") {
        Err(ParseError::Failure { .. }) => {}
        other => panic!("unexpected outcome: {:?}", other),
    }
}

#[test]
fn numeric_overflow_in_a_program() {
    match parse_program("p(99999999999).") {
        Err(ParseError::NumericOverflow { remaining }) => {
            assert_eq!(remaining, "99999999999).");
        }
        other => panic!("unexpected outcome: {:?}", other),
    }
}

#[test]
fn unseparated_clause_is_left_as_remainder() {
    match parse_program("a(b).c(d).") {
        Ok((rest, clauses)) => {
            assert_eq!(clauses.len(), 1);
            assert_eq!(rest, "c(d).");
        }
        other => panic!("unexpected outcome: {:?}", other),
    }
}

#[test]
fn compact_rule_without_spaces() {
    let s = "a(X):-b(X).";
    match parse_clause(s, chars(s), 0) {
        Step::Found(11, PrologClause::Rule(head, body)) => {
            assert_eq!(head.name, "a");
            assert_eq!(body.len(), 1);
            assert_eq!(body[0].name, "b");
        }
        other => panic!("unexpected outcome: {:?}", other),
    }
}

#[test]
fn zero_constant() {
    let s = "p(0).";
    match parse_clause(s, chars(s), 0) {
        Step::Found(5, PrologClause::Fact(atom)) => {
            assert_eq!(atom.terms, vec![PrologTerm::Constant(0)]);
        }
        other => panic!("unexpected outcome: {:?}", other),
    }
}
