use prolog_parser::parser::parse_program;
use prolog_parser::roundtrip::clause_to_string;
use prolog_parser::{compile_clause, Instruction, PrologClause};

#[test]
fn four_clause_program_and_lowering() {
    let program = "parent(john, mary).\n\
                   parent(mary, susan).\n\
                   ancestor(X, Y) :- parent(X, Y).\n\
                   ancestor(X, Y) :- parent(X, Z), ancestor(Z, Y).";
    let (rest, clauses) = parse_program(program).expect("the program parses");
    assert_eq!(rest, "");
    assert_eq!(clauses.len(), 4);
    let expected = ["parent", "parent", "ancestor", "ancestor"];
    for (clause, want) in clauses.into_iter().zip(expected) {
        let instructions = compile_clause(clause);
        assert_eq!(instructions.len(), 1);
        let Instruction::AssertClause { predicate, address } = &instructions[0];
        assert_eq!(predicate, want);
        assert_eq!(*address, 0);
    }
}

#[test]
fn program_tolerates_surrounding_whitespace() {
    let program = "\n    parent(john, mary).\n    parent(mary, susan).\n  ";
    let (rest, clauses) = parse_program(program).expect("the program parses");
    assert_eq!(rest, "");
    assert_eq!(clauses.len(), 2);
}

#[test]
fn lowering_a_rule_reads_only_the_head() {
    let (_, clauses) = parse_program("a(X) :- b(X), c(X).").expect("the rule parses");
    let instructions = compile_clause(clauses.into_iter().next().expect("one clause"));
    let Instruction::AssertClause { predicate, address } = &instructions[0];
    assert_eq!(predicate, "a");
    assert_eq!(*address, 0);
}

fn reparse_one(text: &str) -> PrologClause {
    let (rest, mut clauses) = parse_program(text).expect("the clause parses");
    assert_eq!(rest, "");
    assert_eq!(clauses.len(), 1);
    clauses.pop().expect("one clause")
}

#[test]
fn round_trip_of_a_fact() {
    let c = reparse_one("parent(john, mary).");
    let canonical = clause_to_string(&c);
    assert_eq!(canonical, "parent(john,mary).");
    assert_eq!(reparse_one(&canonical), c);
}

#[test]
fn round_trip_of_a_rule() {
    let c = reparse_one("ancestor(X, Y) :- parent(X, Z), ancestor(Z, Y).");
    let canonical = clause_to_string(&c);
    assert_eq!(canonical, "ancestor(X,Y):-parent(X,Z),ancestor(Z,Y).");
    assert_eq!(reparse_one(&canonical), c);
}

#[test]
fn round_trip_of_nested_compounds() {
    let c = reparse_one("p(foo(bar(1,2), X), 7).");
    let canonical = clause_to_string(&c);
    assert_eq!(canonical, "p(foo(bar(1,2),X),7).");
    assert_eq!(reparse_one(&canonical), c);
}
