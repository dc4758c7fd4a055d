//! Lowering of a parsed clause into the seed of a later compilation
//! stage: one record naming the clause's head predicate, at the
//! placeholder address zero.

use vstd::prelude::*;

use crate::ast::{clause_view, ClauseV, Instruction, PrologClause};

verus! {

/// The name of a clause's head predicate.
pub open spec fn head_name(c: ClauseV) -> Seq<char> {
    match c {
        ClauseV::Fact(a) => a.name,
        ClauseV::Rule(h, _) => h.name,
    }
}

/// Lower one clause: exactly one record whose predicate is the head
/// atom's name and whose address is zero, for a fact and a rule alike.
pub fn compile_clause(clause: PrologClause) -> (r: Vec<Instruction>)
    ensures
        r@.len() == 1,
        r@[0] == (Instruction::AssertClause {
            predicate: match clause { PrologClause::Fact(a) => a.name, PrologClause::Rule(h, _) => h.name },
            address: 0usize,
        }),
        r@[0] matches Instruction::AssertClause { predicate, address } && predicate@ == head_name(
            clause_view(clause),
        ) && address == 0,
{
    match clause {
        PrologClause::Fact(atom) => {
            vec![Instruction::AssertClause { predicate: atom.name, address: 0 }]
        },
        PrologClause::Rule(head, _) => {
            vec![Instruction::AssertClause { predicate: head.name, address: 0 }]
        },
    }
}

} // verus!
