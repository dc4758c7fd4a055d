//! The abstract syntax of a logic program — terms, atoms and clauses —
//! together with the mathematical view of each type, the lowering record,
//! and the error and outcome types of the parser.

use vstd::prelude::*;

verus! {

/// A term: the building block of atom arguments.
#[derive(Debug, PartialEq, Eq)]
pub enum PrologTerm {
    /// A signed 32-bit whole-number literal.
    Constant(i32),
    /// An identifier-shaped token (letters, digits, underscores).
    Variable(String),
    /// A functor applied to zero or more argument terms.
    Compound(String, Vec<PrologTerm>),
}

/// An atom: a predicate name applied to zero or more terms.
#[derive(Debug, PartialEq, Eq)]
pub struct PrologAtom {
    pub name: String,
    pub terms: Vec<PrologTerm>,
}

/// A clause: the top-level unit of a logic program.
#[derive(Debug, PartialEq, Eq)]
pub enum PrologClause {
    /// A single atom asserted unconditionally.
    Fact(PrologAtom),
    /// A head atom conditioned on the conjunction of the body atoms.
    Rule(PrologAtom, Vec<PrologAtom>),
}

/// The lowering record of one clause: its head predicate's name and a
/// placeholder instruction address.
#[derive(Debug, PartialEq, Eq)]
pub enum Instruction {
    AssertClause { predicate: String, address: usize },
}

/// The error of a failed program parse: either the grammar did not match,
/// or a constant exceeded the 32-bit range.  Both carry the unconsumed
/// input from the position where the failing rule was attempted.
#[derive(Debug, PartialEq, Eq)]
pub enum ParseError {
    Failure { remaining: String },
    NumericOverflow { remaining: String },
}

/// The outcome of one grammar rule on input positions: success with the
/// position one past the consumed text, a mismatch at a position, or a
/// numeric overflow in a constant starting at a position.
#[derive(Debug, PartialEq, Eq)]
pub enum Step<T> {
    Found(usize, T),
    Fail(usize),
    Overflow(usize),
}

/// The mathematical value of a term.
pub enum TermV {
    Constant(int),
    Variable(Seq<char>),
    Compound(Seq<char>, Seq<TermV>),
}

/// The mathematical value of an atom.
pub struct AtomV {
    pub name: Seq<char>,
    pub terms: Seq<TermV>,
}

/// The mathematical value of a clause.
pub enum ClauseV {
    Fact(AtomV),
    Rule(AtomV, Seq<AtomV>),
}

/// The view of a term.
pub open spec fn term_view(t: PrologTerm) -> TermV
    decreases t,
{
    match t {
        PrologTerm::Constant(n) => TermV::Constant(n as int),
        PrologTerm::Variable(s) => TermV::Variable(s@),
        PrologTerm::Compound(f, args) => TermV::Compound(f@, terms_view(args@)),
    }
}

/// The views of a sequence of terms, element by element.
pub open spec fn terms_view(ts: Seq<PrologTerm>) -> Seq<TermV>
    decreases ts,
{
    if ts.len() == 0 {
        Seq::empty()
    } else {
        terms_view(ts.drop_last()).push(term_view(ts.last()))
    }
}

/// The view of an atom.
pub open spec fn atom_view(a: PrologAtom) -> AtomV {
    AtomV { name: a.name@, terms: terms_view(a.terms@) }
}

/// The views of a sequence of atoms, element by element.
pub open spec fn atoms_view(body: Seq<PrologAtom>) -> Seq<AtomV>
    decreases body,
{
    if body.len() == 0 {
        Seq::empty()
    } else {
        atoms_view(body.drop_last()).push(atom_view(body.last()))
    }
}

/// The view of a clause.
pub open spec fn clause_view(c: PrologClause) -> ClauseV {
    match c {
        PrologClause::Fact(a) => ClauseV::Fact(atom_view(a)),
        PrologClause::Rule(h, body) => ClauseV::Rule(atom_view(h), atoms_view(body@)),
    }
}

/// The views of a sequence of clauses, element by element.
pub open spec fn clauses_view(cs: Seq<PrologClause>) -> Seq<ClauseV>
    decreases cs,
{
    if cs.len() == 0 {
        Seq::empty()
    } else {
        clauses_view(cs.drop_last()).push(clause_view(cs.last()))
    }
}

/// A sequence-of-terms view reads back element by element.
pub proof fn lemma_terms_view(ts: Seq<PrologTerm>)
    ensures
        terms_view(ts).len() == ts.len(),
        forall|k: int| 0 <= k < ts.len() ==> #[trigger] terms_view(ts)[k] == term_view(ts[k]),
    decreases ts,
{
    if ts.len() > 0 {
        lemma_terms_view(ts.drop_last());
    }
}

/// Viewing a sequence of terms with one put in front puts its view in
/// front.
pub proof fn lemma_terms_view_cons(t: PrologTerm, rest: Seq<PrologTerm>)
    ensures
        terms_view(rest.insert(0, t)) == seq![term_view(t)] + terms_view(rest),
{
    lemma_terms_view(rest.insert(0, t));
    lemma_terms_view(rest);
    assert(terms_view(rest.insert(0, t)) =~= seq![term_view(t)] + terms_view(rest));
}

/// A sequence-of-atoms view reads back element by element.
pub proof fn lemma_atoms_view(body: Seq<PrologAtom>)
    ensures
        atoms_view(body).len() == body.len(),
        forall|k: int| 0 <= k < body.len() ==> #[trigger] atoms_view(body)[k] == atom_view(body[k]),
    decreases body,
{
    if body.len() > 0 {
        lemma_atoms_view(body.drop_last());
    }
}

/// Viewing a sequence of atoms with one put in front puts its view in
/// front.
pub proof fn lemma_atoms_view_cons(a: PrologAtom, rest: Seq<PrologAtom>)
    ensures
        atoms_view(rest.insert(0, a)) == seq![atom_view(a)] + atoms_view(rest),
{
    lemma_atoms_view(rest.insert(0, a));
    lemma_atoms_view(rest);
    assert(atoms_view(rest.insert(0, a)) =~= seq![atom_view(a)] + atoms_view(rest));
}

/// Viewing a sequence of clauses with one put in front puts its view in
/// front.
pub proof fn lemma_clauses_view_cons(c: PrologClause, rest: Seq<PrologClause>)
    ensures
        clauses_view(rest.insert(0, c)) == seq![clause_view(c)] + clauses_view(rest),
{
    lemma_clauses_view(rest.insert(0, c));
    lemma_clauses_view(rest);
    assert(clauses_view(rest.insert(0, c)) =~= seq![clause_view(c)] + clauses_view(rest));
}

/// A sequence-of-clauses view reads back element by element.
pub proof fn lemma_clauses_view(cs: Seq<PrologClause>)
    ensures
        clauses_view(cs).len() == cs.len(),
        forall|k: int| 0 <= k < cs.len() ==> #[trigger] clauses_view(cs)[k] == clause_view(cs[k]),
    decreases cs,
{
    if cs.len() > 0 {
        lemma_clauses_view(cs.drop_last());
    }
}

} // verus!
