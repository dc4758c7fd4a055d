//! The executable parser.  Every function takes the input text, its length
//! in characters, and a start position, and returns exactly what the
//! corresponding grammar rule of [`crate::grammar`] says it returns.

use vstd::prelude::*;

use crate::ast::{
    atom_view, atoms_view, clause_view, clauses_view, term_view, terms_view, PrologAtom,
    PrologClause, PrologTerm, Step,
};
use crate::grammar::{
    is_digit, is_ident, is_ws, lemma_atom_list_progress, lemma_atom_progress,
    lemma_clause_progress, lemma_clauses_progress, lemma_dec_value_mono, lemma_dec_value_push,
    lemma_digit_end, lemma_ident_end, lemma_term_list_progress, lemma_term_progress, lemma_ws_end,
    spec_atom, spec_atom_list, spec_atom_list_more, spec_clause, spec_clauses, spec_constant,
    spec_fact, spec_functor, spec_program, spec_rule, spec_term, spec_term_list,
    spec_term_list_more, spec_variable, ws_end,
};
use crate::grammar::{digit_end, ident_end, Parsed};

verus! {

/// The outcome of a term rule agrees with the grammar's answer.
pub open spec fn term_step_ok(r: Step<PrologTerm>, p: Parsed<crate::ast::TermV>) -> bool {
    match r {
        Step::Found(j, t) => p == (Parsed::Found { next: j as int, val: term_view(t) }),
        Step::Fail(a) => p == (Parsed::Fail::<crate::ast::TermV> { at: a as int }),
        Step::Overflow(a) => p == (Parsed::Overflow::<crate::ast::TermV> { at: a as int }),
    }
}

/// The outcome of a list-of-terms rule agrees with the grammar's answer.
pub open spec fn terms_step_ok(
    r: Step<Vec<PrologTerm>>,
    p: Parsed<Seq<crate::ast::TermV>>,
) -> bool {
    match r {
        Step::Found(j, ts) => p == (Parsed::Found { next: j as int, val: terms_view(ts@) }),
        Step::Fail(a) => p == (Parsed::Fail::<Seq<crate::ast::TermV>> { at: a as int }),
        Step::Overflow(a) => p == (Parsed::Overflow::<Seq<crate::ast::TermV>> { at: a as int }),
    }
}

/// The outcome of a functor rule agrees with the grammar's answer.
pub open spec fn functor_step_ok(r: Step<String>, p: Parsed<Seq<char>>) -> bool {
    match r {
        Step::Found(j, name) => p == (Parsed::Found { next: j as int, val: name@ }),
        Step::Fail(a) => p == (Parsed::Fail::<Seq<char>> { at: a as int }),
        Step::Overflow(a) => p == (Parsed::Overflow::<Seq<char>> { at: a as int }),
    }
}

/// The outcome of an atom rule agrees with the grammar's answer.
pub open spec fn atom_step_ok(r: Step<PrologAtom>, p: Parsed<crate::ast::AtomV>) -> bool {
    match r {
        Step::Found(j, a) => p == (Parsed::Found { next: j as int, val: atom_view(a) }),
        Step::Fail(a) => p == (Parsed::Fail::<crate::ast::AtomV> { at: a as int }),
        Step::Overflow(a) => p == (Parsed::Overflow::<crate::ast::AtomV> { at: a as int }),
    }
}

/// The outcome of a list-of-atoms rule agrees with the grammar's answer.
pub open spec fn atoms_step_ok(
    r: Step<Vec<PrologAtom>>,
    p: Parsed<Seq<crate::ast::AtomV>>,
) -> bool {
    match r {
        Step::Found(j, body) => p == (Parsed::Found { next: j as int, val: atoms_view(body@) }),
        Step::Fail(a) => p == (Parsed::Fail::<Seq<crate::ast::AtomV>> { at: a as int }),
        Step::Overflow(a) => p == (Parsed::Overflow::<Seq<crate::ast::AtomV>> { at: a as int }),
    }
}

/// The outcome of a clause rule agrees with the grammar's answer.
pub open spec fn clause_step_ok(r: Step<PrologClause>, p: Parsed<crate::ast::ClauseV>) -> bool {
    match r {
        Step::Found(j, c) => p == (Parsed::Found { next: j as int, val: clause_view(c) }),
        Step::Fail(a) => p == (Parsed::Fail::<crate::ast::ClauseV> { at: a as int }),
        Step::Overflow(a) => p == (Parsed::Overflow::<crate::ast::ClauseV> { at: a as int }),
    }
}

/// The outcome of a clause-sequence rule agrees with the grammar's answer.
pub open spec fn clauses_step_ok(
    r: Step<Vec<PrologClause>>,
    p: Parsed<Seq<crate::ast::ClauseV>>,
) -> bool {
    match r {
        Step::Found(j, cs) => p == (Parsed::Found { next: j as int, val: clauses_view(cs@) }),
        Step::Fail(a) => p == (Parsed::Fail::<Seq<crate::ast::ClauseV>> { at: a as int }),
        Step::Overflow(a) => p == (Parsed::Overflow::<Seq<crate::ast::ClauseV>> { at: a as int }),
    }
}

/// Whether a character is whitespace.
fn check_ws(c: char) -> (b: bool)
    ensures
        b == is_ws(c),
{
    c == ' ' || c == '\t' || c == '\n' || c == '\r'
}

/// Whether a character is an ASCII decimal digit.
fn check_digit(c: char) -> (b: bool)
    ensures
        b == is_digit(c),
{
    '0' <= c && c <= '9'
}

/// Whether a character is an identifier character.
fn check_ident(c: char) -> (b: bool)
    ensures
        b == is_ident(c),
{
    ('a' <= c && c <= 'z') || ('A' <= c && c <= 'Z') || ('0' <= c && c <= '9') || c == '_'
}

/// Skip whitespace from `i`.
pub fn skip_ws(s: &str, n: usize, i: usize) -> (j: usize)
    requires
        n == s@.len(),
        i <= n,
    ensures
        j as int == ws_end(s@, i as int),
        i <= j <= n,
{
    let mut j = i;
    while j < n && check_ws(s.get_char(j))
        invariant
            i <= j <= n,
            n == s@.len(),
            ws_end(s@, i as int) == ws_end(s@, j as int),
        decreases n - j,
    {
        proof {
            lemma_ws_end(s@, j as int + 1);
        }
        j = j + 1;
    }
    proof {
        lemma_ws_end(s@, i as int);
    }
    j
}

/// Scan the run of digits from `i`.
fn scan_digits(s: &str, n: usize, i: usize) -> (j: usize)
    requires
        n == s@.len(),
        i <= n,
    ensures
        j as int == digit_end(s@, i as int),
        i <= j <= n,
{
    let mut j = i;
    while j < n && check_digit(s.get_char(j))
        invariant
            i <= j <= n,
            n == s@.len(),
            digit_end(s@, i as int) == digit_end(s@, j as int),
        decreases n - j,
    {
        proof {
            lemma_digit_end(s@, j as int + 1);
        }
        j = j + 1;
    }
    proof {
        lemma_digit_end(s@, i as int);
    }
    j
}

/// Scan the run of identifier characters from `i`.
fn scan_ident(s: &str, n: usize, i: usize) -> (j: usize)
    requires
        n == s@.len(),
        i <= n,
    ensures
        j as int == ident_end(s@, i as int),
        i <= j <= n,
{
    let mut j = i;
    while j < n && check_ident(s.get_char(j))
        invariant
            i <= j <= n,
            n == s@.len(),
            ident_end(s@, i as int) == ident_end(s@, j as int),
        decreases n - j,
    {
        proof {
            lemma_ident_end(s@, j as int + 1);
        }
        j = j + 1;
    }
    proof {
        lemma_ident_end(s@, i as int);
    }
    j
}

/// Constant rule: a run of digits read as a signed 32-bit integer, with
/// overflow of that range reported as its own outcome.
pub fn parse_constant(s: &str, n: usize, i: usize) -> (r: Step<PrologTerm>)
    requires
        n == s@.len(),
        i <= n,
    ensures
        term_step_ok(r, spec_constant(s@, i as int)),
{
    if i == n {
        return Step::Fail(i);
    }
    let c0 = s.get_char(i);
    if !check_digit(c0) {
        return Step::Fail(i);
    }
    let e = scan_digits(s, n, i);
    proof {
        lemma_digit_end(s@, i as int);
    }
    let mut v: u64 = 0;
    let mut j = i;
    while j < e
        invariant
            i <= j <= e <= n,
            n == s@.len(),
            e as int == digit_end(s@, i as int),
            forall|k: int| i <= k < e ==> is_digit(#[trigger] s@[k]),
            v == crate::grammar::dec_value(s@.subrange(i as int, j as int)),
            v <= 0x7fff_ffff,
        decreases e - j,
    {
        let c = s.get_char(j);
        let d: u64 = (c as u32 - '0' as u32) as u64;
        proof {
            lemma_dec_value_push(s@.subrange(i as int, j as int), s@[j as int]);
            assert(s@.subrange(i as int, j as int).push(s@[j as int]) =~= s@.subrange(
                i as int,
                j as int + 1,
            ));
        }
        v = v * 10 + d;
        j = j + 1;
        if v > 0x7fff_ffff {
            proof {
                lemma_dec_value_mono(s@, i as int, j as int, e as int);
            }
            return Step::Overflow(i);
        }
    }
    Step::Found(e, PrologTerm::Constant(v as i32))
}

/// Variable rule: a run of identifier characters kept as a name.
pub fn parse_variable(s: &str, n: usize, i: usize) -> (r: Step<PrologTerm>)
    requires
        n == s@.len(),
        i <= n,
    ensures
        term_step_ok(r, spec_variable(s@, i as int)),
{
    let e = scan_ident(s, n, i);
    if e == i {
        Step::Fail(i)
    } else {
        Step::Found(e, PrologTerm::Variable(s.substring_char(i, e).to_owned()))
    }
}

/// Functor rule: a run of identifier characters kept as a name.
pub fn parse_functor(s: &str, n: usize, i: usize) -> (r: Step<String>)
    requires
        n == s@.len(),
        i <= n,
    ensures
        functor_step_ok(r, spec_functor(s@, i as int)),
{
    let e = scan_ident(s, n, i);
    if e == i {
        Step::Fail(i)
    } else {
        Step::Found(e, s.substring_char(i, e).to_owned())
    }
}

/// Term rule: a constant where a digit starts the token, a compound where
/// a functor is directly applied to a parenthesized argument list, and
/// otherwise a variable.
pub fn parse_term(s: &str, n: usize, i: usize) -> (r: Step<PrologTerm>)
    requires
        n == s@.len(),
        i <= n,
    ensures
        term_step_ok(r, spec_term(s@, i as int)),
    decreases n - i, 0int,
{
    if i < n {
        let c0 = s.get_char(i);
        if check_digit(c0) {
            return parse_constant(s, n, i);
        }
    }
    let e = scan_ident(s, n, i);
    if e == i {
        return Step::Fail(i);
    }
    let name = s.substring_char(i, e);
    let p = skip_ws(s, n, e);
    if p < n && s.get_char(p) == '(' {
        let q = skip_ws(s, n, p + 1);
        match parse_term_list(s, n, q) {
            Step::Found(k, args) => {
                proof {
                    lemma_term_list_progress(s@, q as int);
                }
                let r2 = skip_ws(s, n, k);
                if r2 < n && s.get_char(r2) == ')' {
                    let nx = skip_ws(s, n, r2 + 1);
                    Step::Found(nx, PrologTerm::Compound(name.to_owned(), args))
                } else {
                    Step::Found(e, PrologTerm::Variable(name.to_owned()))
                }
            },
            Step::Overflow(a) => Step::Overflow(a),
            Step::Fail(_) => Step::Found(e, PrologTerm::Variable(name.to_owned())),
        }
    } else {
        Step::Found(e, PrologTerm::Variable(name.to_owned()))
    }
}

/// Argument-list rule: zero or more terms separated by commas.
pub fn parse_term_list(s: &str, n: usize, i: usize) -> (r: Step<Vec<PrologTerm>>)
    requires
        n == s@.len(),
        i <= n,
    ensures
        terms_step_ok(r, spec_term_list(s@, i as int)),
    decreases n - i, 1int,
{
    match parse_term(s, n, i) {
        Step::Fail(_) => Step::Found(i, Vec::new()),
        Step::Overflow(a) => Step::Overflow(a),
        Step::Found(j, t) => {
            proof {
                lemma_term_progress(s@, i as int);
            }
            match parse_term_list_more(s, n, j) {
                Step::Found(k, mut rest) => {
                    proof {
                        crate::ast::lemma_terms_view_cons(t, rest@);
                    }
                    rest.insert(0, t);
                    Step::Found(k, rest)
                },
                Step::Overflow(a) => Step::Overflow(a),
                Step::Fail(a) => Step::Fail(a),
            }
        },
    }
}

/// The tail of an argument list: repeatedly a comma and a term, leaving a
/// comma whose following term does not match unconsumed.
pub fn parse_term_list_more(s: &str, n: usize, j: usize) -> (r: Step<Vec<PrologTerm>>)
    requires
        n == s@.len(),
        j <= n,
    ensures
        terms_step_ok(r, spec_term_list_more(s@, j as int)),
    decreases n - j, 2int,
{
    let c = skip_ws(s, n, j);
    if c < n && s.get_char(c) == ',' {
        let k = skip_ws(s, n, c + 1);
        match parse_term(s, n, k) {
            Step::Fail(_) => Step::Found(j, Vec::new()),
            Step::Overflow(a) => Step::Overflow(a),
            Step::Found(m, t) => {
                proof {
                    lemma_term_progress(s@, k as int);
                }
                match parse_term_list_more(s, n, m) {
                    Step::Found(e, mut rest) => {
                        proof {
                            crate::ast::lemma_terms_view_cons(t, rest@);
                        }
                        rest.insert(0, t);
                        Step::Found(e, rest)
                    },
                    Step::Overflow(a) => Step::Overflow(a),
                    Step::Fail(a) => Step::Fail(a),
                }
            },
        }
    } else {
        Step::Found(j, Vec::new())
    }
}

/// The fallback of the atom rule: a single term wrapped into a degenerate
/// atom named by its rendered form.
fn parse_atom_fallback(s: &str, n: usize, i: usize) -> (r: Step<PrologAtom>)
    requires
        n == s@.len(),
        i <= n,
    ensures
        atom_step_ok(r, crate::grammar::spec_atom_fallback(s@, i as int)),
    decreases n - i, 3int,
{
    match parse_term(s, n, i) {
        Step::Found(j, t) => {
            let name = crate::render::term_debug_string(&t);
            let mut terms: Vec<PrologTerm> = Vec::new();
            proof {
                crate::ast::lemma_terms_view(seq![t]);
                assert(terms_view(seq![t]) =~= seq![term_view(t)]);
            }
            terms.push(t);
            Step::Found(j, PrologAtom { name, terms })
        },
        Step::Fail(a) => Step::Fail(a),
        Step::Overflow(a) => Step::Overflow(a),
    }
}

/// Atom rule: a predicate name applied to a parenthesized argument list,
/// or else a single term standing in as a degenerate atom.
pub fn parse_atom(s: &str, n: usize, i: usize) -> (r: Step<PrologAtom>)
    requires
        n == s@.len(),
        i <= n,
    ensures
        atom_step_ok(r, spec_atom(s@, i as int)),
    decreases n - i, 4int,
{
    let e = scan_ident(s, n, i);
    let p = skip_ws(s, n, e);
    if i < e && p < n && s.get_char(p) == '(' {
        let q = skip_ws(s, n, p + 1);
        match parse_term_list(s, n, q) {
            Step::Found(k, args) => {
                proof {
                    lemma_term_list_progress(s@, q as int);
                }
                let r2 = skip_ws(s, n, k);
                if r2 < n && s.get_char(r2) == ')' {
                    let nx = skip_ws(s, n, r2 + 1);
                    Step::Found(
                        nx,
                        PrologAtom { name: s.substring_char(i, e).to_owned(), terms: args },
                    )
                } else {
                    parse_atom_fallback(s, n, i)
                }
            },
            Step::Overflow(a) => Step::Overflow(a),
            Step::Fail(_) => parse_atom_fallback(s, n, i),
        }
    } else {
        parse_atom_fallback(s, n, i)
    }
}

/// Body-list rule: zero or more atoms separated by commas.
pub fn parse_atom_list(s: &str, n: usize, i: usize) -> (r: Step<Vec<PrologAtom>>)
    requires
        n == s@.len(),
        i <= n,
    ensures
        atoms_step_ok(r, spec_atom_list(s@, i as int)),
    decreases n - i, 5int,
{
    match parse_atom(s, n, i) {
        Step::Fail(_) => Step::Found(i, Vec::new()),
        Step::Overflow(a) => Step::Overflow(a),
        Step::Found(j, a) => {
            proof {
                lemma_atom_progress(s@, i as int);
            }
            match parse_atom_list_more(s, n, j) {
                Step::Found(k, mut rest) => {
                    proof {
                        crate::ast::lemma_atoms_view_cons(a, rest@);
                    }
                    rest.insert(0, a);
                    Step::Found(k, rest)
                },
                Step::Overflow(a2) => Step::Overflow(a2),
                Step::Fail(a2) => Step::Fail(a2),
            }
        },
    }
}

/// The tail of a body list: repeatedly a comma and an atom, leaving a
/// comma whose following atom does not match unconsumed.
pub fn parse_atom_list_more(s: &str, n: usize, j: usize) -> (r: Step<Vec<PrologAtom>>)
    requires
        n == s@.len(),
        j <= n,
    ensures
        atoms_step_ok(r, spec_atom_list_more(s@, j as int)),
    decreases n - j, 6int,
{
    let c = skip_ws(s, n, j);
    if c < n && s.get_char(c) == ',' {
        let k = skip_ws(s, n, c + 1);
        match parse_atom(s, n, k) {
            Step::Fail(_) => Step::Found(j, Vec::new()),
            Step::Overflow(a) => Step::Overflow(a),
            Step::Found(m, a) => {
                proof {
                    lemma_atom_progress(s@, k as int);
                }
                match parse_atom_list_more(s, n, m) {
                    Step::Found(e, mut rest) => {
                        proof {
                            crate::ast::lemma_atoms_view_cons(a, rest@);
                        }
                        rest.insert(0, a);
                        Step::Found(e, rest)
                    },
                    Step::Overflow(a2) => Step::Overflow(a2),
                    Step::Fail(a2) => Step::Fail(a2),
                }
            },
        }
    } else {
        Step::Found(j, Vec::new())
    }
}

/// Fact rule: an atom followed, whitespace-tolerantly, by `.`.
pub fn parse_fact(s: &str, n: usize, i: usize) -> (r: Step<PrologClause>)
    requires
        n == s@.len(),
        i <= n,
    ensures
        clause_step_ok(r, spec_fact(s@, i as int)),
{
    match parse_atom(s, n, i) {
        Step::Found(j, a) => {
            proof {
                lemma_atom_progress(s@, i as int);
            }
            let p = skip_ws(s, n, j);
            if p < n && s.get_char(p) == '.' {
                Step::Found(p + 1, PrologClause::Fact(a))
            } else {
                Step::Fail(p)
            }
        },
        Step::Fail(a) => Step::Fail(a),
        Step::Overflow(a) => Step::Overflow(a),
    }
}

/// Rule rule: a head atom, `:-`, a body list, and the terminator `.`.
pub fn parse_rule(s: &str, n: usize, i: usize) -> (r: Step<PrologClause>)
    requires
        n == s@.len(),
        i <= n,
    ensures
        clause_step_ok(r, spec_rule(s@, i as int)),
{
    match parse_atom(s, n, i) {
        Step::Found(j, h) => {
            proof {
                lemma_atom_progress(s@, i as int);
            }
            let p = skip_ws(s, n, j);
            if n - p >= 2 && s.get_char(p) == ':' && s.get_char(p + 1) == '-' {
                let q = skip_ws(s, n, p + 2);
                match parse_atom_list(s, n, q) {
                    Step::Found(k, body) => {
                        proof {
                            lemma_atom_list_progress(s@, q as int);
                        }
                        let r2 = skip_ws(s, n, k);
                        if r2 < n && s.get_char(r2) == '.' {
                            Step::Found(r2 + 1, PrologClause::Rule(h, body))
                        } else {
                            Step::Fail(r2)
                        }
                    },
                    Step::Overflow(a) => Step::Overflow(a),
                    Step::Fail(a) => Step::Fail(a),
                }
            } else {
                Step::Fail(p)
            }
        },
        Step::Fail(a) => Step::Fail(a),
        Step::Overflow(a) => Step::Overflow(a),
    }
}

/// Clause rule: a rule if it matches, else a fact.
pub fn parse_clause(s: &str, n: usize, i: usize) -> (r: Step<PrologClause>)
    requires
        n == s@.len(),
        i <= n,
    ensures
        clause_step_ok(r, spec_clause(s@, i as int)),
{
    match parse_rule(s, n, i) {
        Step::Found(j, c) => Step::Found(j, c),
        Step::Overflow(a) => Step::Overflow(a),
        Step::Fail(_) => parse_fact(s, n, i),
    }
}

/// One or more clauses from a position holding a non-whitespace
/// character, separated by whitespace.
pub fn parse_clauses(s: &str, n: usize, i: usize) -> (r: Step<Vec<PrologClause>>)
    requires
        n == s@.len(),
        i <= n,
    ensures
        clauses_step_ok(r, spec_clauses(s@, i as int)),
    decreases n - i,
{
    match parse_clause(s, n, i) {
        Step::Fail(a) => Step::Fail(a),
        Step::Overflow(a) => Step::Overflow(a),
        Step::Found(j, c) => {
            proof {
                lemma_clause_progress(s@, i as int);
            }
            let k = skip_ws(s, n, j);
            if k == n {
                let mut one: Vec<PrologClause> = Vec::new();
                proof {
                    crate::ast::lemma_clauses_view(seq![c]);
                    assert(clauses_view(seq![c]) =~= seq![clause_view(c)]);
                }
                one.push(c);
                Step::Found(k, one)
            } else if j < k {
                match parse_clauses(s, n, k) {
                    Step::Found(e, mut rest) => {
                        proof {
                            crate::ast::lemma_clauses_view_cons(c, rest@);
                        }
                        rest.insert(0, c);
                        Step::Found(e, rest)
                    },
                    Step::Overflow(a) => Step::Overflow(a),
                    Step::Fail(a) => Step::Fail(a),
                }
            } else {
                let mut one: Vec<PrologClause> = Vec::new();
                proof {
                    crate::ast::lemma_clauses_view(seq![c]);
                    assert(clauses_view(seq![c]) =~= seq![clause_view(c)]);
                }
                one.push(c);
                Step::Found(j, one)
            }
        },
    }
}

/// The program parse agrees with the grammar: on success the remainder
/// and the clause views are exactly what the program rule says; on an
/// error, its variant and its unconsumed input are too.
pub open spec fn program_result_ok(
    r: Result<(String, Vec<PrologClause>), crate::ast::ParseError>,
    p: Parsed<Seq<crate::ast::ClauseV>>,
    s: Seq<char>,
) -> bool {
    match r {
        Result::Ok(pair) => p matches Parsed::Found { next, val } && 0 <= next <= s.len()
            && pair.0@ == s.subrange(next, s.len() as int) && clauses_view(pair.1@) == val,
        Result::Err(crate::ast::ParseError::Failure { remaining }) => p matches Parsed::Fail {
            at,
        } && 0 <= at <= s.len() && remaining@ == s.subrange(at, s.len() as int),
        Result::Err(crate::ast::ParseError::NumericOverflow { remaining }) => p
            matches Parsed::Overflow { at } && 0 <= at <= s.len() && remaining@ == s.subrange(
            at,
            s.len() as int,
        ),
    }
}

/// Program rule: leading whitespace, then clauses separated by
/// whitespace.  On success the unconsumed remainder is returned with the
/// clauses; an empty or all-whitespace input yields no clauses.
pub fn parse_program(input: &str) -> (r: Result<
    (String, Vec<PrologClause>),
    crate::ast::ParseError,
>)
    ensures
        program_result_ok(r, spec_program(input@), input@),
{
    let n = input.unicode_len();
    let i = skip_ws(input, n, 0);
    if i == n {
        let empty_rest = input.substring_char(n, n).to_owned();
        proof {
            assert(clauses_view(Seq::<PrologClause>::empty()) =~= Seq::<
                crate::ast::ClauseV,
            >::empty());
        }
        return Result::Ok((empty_rest, Vec::new()));
    }
    match parse_clauses(input, n, i) {
        Step::Found(j, cs) => {
            proof {
                lemma_clauses_progress(input@, i as int);
            }
            Result::Ok((input.substring_char(j, n).to_owned(), cs))
        },
        Step::Fail(a) => {
            proof {
                lemma_clauses_progress(input@, i as int);
            }
            Result::Err(
                crate::ast::ParseError::Failure {
                    remaining: input.substring_char(a, n).to_owned(),
                },
            )
        },
        Step::Overflow(a) => {
            proof {
                lemma_clauses_progress(input@, i as int);
            }
            Result::Err(
                crate::ast::ParseError::NumericOverflow {
                    remaining: input.substring_char(a, n).to_owned(),
                },
            )
        },
    }
}

} // verus!
