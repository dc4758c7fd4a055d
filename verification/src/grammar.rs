//! The grammar, stated mathematically.  Each rule of the concrete syntax is
//! a spec function from an input sequence and a start position to a
//! [`Parsed`] outcome.  Alternatives are tried in a fixed order and the
//! first success wins; a rule that cannot match reports the position at
//! which its last alternative gave up.  The executable parser is specified
//! and verified against these functions alone.

use vstd::prelude::*;

use crate::ast::{AtomV, ClauseV, TermV};

verus! {

/// The outcome of one grammar rule at the specification level.
pub enum Parsed<T> {
    /// The rule matched; `next` is the position one past the consumed text.
    Found { next: int, val: T },
    /// The rule did not match; `at` is where its last alternative gave up.
    Fail { at: int },
    /// A constant beginning at `at` exceeds the 32-bit range.
    Overflow { at: int },
}

/// A whitespace character: space, tab, carriage return or line feed.
pub open spec fn is_ws(c: char) -> bool {
    c == ' ' || c == '\t' || c == '\n' || c == '\r'
}

/// An ASCII decimal digit.
pub open spec fn is_digit(c: char) -> bool {
    '0' <= c && c <= '9'
}

/// An identifier character: ASCII letter, digit or underscore.  Variable
/// names and functor names are both drawn from this class.
pub open spec fn is_ident(c: char) -> bool {
    ('a' <= c && c <= 'z') || ('A' <= c && c <= 'Z') || is_digit(c) || c == '_'
}

/// The position of the first non-whitespace character at or after `i`.
pub open spec fn ws_end(s: Seq<char>, i: int) -> int
    decreases s.len() - i,
{
    if 0 <= i && i < s.len() && is_ws(s[i]) {
        let j = ws_end(s, i + 1);
        if i + 1 <= j && j <= s.len() {
            j
        } else {
            i + 1
        }
    } else {
        i
    }
}

/// The position one past the run of digits starting at `i`.
pub open spec fn digit_end(s: Seq<char>, i: int) -> int
    decreases s.len() - i,
{
    if 0 <= i && i < s.len() && is_digit(s[i]) {
        let j = digit_end(s, i + 1);
        if i + 1 <= j && j <= s.len() {
            j
        } else {
            i + 1
        }
    } else {
        i
    }
}

/// The position one past the run of identifier characters starting at `i`.
pub open spec fn ident_end(s: Seq<char>, i: int) -> int
    decreases s.len() - i,
{
    if 0 <= i && i < s.len() && is_ident(s[i]) {
        let j = ident_end(s, i + 1);
        if i + 1 <= j && j <= s.len() {
            j
        } else {
            i + 1
        }
    } else {
        i
    }
}

/// The value of a sequence of decimal digits, most significant first.
pub open spec fn dec_value(d: Seq<char>) -> int
    decreases d.len(),
{
    if d.len() == 0 {
        0
    } else {
        dec_value(d.drop_last()) * 10 + (d.last() as int - '0' as int)
    }
}

/// Constant rule: one or more digits, read as a signed 32-bit integer.
/// A longer digit run is never split: overflow of the 32-bit range is
/// reported rather than backtracked into the variable rule.
pub open spec fn spec_constant(s: Seq<char>, i: int) -> Parsed<TermV> {
    if 0 <= i && i < s.len() && is_digit(s[i]) {
        let e = digit_end(s, i);
        let v = dec_value(s.subrange(i, e));
        if v <= i32::MAX as int {
            Parsed::Found { next: e, val: TermV::Constant(v) }
        } else {
            Parsed::Overflow { at: i }
        }
    } else {
        Parsed::Fail { at: i }
    }
}

/// Variable rule: one or more identifier characters.
pub open spec fn spec_variable(s: Seq<char>, i: int) -> Parsed<TermV> {
    let e = ident_end(s, i);
    if 0 <= i && i < e {
        Parsed::Found { next: e, val: TermV::Variable(s.subrange(i, e)) }
    } else {
        Parsed::Fail { at: i }
    }
}

/// Functor rule: one or more identifier characters, kept as a name.
pub open spec fn spec_functor(s: Seq<char>, i: int) -> Parsed<Seq<char>> {
    let e = ident_end(s, i);
    if 0 <= i && i < e {
        Parsed::Found { next: e, val: s.subrange(i, e) }
    } else {
        Parsed::Fail { at: i }
    }
}

/// Term rule.  The alternatives in order: a constant wherever a digit
/// starts the token; a compound — functor, `(`, arguments, `)`, each
/// bracket with optional surrounding whitespace — wherever the functor is
/// followed by `(`; otherwise a variable.  A name directly applied to a
/// parenthesized argument list therefore parses as a compound, and the
/// same name without one as a variable.
pub open spec fn spec_term(s: Seq<char>, i: int) -> Parsed<TermV>
    decreases s.len() - i, 0int,
{
    if i < 0 || s.len() < i {
        Parsed::Fail { at: i }
    } else if i < s.len() && is_digit(s[i]) {
        spec_constant(s, i)
    } else {
        let e = ident_end(s, i);
        if e <= i {
            Parsed::Fail { at: i }
        } else {
            let name = s.subrange(i, e);
            let p = ws_end(s, e);
            if p < s.len() && s[p] == '(' {
                let q = ws_end(s, p + 1);
                match spec_term_list(s, q) {
                    Parsed::Found { next: k, val: args } => {
                        let r = ws_end(s, k);
                        if r < s.len() && s[r] == ')' {
                            Parsed::Found { next: ws_end(s, r + 1), val: TermV::Compound(name, args) }
                        } else {
                            Parsed::Found { next: e, val: TermV::Variable(name) }
                        }
                    },
                    Parsed::Overflow { at } => Parsed::Overflow { at },
                    Parsed::Fail { at: _ } => Parsed::Found { next: e, val: TermV::Variable(name) },
                }
            } else {
                Parsed::Found { next: e, val: TermV::Variable(name) }
            }
        }
    }
}

/// Argument-list rule: zero or more terms separated by a comma with
/// optional surrounding whitespace.  An empty list consumes nothing; the
/// rule itself never fails.
pub open spec fn spec_term_list(s: Seq<char>, i: int) -> Parsed<Seq<TermV>>
    decreases s.len() - i, 1int,
{
    if i < 0 || s.len() < i {
        Parsed::Fail { at: i }
    } else {
        match spec_term(s, i) {
            Parsed::Fail { at: _ } => Parsed::Found { next: i, val: Seq::empty() },
            Parsed::Overflow { at } => Parsed::Overflow { at },
            Parsed::Found { next: j, val: t } => {
                if i < j && j <= s.len() {
                    match spec_term_list_more(s, j) {
                        Parsed::Found { next: k, val: rest } => Parsed::Found {
                            next: k,
                            val: seq![t] + rest,
                        },
                        Parsed::Overflow { at } => Parsed::Overflow { at },
                        Parsed::Fail { at } => Parsed::Fail { at },
                    }
                } else {
                    Parsed::Found { next: j, val: seq![t] }
                }
            },
        }
    }
}

/// The tail of an argument list: repeatedly a separator and a term.  A
/// separator whose following term does not match is left unconsumed.
pub open spec fn spec_term_list_more(s: Seq<char>, j: int) -> Parsed<Seq<TermV>>
    decreases s.len() - j, 2int,
{
    if j < 0 || s.len() < j {
        Parsed::Fail { at: j }
    } else {
        let c = ws_end(s, j);
        if c < s.len() && s[c] == ',' {
            let k = ws_end(s, c + 1);
            match spec_term(s, k) {
                Parsed::Fail { at: _ } => Parsed::Found { next: j, val: Seq::empty() },
                Parsed::Overflow { at } => Parsed::Overflow { at },
                Parsed::Found { next: m, val: t } => {
                    if k < m && m <= s.len() {
                        match spec_term_list_more(s, m) {
                            Parsed::Found { next: e, val: rest } => Parsed::Found {
                                next: e,
                                val: seq![t] + rest,
                            },
                            Parsed::Overflow { at } => Parsed::Overflow { at },
                            Parsed::Fail { at } => Parsed::Fail { at },
                        }
                    } else {
                        Parsed::Found { next: m, val: seq![t] }
                    }
                },
            }
        } else {
            Parsed::Found { next: j, val: Seq::empty() }
        }
    }
}

/// The fallback of the atom rule: a single term, wrapped into an atom
/// whose name is the term's rendered form.
pub open spec fn spec_atom_fallback(s: Seq<char>, i: int) -> Parsed<AtomV> {
    match spec_term(s, i) {
        Parsed::Found { next: j, val: t } => Parsed::Found {
            next: j,
            val: AtomV { name: crate::render::term_debug(t), terms: seq![t] },
        },
        Parsed::Fail { at } => Parsed::Fail { at },
        Parsed::Overflow { at } => Parsed::Overflow { at },
    }
}

/// Atom rule.  First a predicate name applied to a parenthesized argument
/// list, consuming any whitespace after the closing `)`; if that does not
/// match, a single term stands in as a degenerate atom, named by its
/// rendered form and holding that one term.
pub open spec fn spec_atom(s: Seq<char>, i: int) -> Parsed<AtomV> {
    if i < 0 || s.len() < i {
        Parsed::Fail { at: i }
    } else {
        let e = ident_end(s, i);
        let p = ws_end(s, e);
        if i < e && p < s.len() && s[p] == '(' {
            let q = ws_end(s, p + 1);
            match spec_term_list(s, q) {
                Parsed::Found { next: k, val: args } => {
                    let r = ws_end(s, k);
                    if r < s.len() && s[r] == ')' {
                        Parsed::Found {
                            next: ws_end(s, r + 1),
                            val: AtomV { name: s.subrange(i, e), terms: args },
                        }
                    } else {
                        spec_atom_fallback(s, i)
                    }
                },
                Parsed::Overflow { at } => Parsed::Overflow { at },
                Parsed::Fail { at: _ } => spec_atom_fallback(s, i),
            }
        } else {
            spec_atom_fallback(s, i)
        }
    }
}

/// Body-list rule: zero or more atoms separated by a comma with optional
/// surrounding whitespace.  An empty list consumes nothing; the rule
/// itself never fails.
pub open spec fn spec_atom_list(s: Seq<char>, i: int) -> Parsed<Seq<AtomV>>
    decreases s.len() - i, 0int,
{
    if i < 0 || s.len() < i {
        Parsed::Fail { at: i }
    } else {
        match spec_atom(s, i) {
            Parsed::Fail { at: _ } => Parsed::Found { next: i, val: Seq::empty() },
            Parsed::Overflow { at } => Parsed::Overflow { at },
            Parsed::Found { next: j, val: a } => {
                if i < j && j <= s.len() {
                    match spec_atom_list_more(s, j) {
                        Parsed::Found { next: k, val: rest } => Parsed::Found {
                            next: k,
                            val: seq![a] + rest,
                        },
                        Parsed::Overflow { at } => Parsed::Overflow { at },
                        Parsed::Fail { at } => Parsed::Fail { at },
                    }
                } else {
                    Parsed::Found { next: j, val: seq![a] }
                }
            },
        }
    }
}

/// The tail of a body list: repeatedly a separator and an atom.  A
/// separator whose following atom does not match is left unconsumed.
pub open spec fn spec_atom_list_more(s: Seq<char>, j: int) -> Parsed<Seq<AtomV>>
    decreases s.len() - j, 1int,
{
    if j < 0 || s.len() < j {
        Parsed::Fail { at: j }
    } else {
        let c = ws_end(s, j);
        if c < s.len() && s[c] == ',' {
            let k = ws_end(s, c + 1);
            match spec_atom(s, k) {
                Parsed::Fail { at: _ } => Parsed::Found { next: j, val: Seq::empty() },
                Parsed::Overflow { at } => Parsed::Overflow { at },
                Parsed::Found { next: m, val: a } => {
                    if k < m && m <= s.len() {
                        match spec_atom_list_more(s, m) {
                            Parsed::Found { next: e, val: rest } => Parsed::Found {
                                next: e,
                                val: seq![a] + rest,
                            },
                            Parsed::Overflow { at } => Parsed::Overflow { at },
                            Parsed::Fail { at } => Parsed::Fail { at },
                        }
                    } else {
                        Parsed::Found { next: m, val: seq![a] }
                    }
                },
            }
        } else {
            Parsed::Found { next: j, val: Seq::empty() }
        }
    }
}

/// Fact rule: an atom followed, whitespace-tolerantly, by the terminator
/// `.`.
pub open spec fn spec_fact(s: Seq<char>, i: int) -> Parsed<ClauseV> {
    match spec_atom(s, i) {
        Parsed::Found { next: j, val: a } => {
            let p = ws_end(s, j);
            if p < s.len() && s[p] == '.' {
                Parsed::Found { next: p + 1, val: ClauseV::Fact(a) }
            } else {
                Parsed::Fail { at: p }
            }
        },
        Parsed::Fail { at } => Parsed::Fail { at },
        Parsed::Overflow { at } => Parsed::Overflow { at },
    }
}

/// Rule rule: a head atom, the token `:-`, a body list and the terminator
/// `.`, all whitespace-tolerant.
pub open spec fn spec_rule(s: Seq<char>, i: int) -> Parsed<ClauseV> {
    match spec_atom(s, i) {
        Parsed::Found { next: j, val: h } => {
            let p = ws_end(s, j);
            if p + 2 <= s.len() && s[p] == ':' && s[p + 1] == '-' {
                let q = ws_end(s, p + 2);
                match spec_atom_list(s, q) {
                    Parsed::Found { next: k, val: body } => {
                        let r = ws_end(s, k);
                        if r < s.len() && s[r] == '.' {
                            Parsed::Found { next: r + 1, val: ClauseV::Rule(h, body) }
                        } else {
                            Parsed::Fail { at: r }
                        }
                    },
                    Parsed::Overflow { at } => Parsed::Overflow { at },
                    Parsed::Fail { at } => Parsed::Fail { at },
                }
            } else {
                Parsed::Fail { at: p }
            }
        },
        Parsed::Fail { at } => Parsed::Fail { at },
        Parsed::Overflow { at } => Parsed::Overflow { at },
    }
}

/// Clause rule: a rule if it matches, else a fact.  A rule is tried first
/// since a fact's shape is a prefix of a rule's; when both alternatives
/// give up, the fact's report stands.
pub open spec fn spec_clause(s: Seq<char>, i: int) -> Parsed<ClauseV> {
    match spec_rule(s, i) {
        Parsed::Found { next, val } => Parsed::Found { next, val },
        Parsed::Overflow { at } => Parsed::Overflow { at },
        Parsed::Fail { at: _ } => spec_fact(s, i),
    }
}

/// One or more clauses from a position holding a non-whitespace character:
/// a clause, then — wherever at least one whitespace character follows —
/// the next clause, until the end of the input or a clause followed by
/// neither whitespace nor the end.  A clause that is due and does not
/// match makes the whole sequence fail.
pub open spec fn spec_clauses(s: Seq<char>, i: int) -> Parsed<Seq<ClauseV>>
    decreases s.len() - i,
{
    if i < 0 || s.len() < i {
        Parsed::Fail { at: i }
    } else {
        match spec_clause(s, i) {
            Parsed::Fail { at } => Parsed::Fail { at },
            Parsed::Overflow { at } => Parsed::Overflow { at },
            Parsed::Found { next: j, val: c } => {
                if i < j && j <= s.len() {
                    let k = ws_end(s, j);
                    if k == s.len() {
                        Parsed::Found { next: k, val: seq![c] }
                    } else if j < k {
                        match spec_clauses(s, k) {
                            Parsed::Found { next: e, val: rest } => Parsed::Found {
                                next: e,
                                val: seq![c] + rest,
                            },
                            Parsed::Fail { at } => Parsed::Fail { at },
                            Parsed::Overflow { at } => Parsed::Overflow { at },
                        }
                    } else {
                        Parsed::Found { next: j, val: seq![c] }
                    }
                } else {
                    Parsed::Found { next: j, val: seq![c] }
                }
            },
        }
    }
}

/// Program rule: leading whitespace, then clauses separated by whitespace.
/// An empty or all-whitespace input is the empty program; any text after
/// the last clause that no whitespace separates from it is left as the
/// unconsumed remainder.
pub open spec fn spec_program(s: Seq<char>) -> Parsed<Seq<ClauseV>> {
    let i = ws_end(s, 0);
    if i == s.len() {
        Parsed::Found { next: i, val: Seq::empty() }
    } else {
        spec_clauses(s, i)
    }
}

/// What the whitespace scan returns: the first non-whitespace position.
pub proof fn lemma_ws_end(s: Seq<char>, i: int)
    requires
        0 <= i <= s.len(),
    ensures
        i <= ws_end(s, i) <= s.len(),
        forall|k: int| i <= k < ws_end(s, i) ==> is_ws(#[trigger] s[k]),
        ws_end(s, i) < s.len() ==> !is_ws(s[ws_end(s, i)]),
    decreases s.len() - i,
{
    if i < s.len() && is_ws(s[i]) {
        lemma_ws_end(s, i + 1);
    }
}

/// What the digit scan returns: the first non-digit position.
pub proof fn lemma_digit_end(s: Seq<char>, i: int)
    requires
        0 <= i <= s.len(),
    ensures
        i <= digit_end(s, i) <= s.len(),
        forall|k: int| i <= k < digit_end(s, i) ==> is_digit(#[trigger] s[k]),
        digit_end(s, i) < s.len() ==> !is_digit(s[digit_end(s, i)]),
    decreases s.len() - i,
{
    if i < s.len() && is_digit(s[i]) {
        lemma_digit_end(s, i + 1);
    }
}

/// What the identifier scan returns: the first non-identifier position.
pub proof fn lemma_ident_end(s: Seq<char>, i: int)
    requires
        0 <= i <= s.len(),
    ensures
        i <= ident_end(s, i) <= s.len(),
        forall|k: int| i <= k < ident_end(s, i) ==> is_ident(#[trigger] s[k]),
        ident_end(s, i) < s.len() ==> !is_ident(s[ident_end(s, i)]),
    decreases s.len() - i,
{
    if i < s.len() && is_ident(s[i]) {
        lemma_ident_end(s, i + 1);
    }
}

/// The value of a digit sequence is non-negative.
pub proof fn lemma_dec_value_nonneg(d: Seq<char>)
    requires
        forall|k: int| 0 <= k < d.len() ==> is_digit(#[trigger] d[k]),
    ensures
        0 <= dec_value(d),
    decreases d.len(),
{
    if d.len() > 0 {
        lemma_dec_value_nonneg(d.drop_last());
    }
}

/// Appending a digit multiplies the value by ten and adds the digit.
pub proof fn lemma_dec_value_push(d: Seq<char>, c: char)
    ensures
        dec_value(d.push(c)) == dec_value(d) * 10 + (c as int - '0' as int),
{
    assert(d.push(c).drop_last() =~= d);
    assert(d.push(c).last() == c);
}

/// The value of a digit run only grows as the run extends.
pub proof fn lemma_dec_value_mono(s: Seq<char>, i: int, m: int, e: int)
    requires
        0 <= i <= m <= e <= s.len(),
        forall|k: int| i <= k < e ==> is_digit(#[trigger] s[k]),
    ensures
        dec_value(s.subrange(i, m)) <= dec_value(s.subrange(i, e)),
    decreases e - m,
{
    if m < e {
        lemma_dec_value_mono(s, i, m, e - 1);
        assert(s.subrange(i, e).drop_last() =~= s.subrange(i, e - 1));
        lemma_dec_value_nonneg(s.subrange(i, e - 1));
        assert(is_digit(s.subrange(i, e).last()));
    }
}

/// A matched term consumes at least one character and stays in bounds.
pub proof fn lemma_term_progress(s: Seq<char>, i: int)
    requires
        0 <= i <= s.len(),
    ensures
        spec_term(s, i) matches Parsed::Found { next, .. } ==> i < next <= s.len(),
        spec_term(s, i) matches Parsed::Fail { at } ==> at == i,
        spec_term(s, i) matches Parsed::Overflow { at } ==> 0 <= at <= s.len(),
    decreases s.len() - i, 0int,
{
    if i < s.len() && is_digit(s[i]) {
        lemma_digit_end(s, i);
    } else {
        let e = ident_end(s, i);
        lemma_ident_end(s, i);
        if i < e {
            let p = ws_end(s, e);
            lemma_ws_end(s, e);
            if p < s.len() && s[p] == '(' {
                let q = ws_end(s, p + 1);
                lemma_ws_end(s, p + 1);
                lemma_term_list_progress(s, q);
                if let Parsed::Found { next: k, val: _ } = spec_term_list(s, q) {
                    let r = ws_end(s, k);
                    lemma_ws_end(s, k);
                    if r < s.len() && s[r] == ')' {
                        lemma_ws_end(s, r + 1);
                    }
                }
            }
        }
    }
}

/// A term list never fails and never moves backwards or out of bounds.
pub proof fn lemma_term_list_progress(s: Seq<char>, i: int)
    requires
        0 <= i <= s.len(),
    ensures
        spec_term_list(s, i) matches Parsed::Found { next, .. } ==> i <= next <= s.len(),
        !(spec_term_list(s, i) matches Parsed::Fail { .. }),
        spec_term_list(s, i) matches Parsed::Overflow { at } ==> 0 <= at <= s.len(),
    decreases s.len() - i, 1int,
{
    lemma_term_progress(s, i);
    if let Parsed::Found { next: j, val: _ } = spec_term(s, i) {
        lemma_term_list_more_progress(s, j);
    }
}

/// The tail of a term list never fails and never moves backwards.
pub proof fn lemma_term_list_more_progress(s: Seq<char>, j: int)
    requires
        0 <= j <= s.len(),
    ensures
        spec_term_list_more(s, j) matches Parsed::Found { next, .. } ==> j <= next <= s.len(),
        !(spec_term_list_more(s, j) matches Parsed::Fail { .. }),
        spec_term_list_more(s, j) matches Parsed::Overflow { at } ==> 0 <= at <= s.len(),
    decreases s.len() - j, 2int,
{
    let c = ws_end(s, j);
    lemma_ws_end(s, j);
    if c < s.len() && s[c] == ',' {
        let k = ws_end(s, c + 1);
        lemma_ws_end(s, c + 1);
        lemma_term_progress(s, k);
        if let Parsed::Found { next: m, val: _ } = spec_term(s, k) {
            lemma_term_list_more_progress(s, m);
        }
    }
}

/// A matched atom consumes at least one character and stays in bounds.
pub proof fn lemma_atom_progress(s: Seq<char>, i: int)
    requires
        0 <= i <= s.len(),
    ensures
        spec_atom(s, i) matches Parsed::Found { next, .. } ==> i < next <= s.len(),
        spec_atom(s, i) matches Parsed::Fail { at } ==> at == i,
        spec_atom(s, i) matches Parsed::Overflow { at } ==> 0 <= at <= s.len(),
{
    let e = ident_end(s, i);
    lemma_ident_end(s, i);
    let p = ws_end(s, e);
    lemma_ws_end(s, e);
    lemma_term_progress(s, i);
    if i < e && p < s.len() && s[p] == '(' {
        let q = ws_end(s, p + 1);
        lemma_ws_end(s, p + 1);
        lemma_term_list_progress(s, q);
        if let Parsed::Found { next: k, val: _ } = spec_term_list(s, q) {
            let r = ws_end(s, k);
            lemma_ws_end(s, k);
            if r < s.len() && s[r] == ')' {
                lemma_ws_end(s, r + 1);
            }
        }
    }
}

/// A body list never fails and never moves backwards or out of bounds.
pub proof fn lemma_atom_list_progress(s: Seq<char>, i: int)
    requires
        0 <= i <= s.len(),
    ensures
        spec_atom_list(s, i) matches Parsed::Found { next, .. } ==> i <= next <= s.len(),
        !(spec_atom_list(s, i) matches Parsed::Fail { .. }),
        spec_atom_list(s, i) matches Parsed::Overflow { at } ==> 0 <= at <= s.len(),
    decreases s.len() - i, 0int,
{
    lemma_atom_progress(s, i);
    if let Parsed::Found { next: j, val: _ } = spec_atom(s, i) {
        lemma_atom_list_more_progress(s, j);
    }
}

/// The tail of a body list never fails and never moves backwards.
pub proof fn lemma_atom_list_more_progress(s: Seq<char>, j: int)
    requires
        0 <= j <= s.len(),
    ensures
        spec_atom_list_more(s, j) matches Parsed::Found { next, .. } ==> j <= next <= s.len(),
        !(spec_atom_list_more(s, j) matches Parsed::Fail { .. }),
        spec_atom_list_more(s, j) matches Parsed::Overflow { at } ==> 0 <= at <= s.len(),
    decreases s.len() - j, 1int,
{
    let c = ws_end(s, j);
    lemma_ws_end(s, j);
    if c < s.len() && s[c] == ',' {
        let k = ws_end(s, c + 1);
        lemma_ws_end(s, c + 1);
        lemma_atom_progress(s, k);
        if let Parsed::Found { next: m, val: _ } = spec_atom(s, k) {
            lemma_atom_list_more_progress(s, m);
        }
    }
}

/// A matched clause consumes at least one character and stays in bounds.
pub proof fn lemma_clause_progress(s: Seq<char>, i: int)
    requires
        0 <= i <= s.len(),
    ensures
        spec_fact(s, i) matches Parsed::Found { next, .. } ==> i < next <= s.len(),
        spec_rule(s, i) matches Parsed::Found { next, .. } ==> i < next <= s.len(),
        spec_clause(s, i) matches Parsed::Found { next, .. } ==> i < next <= s.len(),
        spec_fact(s, i) matches Parsed::Fail { at } ==> 0 <= at <= s.len(),
        spec_rule(s, i) matches Parsed::Fail { at } ==> 0 <= at <= s.len(),
        spec_clause(s, i) matches Parsed::Fail { at } ==> 0 <= at <= s.len(),
        spec_fact(s, i) matches Parsed::Overflow { at } ==> 0 <= at <= s.len(),
        spec_rule(s, i) matches Parsed::Overflow { at } ==> 0 <= at <= s.len(),
        spec_clause(s, i) matches Parsed::Overflow { at } ==> 0 <= at <= s.len(),
{
    lemma_atom_progress(s, i);
    if let Parsed::Found { next: j, val: _ } = spec_atom(s, i) {
        let p = ws_end(s, j);
        lemma_ws_end(s, j);
        if p + 2 <= s.len() && s[p] == ':' && s[p + 1] == '-' {
            let q = ws_end(s, p + 2);
            lemma_ws_end(s, p + 2);
            lemma_atom_list_progress(s, q);
            if let Parsed::Found { next: k, val: _ } = spec_atom_list(s, q) {
                lemma_ws_end(s, k);
            }
        }
    }
}

/// A matched clause sequence consumes at least one character and stays in
/// bounds.
pub proof fn lemma_clauses_progress(s: Seq<char>, i: int)
    requires
        0 <= i <= s.len(),
    ensures
        spec_clauses(s, i) matches Parsed::Found { next, .. } ==> i < next <= s.len(),
        spec_clauses(s, i) matches Parsed::Fail { at } ==> 0 <= at <= s.len(),
        spec_clauses(s, i) matches Parsed::Overflow { at } ==> 0 <= at <= s.len(),
    decreases s.len() - i,
{
    lemma_clause_progress(s, i);
    if let Parsed::Found { next: j, val: _ } = spec_clause(s, i) {
        if i < j && j <= s.len() {
            let k = ws_end(s, j);
            lemma_ws_end(s, j);
            if k < s.len() && j < k {
                lemma_clauses_progress(s, k);
            }
        }
    }
}

} // verus!
