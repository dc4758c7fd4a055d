//! The canonical text of a clause, and the round-trip law: a well-formed
//! clause value, written out in canonical syntax, parses back to exactly
//! itself.
//!
//! Well-formedness asks of a value no more than the shape the grammar can
//! produce through the predicate-name form: identifier names that do not
//! collide with the constant rule, and constants within the 32-bit range.
//! A degenerate atom — one named by a term's rendered form — falls outside
//! it, and outside the law.

use vstd::prelude::*;
use vstd::string::*;

use crate::ast::{
    atom_view, atoms_view, clause_view, term_view, terms_view, AtomV, ClauseV, PrologAtom,
    PrologClause, PrologTerm, TermV,
};
use crate::grammar::{
    dec_value, digit_end, ident_end, is_digit, is_ident, is_ws, lemma_digit_end, lemma_ident_end,
    spec_atom, spec_atom_list, spec_atom_list_more, spec_clause, spec_fact, spec_rule, spec_term,
    spec_term_list, spec_term_list_more, ws_end, Parsed,
};
use crate::render::{dec_digits, dec_str, digit_char, int_str};

verus! {

/// A character on which every token scan stops: what may directly follow
/// a well-formed term or atom in canonical text.
pub open spec fn is_stopper(c: char) -> bool {
    c == ',' || c == ')' || c == '.' || c == ':'
}

/// A name the variable or functor rule can read back: identifier
/// characters, at least one, not starting with a digit.
pub open spec fn wf_name(name: Seq<char>) -> bool {
    &&& name.len() >= 1
    &&& forall|k: int| 0 <= k < name.len() ==> is_ident(#[trigger] name[k])
    &&& !is_digit(name[0])
}

/// A predicate name the atom rule can read back: identifier characters,
/// at least one.  A leading digit is allowed here, since the atom rule
/// never tries the constant rule on its name.
pub open spec fn wf_pred_name(name: Seq<char>) -> bool {
    &&& name.len() >= 1
    &&& forall|k: int| 0 <= k < name.len() ==> is_ident(#[trigger] name[k])
}

/// A term the term rule can read back.
pub open spec fn wf_term(t: TermV) -> bool
    decreases t,
{
    match t {
        TermV::Constant(n) => 0 <= n <= i32::MAX as int,
        TermV::Variable(name) => wf_name(name),
        TermV::Compound(f, args) => wf_name(f) && wf_terms(args),
    }
}

/// Terms the argument-list rule can read back.
pub open spec fn wf_terms(ts: Seq<TermV>) -> bool
    decreases ts,
{
    forall|k: int| 0 <= k < ts.len() ==> wf_term(#[trigger] ts[k])
}

/// An atom the atom rule can read back through its predicate-name form.
pub open spec fn wf_atom(a: AtomV) -> bool {
    wf_pred_name(a.name) && wf_terms(a.terms)
}

/// A clause whose head and body atoms are all well formed.
pub open spec fn wf_clause(c: ClauseV) -> bool {
    match c {
        ClauseV::Fact(a) => wf_atom(a),
        ClauseV::Rule(h, body) => wf_atom(h) && forall|k: int|
            0 <= k < body.len() ==> wf_atom(#[trigger] body[k]),
    }
}

/// The canonical text of a term.
pub open spec fn term_text(t: TermV) -> Seq<char>
    decreases t,
{
    match t {
        TermV::Constant(n) => int_str(n),
        TermV::Variable(name) => name,
        TermV::Compound(f, args) => f + seq!['('] + terms_text(args) + seq![')'],
    }
}

/// The canonical text of an argument list: the terms separated by commas.
pub open spec fn terms_text(ts: Seq<TermV>) -> Seq<char>
    decreases ts,
{
    if ts.len() == 0 {
        Seq::empty()
    } else {
        term_text(ts[0]) + terms_rest_text(ts.subrange(1, ts.len() as int))
    }
}

/// The canonical text of the tail of an argument list: a comma before
/// each further term.
pub open spec fn terms_rest_text(rs: Seq<TermV>) -> Seq<char>
    decreases rs,
{
    if rs.len() == 0 {
        Seq::empty()
    } else {
        seq![','] + term_text(rs[0]) + terms_rest_text(rs.subrange(1, rs.len() as int))
    }
}

/// The canonical text of an atom.
pub open spec fn atom_text(a: AtomV) -> Seq<char> {
    a.name + seq!['('] + terms_text(a.terms) + seq![')']
}

/// The canonical text of a rule body: the atoms separated by commas.
pub open spec fn atoms_text(bs: Seq<AtomV>) -> Seq<char>
    decreases bs.len(),
{
    if bs.len() == 0 {
        Seq::empty()
    } else {
        atom_text(bs[0]) + atoms_rest_text(bs.subrange(1, bs.len() as int))
    }
}

/// The canonical text of the tail of a rule body.
pub open spec fn atoms_rest_text(rs: Seq<AtomV>) -> Seq<char>
    decreases rs.len(),
{
    if rs.len() == 0 {
        Seq::empty()
    } else {
        seq![','] + atom_text(rs[0]) + atoms_rest_text(rs.subrange(1, rs.len() as int))
    }
}

/// The canonical text of a clause: `head.` for a fact and
/// `head:-body.` for a rule.
pub open spec fn clause_text(c: ClauseV) -> Seq<char> {
    match c {
        ClauseV::Fact(a) => atom_text(a) + seq!['.'],
        ClauseV::Rule(h, body) => atom_text(h) + seq![':', '-'] + atoms_text(body) + seq!['.'],
    }
}

/// An identifier run bounded on the right ends exactly there.
proof fn lemma_ident_end_exact(s: Seq<char>, i: int, j: int)
    requires
        0 <= i <= j <= s.len(),
        forall|k: int| i <= k < j ==> is_ident(#[trigger] s[k]),
        j == s.len() || !is_ident(s[j]),
    ensures
        ident_end(s, i) == j,
    decreases j - i,
{
    if i < j {
        lemma_ident_end_exact(s, i + 1, j);
        lemma_ident_end(s, i + 1);
    }
}

/// A digit run bounded on the right ends exactly there.
proof fn lemma_digit_end_exact(s: Seq<char>, i: int, j: int)
    requires
        0 <= i <= j <= s.len(),
        forall|k: int| i <= k < j ==> is_digit(#[trigger] s[k]),
        j == s.len() || !is_digit(s[j]),
    ensures
        digit_end(s, i) == j,
    decreases j - i,
{
    if i < j {
        lemma_digit_end_exact(s, i + 1, j);
        lemma_digit_end(s, i + 1);
    }
}

/// The decimal rendering of a non-negative value holds digits alone.
proof fn lemma_dec_str_digits(n: int)
    requires
        n >= 0,
    ensures
        dec_str(n).len() >= 1,
        forall|k: int| 0 <= k < dec_str(n).len() ==> is_digit(#[trigger] dec_str(n)[k]),
    decreases n,
{
    if n > 0 {
        reveal_with_fuel(dec_digits, 2);
        if n / 10 > 0 {
            lemma_dec_str_digits(n / 10);
        } else {
            assert(dec_digits(n / 10) == Seq::<char>::empty());
        }
        assert(is_digit(digit_char(n % 10)));
        assert forall|k: int| 0 <= k < dec_str(n).len() implies is_digit(dec_str(n)[k]) by {
            if k < dec_str(n).len() - 1 {
                assert(dec_str(n)[k] == dec_digits(n / 10)[k]);
            } else {
                assert(dec_str(n)[k] == digit_char(n % 10));
            }
        }
    }
}

/// The decimal rendering of a non-negative value reads back as itself.
proof fn lemma_dec_str_value(n: int)
    requires
        n >= 0,
    ensures
        dec_value(dec_str(n)) == n,
    decreases n,
{
    reveal_with_fuel(dec_value, 2);
    reveal_with_fuel(dec_digits, 2);
    if n == 0 {
        assert(seq!['0'].drop_last() =~= Seq::<char>::empty());
        assert(seq!['0'].last() == '0');
        assert(dec_value(seq!['0']) == dec_value(Seq::<char>::empty()) * 10 + ('0' as int
            - '0' as int));
    } else {
        assert(0 <= n % 10 < 10);
        assert(digit_char(n % 10) as int - '0' as int == n % 10);
        if n / 10 > 0 {
            lemma_dec_str_value(n / 10);
        } else {
            assert(dec_digits(n / 10) == Seq::<char>::empty());
        }
        assert(dec_digits(n).drop_last() =~= dec_digits(n / 10));
        assert(dec_digits(n).last() == digit_char(n % 10));
        assert(dec_value(dec_digits(n)) == dec_value(dec_digits(n / 10)) * 10 + (n % 10));
    }
}

/// `txt` stands embedded in `s` at position `i`.
pub open spec fn embedded(s: Seq<char>, i: int, txt: Seq<char>) -> bool {
    &&& 0 <= i
    &&& i + txt.len() <= s.len()
    &&& s.subrange(i, i + txt.len() as int) == txt
}

/// An embedded text is read back character by character.
proof fn lemma_embed_chars(s: Seq<char>, i: int, txt: Seq<char>)
    requires
        embedded(s, i, txt),
    ensures
        forall|k: int| 0 <= k < txt.len() ==> s[i + k] == #[trigger] txt[k],
{
    assert forall|k: int| 0 <= k < txt.len() implies s[i + k] == #[trigger] txt[k] by {
        assert(s.subrange(i, i + txt.len() as int)[k] == s[i + k]);
    }
}

/// The canonical text of a well-formed term starts with an identifier
/// character and is never empty.
proof fn lemma_term_text_first(t: TermV)
    requires
        wf_term(t),
    ensures
        term_text(t).len() >= 1,
        is_ident(term_text(t)[0]),
        !is_ws(term_text(t)[0]),
        term_text(t)[0] != '(',
{
    match t {
        TermV::Constant(n) => {
            lemma_dec_str_digits(n);
        },
        TermV::Variable(name) => {},
        TermV::Compound(f, args) => {
            assert(term_text(t)[0] == f[0]);
        },
    }
}

/// An embedding of a concatenation embeds each part.
proof fn lemma_embed_split(s: Seq<char>, i: int, a: Seq<char>, b: Seq<char>)
    requires
        embedded(s, i, a + b),
    ensures
        embedded(s, i, a),
        embedded(s, i + a.len(), b),
{
    let ab = a + b;
    lemma_embed_chars(s, i, ab);
    assert(s.subrange(i, i + a.len() as int) =~= a) by {
        assert forall|k: int| 0 <= k < a.len() implies s.subrange(i, i + a.len() as int)[k]
            == a[k] by {
            assert(s[i + k] == ab[k]);
        }
    }
    assert(s.subrange(i + a.len(), i + a.len() + b.len() as int) =~= b) by {
        assert forall|k: int|
            0 <= k < b.len() implies s.subrange(i + a.len(), i + a.len() + b.len() as int)[k]
            == b[k] by {
            assert(s[i + a.len() + k] == ab[a.len() + k]);
        }
    }
}

/// An embedding of a single character is that character.
proof fn lemma_embed_char(s: Seq<char>, i: int, c: char)
    requires
        embedded(s, i, seq![c]),
    ensures
        0 <= i < s.len() && s[i] == c,
{
    lemma_embed_chars(s, i, seq![c]);
    assert(s[i + 0] == seq![c][0]);
}

/// A well-formed term embedded before a stopper parses back to itself.
proof fn lemma_term_embed(t: TermV, s: Seq<char>, i: int)
    requires
        wf_term(t),
        embedded(s, i, term_text(t)),
        i + term_text(t).len() == s.len() || is_stopper(s[i + term_text(t).len()]),
    ensures
        spec_term(s, i) == (Parsed::Found { next: i + term_text(t).len(), val: t }),
    decreases t,
{
    let txt = term_text(t);
    let j = i + txt.len();
    lemma_embed_chars(s, i, txt);
    lemma_term_text_first(t);
    match t {
        TermV::Constant(n) => {
            lemma_dec_str_digits(n);
            lemma_dec_str_value(n);
            assert forall|k: int| i <= k < j implies is_digit(#[trigger] s[k]) by {
                assert(s[i + (k - i)] == txt[k - i]);
                assert(is_digit(dec_str(n)[k - i]));
            }
            lemma_digit_end_exact(s, i, j);
            assert(s.subrange(i, j) == txt);
        },
        TermV::Variable(name) => {
            assert forall|k: int| i <= k < j implies is_ident(#[trigger] s[k]) by {
                assert(s[i + (k - i)] == txt[k - i]);
            }
            lemma_ident_end_exact(s, i, j);
            assert(s.subrange(i, j) == name);
            assert(ws_end(s, j) == j);
            assert(!is_digit(s[i])) by {
                assert(s[i + 0] == txt[0]);
            }
        },
        TermV::Compound(f, args) => {
            let e0 = i + f.len();
            let q0 = e0 + 1;
            let inner = terms_text(args);
            let k0 = q0 + inner.len();
            assert(txt == ((f + seq!['(']) + inner) + seq![')']);
            lemma_embed_split(s, i, (f + seq!['(']) + inner, seq![')']);
            lemma_embed_split(s, i, f + seq!['('], inner);
            lemma_embed_split(s, i, f, seq!['(']);
            lemma_embed_char(s, e0, '(');
            lemma_embed_char(s, k0, ')');
            lemma_embed_chars(s, i, f);
            assert forall|k: int| i <= k < e0 implies is_ident(#[trigger] s[k]) by {
                assert(s[i + (k - i)] == f[k - i]);
            }
            lemma_ident_end_exact(s, i, e0);
            assert(s.subrange(i, e0) == f);
            assert(!is_digit(s[i])) by {
                assert(s[i + 0] == f[0]);
            }
            assert(ws_end(s, e0) == e0);
            assert(ws_end(s, q0) == q0) by {
                if inner.len() == 0 {
                    assert(s[q0] == ')');
                } else {
                    lemma_term_text_first(args[0]);
                    assert(inner == term_text(args[0]) + terms_rest_text(
                        args.subrange(1, args.len() as int),
                    ));
                    lemma_embed_chars(s, q0, inner);
                    assert(s[q0 + 0] == inner[0]);
                    assert(inner[0] == term_text(args[0])[0]);
                }
            }
            lemma_terms_embed(args, s, q0);
            assert(ws_end(s, k0) == k0);
            assert(ws_end(s, k0 + 1) == j);
            assert(spec_term_list(s, ws_end(s, q0)) == (Parsed::Found { next: k0, val: args }));
        },
    }
}

/// A well-formed argument list embedded before its closing `)` parses
/// back to itself.
proof fn lemma_terms_embed(ts: Seq<TermV>, s: Seq<char>, i: int)
    requires
        wf_terms(ts),
        embedded(s, i, terms_text(ts)),
        i + terms_text(ts).len() < s.len(),
        s[i + terms_text(ts).len()] == ')',
    ensures
        spec_term_list(s, i) == (Parsed::Found { next: i + terms_text(ts).len(), val: ts }),
    decreases ts,
{
    let txt = terms_text(ts);
    let j = i + txt.len();
    if ts.len() == 0 {
        assert(j == i);
        assert(s[i] == ')');
        assert(ident_end(s, i) == i);
        assert(spec_term(s, i) == (Parsed::Fail::<TermV> { at: i }));
        assert(Seq::<TermV>::empty() =~= ts);
    } else {
        let t0 = ts[0];
        let tail = ts.subrange(1, ts.len() as int);
        let t0txt = term_text(t0);
        let resttxt = terms_rest_text(tail);
        assert(txt == t0txt + resttxt);
        let j0 = i + t0txt.len();
        lemma_embed_split(s, i, t0txt, resttxt);
        assert(j0 == s.len() || is_stopper(s[j0])) by {
            if resttxt.len() == 0 {
                assert(j0 == j);
            } else {
                assert(resttxt == (seq![','] + term_text(tail[0])) + terms_rest_text(
                    tail.subrange(1, tail.len() as int),
                ));
                assert(resttxt[0] == ',') by {
                    assert((seq![','] + term_text(tail[0]))[0] == ',');
                }
                lemma_embed_chars(s, j0, resttxt);
                assert(s[j0 + 0] == resttxt[0]);
            }
        }
        lemma_term_embed(t0, s, i);
        lemma_term_text_first(t0);
        lemma_terms_more_embed(tail, s, j0);
        assert(seq![t0] + tail =~= ts);
    }
}

/// A well-formed argument-list tail embedded before its closing `)`
/// parses back to itself.
proof fn lemma_terms_more_embed(rs: Seq<TermV>, s: Seq<char>, j0: int)
    requires
        wf_terms(rs),
        embedded(s, j0, terms_rest_text(rs)),
        j0 + terms_rest_text(rs).len() < s.len(),
        s[j0 + terms_rest_text(rs).len()] == ')',
    ensures
        spec_term_list_more(s, j0) == (Parsed::Found {
            next: j0 + terms_rest_text(rs).len(),
            val: rs,
        }),
    decreases rs,
{
    let txt = terms_rest_text(rs);
    let jend = j0 + txt.len();
    if rs.len() == 0 {
        assert(s[j0] == ')');
        assert(ws_end(s, j0) == j0);
        assert(Seq::<TermV>::empty() =~= rs);
    } else {
        let r0 = rs[0];
        let tail = rs.subrange(1, rs.len() as int);
        let r0txt = term_text(r0);
        let resttxt = terms_rest_text(tail);
        assert(txt == (seq![','] + r0txt) + resttxt);
        let k = j0 + 1;
        let m = k + r0txt.len();
        lemma_embed_split(s, j0, seq![','] + r0txt, resttxt);
        lemma_embed_split(s, j0, seq![','], r0txt);
        lemma_embed_char(s, j0, ',');
        assert(ws_end(s, j0) == j0);
        lemma_term_text_first(r0);
        assert(ws_end(s, k) == k) by {
            lemma_embed_chars(s, k, r0txt);
            assert(s[k + 0] == r0txt[0]);
        }
        assert(m == s.len() || is_stopper(s[m])) by {
            if resttxt.len() == 0 {
                assert(m == jend);
            } else {
                assert(resttxt == (seq![','] + term_text(tail[0])) + terms_rest_text(
                    tail.subrange(1, tail.len() as int),
                ));
                assert(resttxt[0] == ',') by {
                    assert((seq![','] + term_text(tail[0]))[0] == ',');
                }
                lemma_embed_chars(s, m, resttxt);
                assert(s[m + 0] == resttxt[0]);
            }
        }
        lemma_term_embed(r0, s, k);
        lemma_terms_more_embed(tail, s, m);
        assert(seq![r0] + tail =~= rs);
    }
}

/// The canonical text of a well-formed atom starts with an identifier
/// character and is never empty.
proof fn lemma_atom_text_first(a: AtomV)
    requires
        wf_atom(a),
    ensures
        atom_text(a).len() >= 1,
        is_ident(atom_text(a)[0]),
        !is_ws(atom_text(a)[0]),
{
    assert(atom_text(a)[0] == a.name[0]);
}

/// A well-formed atom embedded before a stopper parses back to itself
/// through the predicate-name form.
proof fn lemma_atom_embed(a: AtomV, s: Seq<char>, i: int)
    requires
        wf_atom(a),
        embedded(s, i, atom_text(a)),
        i + atom_text(a).len() == s.len() || is_stopper(s[i + atom_text(a).len()]),
    ensures
        spec_atom(s, i) == (Parsed::Found { next: i + atom_text(a).len(), val: a }),
{
    let txt = atom_text(a);
    let j = i + txt.len();
    let f = a.name;
    let e0 = i + f.len();
    let q0 = e0 + 1;
    let inner = terms_text(a.terms);
    let k0 = q0 + inner.len();
    assert(txt == ((f + seq!['(']) + inner) + seq![')']);
    lemma_embed_split(s, i, (f + seq!['(']) + inner, seq![')']);
    lemma_embed_split(s, i, f + seq!['('], inner);
    lemma_embed_split(s, i, f, seq!['(']);
    lemma_embed_char(s, e0, '(');
    lemma_embed_char(s, k0, ')');
    lemma_embed_chars(s, i, f);
    assert forall|k: int| i <= k < e0 implies is_ident(#[trigger] s[k]) by {
        assert(s[i + (k - i)] == f[k - i]);
    }
    lemma_ident_end_exact(s, i, e0);
    assert(s.subrange(i, e0) == f);
    assert(ws_end(s, e0) == e0);
    assert(ws_end(s, q0) == q0) by {
        if inner.len() == 0 {
            assert(s[q0] == ')');
        } else {
            lemma_term_text_first(a.terms[0]);
            assert(inner == term_text(a.terms[0]) + terms_rest_text(
                a.terms.subrange(1, a.terms.len() as int),
            ));
            lemma_embed_chars(s, q0, inner);
            assert(s[q0 + 0] == inner[0]);
            assert(inner[0] == term_text(a.terms[0])[0]);
        }
    }
    lemma_terms_embed(a.terms, s, q0);
    assert(ws_end(s, k0) == k0);
    assert(ws_end(s, k0 + 1) == j);
    assert(spec_term_list(s, ws_end(s, q0)) == (Parsed::Found { next: k0, val: a.terms }));
    assert(spec_atom(s, i) == (Parsed::Found {
        next: j,
        val: AtomV { name: s.subrange(i, e0), terms: a.terms },
    }));
}

/// A well-formed rule body embedded before its terminating `.` parses
/// back to itself.
proof fn lemma_atoms_embed(bs: Seq<AtomV>, s: Seq<char>, i: int)
    requires
        forall|k: int| 0 <= k < bs.len() ==> wf_atom(#[trigger] bs[k]),
        embedded(s, i, atoms_text(bs)),
        i + atoms_text(bs).len() < s.len(),
        s[i + atoms_text(bs).len()] == '.',
    ensures
        spec_atom_list(s, i) == (Parsed::Found { next: i + atoms_text(bs).len(), val: bs }),
    decreases bs.len(),
{
    let txt = atoms_text(bs);
    let j = i + txt.len();
    if bs.len() == 0 {
        assert(j == i);
        assert(s[i] == '.');
        assert(ident_end(s, i) == i);
        assert(spec_term(s, i) == (Parsed::Fail::<TermV> { at: i }));
        assert(spec_atom(s, i) == (Parsed::Fail::<AtomV> { at: i }));
        assert(Seq::<AtomV>::empty() =~= bs);
    } else {
        let a0 = bs[0];
        let tail = bs.subrange(1, bs.len() as int);
        let a0txt = atom_text(a0);
        let resttxt = atoms_rest_text(tail);
        assert(txt == a0txt + resttxt);
        let j0 = i + a0txt.len();
        lemma_embed_split(s, i, a0txt, resttxt);
        assert(j0 == s.len() || is_stopper(s[j0])) by {
            if resttxt.len() == 0 {
                assert(j0 == j);
            } else {
                assert(resttxt == (seq![','] + atom_text(tail[0])) + atoms_rest_text(
                    tail.subrange(1, tail.len() as int),
                ));
                assert(resttxt[0] == ',') by {
                    assert((seq![','] + atom_text(tail[0]))[0] == ',');
                }
                lemma_embed_chars(s, j0, resttxt);
                assert(s[j0 + 0] == resttxt[0]);
            }
        }
        lemma_atom_embed(a0, s, i);
        lemma_atom_text_first(a0);
        lemma_atoms_more_embed(tail, s, j0);
        assert(seq![a0] + tail =~= bs);
    }
}

/// A well-formed rule-body tail embedded before its terminating `.`
/// parses back to itself.
proof fn lemma_atoms_more_embed(rs: Seq<AtomV>, s: Seq<char>, j0: int)
    requires
        forall|k: int| 0 <= k < rs.len() ==> wf_atom(#[trigger] rs[k]),
        embedded(s, j0, atoms_rest_text(rs)),
        j0 + atoms_rest_text(rs).len() < s.len(),
        s[j0 + atoms_rest_text(rs).len()] == '.',
    ensures
        spec_atom_list_more(s, j0) == (Parsed::Found {
            next: j0 + atoms_rest_text(rs).len(),
            val: rs,
        }),
    decreases rs.len(),
{
    let txt = atoms_rest_text(rs);
    let jend = j0 + txt.len();
    if rs.len() == 0 {
        assert(s[j0] == '.');
        assert(ws_end(s, j0) == j0);
        assert(Seq::<AtomV>::empty() =~= rs);
    } else {
        let r0 = rs[0];
        let tail = rs.subrange(1, rs.len() as int);
        let r0txt = atom_text(r0);
        let resttxt = atoms_rest_text(tail);
        assert(txt == (seq![','] + r0txt) + resttxt);
        let k = j0 + 1;
        let m = k + r0txt.len();
        lemma_embed_split(s, j0, seq![','] + r0txt, resttxt);
        lemma_embed_split(s, j0, seq![','], r0txt);
        lemma_embed_char(s, j0, ',');
        assert(ws_end(s, j0) == j0);
        lemma_atom_text_first(r0);
        assert(ws_end(s, k) == k) by {
            lemma_embed_chars(s, k, r0txt);
            assert(s[k + 0] == r0txt[0]);
        }
        assert(m == s.len() || is_stopper(s[m])) by {
            if resttxt.len() == 0 {
                assert(m == jend);
            } else {
                assert(resttxt == (seq![','] + atom_text(tail[0])) + atoms_rest_text(
                    tail.subrange(1, tail.len() as int),
                ));
                assert(resttxt[0] == ',') by {
                    assert((seq![','] + atom_text(tail[0]))[0] == ',');
                }
                lemma_embed_chars(s, m, resttxt);
                assert(s[m + 0] == resttxt[0]);
            }
        }
        lemma_atom_embed(r0, s, k);
        lemma_atoms_more_embed(tail, s, m);
        assert(seq![r0] + tail =~= rs);
    }
}

/// A clause whose atoms all bear identifier names: every parsed clause
/// without a degenerate atom.
pub open spec fn clause_names_ok(c: ClauseV) -> bool {
    match c {
        ClauseV::Fact(a) => wf_pred_name(a.name),
        ClauseV::Rule(h, body) => wf_pred_name(h.name) && forall|k: int|
            0 <= k < body.len() ==> wf_pred_name(#[trigger] body[k].name),
    }
}

/// A name the scanners produce is an identifier that no constant rule
/// claims.
proof fn lemma_scanned_name_wf(s: Seq<char>, i: int, e: int)
    requires
        0 <= i <= s.len(),
        e == ident_end(s, i),
        i < e,
        !(i < s.len() && is_digit(s[i])),
    ensures
        wf_name(s.subrange(i, e)),
{
    lemma_ident_end(s, i);
    let name = s.subrange(i, e);
    assert forall|k: int| 0 <= k < name.len() implies is_ident(#[trigger] name[k]) by {
        assert(name[k] == s[i + k]);
    }
    assert(name[0] == s[i]);
}

/// Every term the term rule yields is well formed.
proof fn lemma_parsed_term_wf(s: Seq<char>, i: int)
    requires
        0 <= i <= s.len(),
    ensures
        spec_term(s, i) matches Parsed::Found { val, .. } ==> wf_term(val),
    decreases s.len() - i, 0int,
{
    if i < s.len() && is_digit(s[i]) {
        crate::grammar::lemma_digit_end(s, i);
        let e = digit_end(s, i);
        let d = s.subrange(i, e);
        assert forall|k: int| 0 <= k < d.len() implies is_digit(#[trigger] d[k]) by {
            assert(d[k] == s[i + k]);
        }
        crate::grammar::lemma_dec_value_nonneg(d);
    } else {
        let e = ident_end(s, i);
        lemma_ident_end(s, i);
        if i < e {
            lemma_scanned_name_wf(s, i, e);
            let p = ws_end(s, e);
            crate::grammar::lemma_ws_end(s, e);
            if p < s.len() && s[p] == '(' {
                let q = ws_end(s, p + 1);
                crate::grammar::lemma_ws_end(s, p + 1);
                lemma_parsed_term_list_wf(s, q);
            }
        }
    }
}

/// Every argument list the list rule yields holds well-formed terms.
proof fn lemma_parsed_term_list_wf(s: Seq<char>, i: int)
    requires
        0 <= i <= s.len(),
    ensures
        spec_term_list(s, i) matches Parsed::Found { val, .. } ==> wf_terms(val),
    decreases s.len() - i, 1int,
{
    lemma_parsed_term_wf(s, i);
    crate::grammar::lemma_term_progress(s, i);
    if let Parsed::Found { next: j, val: t } = spec_term(s, i) {
        lemma_parsed_term_list_more_wf(s, j);
        if let Parsed::Found { next: _, val: rest } = spec_term_list_more(s, j) {
            assert forall|k: int| 0 <= k < (seq![t] + rest).len() implies wf_term(
                #[trigger] (seq![t] + rest)[k],
            ) by {
                if k > 0 {
                    assert((seq![t] + rest)[k] == rest[k - 1]);
                }
            }
        }
    }
}

/// Every argument-list tail the rule yields holds well-formed terms.
proof fn lemma_parsed_term_list_more_wf(s: Seq<char>, j: int)
    requires
        0 <= j <= s.len(),
    ensures
        spec_term_list_more(s, j) matches Parsed::Found { val, .. } ==> wf_terms(val),
    decreases s.len() - j, 2int,
{
    let c = ws_end(s, j);
    crate::grammar::lemma_ws_end(s, j);
    if c < s.len() && s[c] == ',' {
        let k = ws_end(s, c + 1);
        crate::grammar::lemma_ws_end(s, c + 1);
        lemma_parsed_term_wf(s, k);
        crate::grammar::lemma_term_progress(s, k);
        if let Parsed::Found { next: m, val: t } = spec_term(s, k) {
            lemma_parsed_term_list_more_wf(s, m);
            if let Parsed::Found { next: _, val: rest } = spec_term_list_more(s, m) {
                assert forall|q: int| 0 <= q < (seq![t] + rest).len() implies wf_term(
                    #[trigger] (seq![t] + rest)[q],
                ) by {
                    if q > 0 {
                        assert((seq![t] + rest)[q] == rest[q - 1]);
                    }
                }
            }
        }
    }
}

/// Every atom the atom rule yields holds well-formed terms; one that
/// bears an identifier name is then well formed outright.
proof fn lemma_parsed_atom_wf(s: Seq<char>, i: int)
    requires
        0 <= i <= s.len(),
    ensures
        spec_atom(s, i) matches Parsed::Found { val, .. } ==> wf_terms(val.terms),
{
    let e = ident_end(s, i);
    lemma_ident_end(s, i);
    let p = ws_end(s, e);
    crate::grammar::lemma_ws_end(s, e);
    lemma_parsed_term_wf(s, i);
    if i < e && p < s.len() && s[p] == '(' {
        let q = ws_end(s, p + 1);
        crate::grammar::lemma_ws_end(s, p + 1);
        lemma_parsed_term_list_wf(s, q);
    }
}

/// Every body list the rule yields holds atoms of well-formed terms.
proof fn lemma_parsed_atom_list_wf(s: Seq<char>, i: int)
    requires
        0 <= i <= s.len(),
    ensures
        spec_atom_list(s, i) matches Parsed::Found { val, .. } ==> forall|k: int|
            0 <= k < val.len() ==> wf_terms(#[trigger] val[k].terms),
    decreases s.len() - i, 0int,
{
    lemma_parsed_atom_wf(s, i);
    crate::grammar::lemma_atom_progress(s, i);
    if let Parsed::Found { next: j, val: a } = spec_atom(s, i) {
        lemma_parsed_atom_list_more_wf(s, j);
        if let Parsed::Found { next: _, val: rest } = spec_atom_list_more(s, j) {
            assert forall|k: int| 0 <= k < (seq![a] + rest).len() implies wf_terms(
                #[trigger] (seq![a] + rest)[k].terms,
            ) by {
                if k > 0 {
                    assert((seq![a] + rest)[k] == rest[k - 1]);
                }
            }
        }
    }
}

/// Every body-list tail the rule yields holds atoms of well-formed terms.
proof fn lemma_parsed_atom_list_more_wf(s: Seq<char>, j: int)
    requires
        0 <= j <= s.len(),
    ensures
        spec_atom_list_more(s, j) matches Parsed::Found { val, .. } ==> forall|k: int|
            0 <= k < val.len() ==> wf_terms(#[trigger] val[k].terms),
    decreases s.len() - j, 1int,
{
    let c = ws_end(s, j);
    crate::grammar::lemma_ws_end(s, j);
    if c < s.len() && s[c] == ',' {
        let k = ws_end(s, c + 1);
        crate::grammar::lemma_ws_end(s, c + 1);
        lemma_parsed_atom_wf(s, k);
        crate::grammar::lemma_atom_progress(s, k);
        if let Parsed::Found { next: m, val: a } = spec_atom(s, k) {
            lemma_parsed_atom_list_more_wf(s, m);
            if let Parsed::Found { next: _, val: rest } = spec_atom_list_more(s, m) {
                assert forall|q: int| 0 <= q < (seq![a] + rest).len() implies wf_terms(
                    #[trigger] (seq![a] + rest)[q].terms,
                ) by {
                    if q > 0 {
                        assert((seq![a] + rest)[q] == rest[q - 1]);
                    }
                }
            }
        }
    }
}

/// Every clause the clause rule yields is within the round-trip law's
/// reach as soon as its atoms bear identifier names: its terms are
/// always well formed, so only a degenerate atom's name can stand
/// between a parsed clause and the law.
pub proof fn lemma_parsed_clause_wf(s: Seq<char>, i: int)
    requires
        0 <= i <= s.len(),
    ensures
        spec_clause(s, i) matches Parsed::Found { val, .. } ==> (clause_names_ok(val)
            ==> wf_clause(val)),
{
    lemma_parsed_atom_wf(s, i);
    crate::grammar::lemma_atom_progress(s, i);
    if let Parsed::Found { next: j, val: _ } = spec_atom(s, i) {
        let p = ws_end(s, j);
        crate::grammar::lemma_ws_end(s, j);
        if p + 2 <= s.len() && s[p] == ':' && s[p + 1] == '-' {
            let q = ws_end(s, p + 2);
            crate::grammar::lemma_ws_end(s, p + 2);
            lemma_parsed_atom_list_wf(s, q);
        }
    }
}

/// Writing one more argument appends a comma (except before the first)
/// and that argument's text.
proof fn lemma_terms_text_snoc(ts: Seq<TermV>, t: TermV)
    ensures
        terms_text(ts.push(t)) == if ts.len() == 0 {
            term_text(t)
        } else {
            terms_text(ts) + seq![','] + term_text(t)
        },
    decreases ts.len(),
{
    if ts.len() == 0 {
        assert(ts.push(t)[0] == t);
        assert(ts.push(t).subrange(1, 1) =~= Seq::<TermV>::empty());
        assert(term_text(t) + terms_rest_text(Seq::empty()) =~= term_text(t));
    } else {
        let tail = ts.subrange(1, ts.len() as int);
        lemma_terms_rest_text_snoc(tail, t);
        assert(ts.push(t).subrange(1, ts.len() as int + 1) =~= tail.push(t));
        assert(ts.push(t)[0] == ts[0]);
        assert(term_text(ts[0]) + (terms_rest_text(tail) + seq![','] + term_text(t)) =~= (
        term_text(ts[0]) + terms_rest_text(tail)) + seq![','] + term_text(t));
    }
}

/// Writing one more tail argument appends a comma and its text.
proof fn lemma_terms_rest_text_snoc(rs: Seq<TermV>, t: TermV)
    ensures
        terms_rest_text(rs.push(t)) == terms_rest_text(rs) + seq![','] + term_text(t),
    decreases rs.len(),
{
    if rs.len() == 0 {
        assert(rs.push(t)[0] == t);
        assert(rs.push(t).subrange(1, 1) =~= Seq::<TermV>::empty());
        assert(seq![','] + term_text(t) + terms_rest_text(Seq::empty()) =~= Seq::<
            char,
        >::empty() + seq![','] + term_text(t));
    } else {
        let tail = rs.subrange(1, rs.len() as int);
        lemma_terms_rest_text_snoc(tail, t);
        assert(rs.push(t).subrange(1, rs.len() as int + 1) =~= tail.push(t));
        assert(rs.push(t)[0] == rs[0]);
        assert(seq![','] + term_text(rs[0]) + (terms_rest_text(tail) + seq![','] + term_text(t))
            =~= (seq![','] + term_text(rs[0]) + terms_rest_text(tail)) + seq![','] + term_text(t));
    }
}

/// Writing one more body atom appends a comma (except before the first)
/// and that atom's text.
proof fn lemma_atoms_text_snoc(bs: Seq<AtomV>, a: AtomV)
    ensures
        atoms_text(bs.push(a)) == if bs.len() == 0 {
            atom_text(a)
        } else {
            atoms_text(bs) + seq![','] + atom_text(a)
        },
    decreases bs.len(),
{
    if bs.len() == 0 {
        assert(bs.push(a)[0] == a);
        assert(bs.push(a).subrange(1, 1) =~= Seq::<AtomV>::empty());
        assert(atom_text(a) + atoms_rest_text(Seq::empty()) =~= atom_text(a));
    } else {
        let tail = bs.subrange(1, bs.len() as int);
        lemma_atoms_rest_text_snoc(tail, a);
        assert(bs.push(a).subrange(1, bs.len() as int + 1) =~= tail.push(a));
        assert(bs.push(a)[0] == bs[0]);
        assert(atom_text(bs[0]) + (atoms_rest_text(tail) + seq![','] + atom_text(a)) =~= (
        atom_text(bs[0]) + atoms_rest_text(tail)) + seq![','] + atom_text(a));
    }
}

/// Writing one more tail body atom appends a comma and its text.
proof fn lemma_atoms_rest_text_snoc(rs: Seq<AtomV>, a: AtomV)
    ensures
        atoms_rest_text(rs.push(a)) == atoms_rest_text(rs) + seq![','] + atom_text(a),
    decreases rs.len(),
{
    if rs.len() == 0 {
        assert(rs.push(a)[0] == a);
        assert(rs.push(a).subrange(1, 1) =~= Seq::<AtomV>::empty());
        assert(seq![','] + atom_text(a) + atoms_rest_text(Seq::empty()) =~= Seq::<
            char,
        >::empty() + seq![','] + atom_text(a));
    } else {
        let tail = rs.subrange(1, rs.len() as int);
        lemma_atoms_rest_text_snoc(tail, a);
        assert(rs.push(a).subrange(1, rs.len() as int + 1) =~= tail.push(a));
        assert(rs.push(a)[0] == rs[0]);
        assert(seq![','] + atom_text(rs[0]) + (atoms_rest_text(tail) + seq![','] + atom_text(a))
            =~= (seq![','] + atom_text(rs[0]) + atoms_rest_text(tail)) + seq![','] + atom_text(a));
    }
}

/// The canonical text of a term, written out.
#[verifier::loop_isolation(false)]
pub fn term_to_string(t: &PrologTerm) -> (r: String)
    ensures
        r@ == term_text(term_view(*t)),
    decreases t,
{
    match t {
        PrologTerm::Constant(n) => crate::render::int_string(*n),
        PrologTerm::Variable(name) => String::from_str(name.as_str()),
        PrologTerm::Compound(f, args) => {
            let mut r = String::from_str(f.as_str());
            r.append("(");
            proof {
                reveal_strlit("(");
                assert(r@ =~= f@ + seq!['(']);
            }
            let ghost head = f@ + seq!['('];
            proof {
                assert(terms_text(terms_view(args@).subrange(0, 0)) =~= Seq::<char>::empty());
                assert(r@ =~= head + terms_text(terms_view(args@).subrange(0, 0)));
            }
            let mut k: usize = 0;
            while k < args.len()
                invariant
                    k <= args.len(),
                    r@ == head + terms_text(terms_view(args@).subrange(0, k as int)),
                decreases args.len() - k,
            {
                if k > 0 {
                    r.append(",");
                    proof {
                        reveal_strlit(",");
                    }
                }
                proof {
                    assert((*t)->Compound_1 == *args);
                    assert(decreases_to!(*t => (*t)->Compound_1));
                    assert(decreases_to!(*args => args@[k as int]));
                }
                let sub = term_to_string(&args[k]);
                r.append(sub.as_str());
                proof {
                    let views = terms_view(args@);
                    crate::ast::lemma_terms_view(args@);
                    assert(views.subrange(0, k as int + 1) =~= views.subrange(0, k as int).push(
                        views[k as int],
                    ));
                    lemma_terms_text_snoc(views.subrange(0, k as int), views[k as int]);
                    reveal_strlit(",");
                    assert(","@ =~= seq![',']);
                    if k > 0 {
                        assert(((head + terms_text(views.subrange(0, k as int))) + seq![','])
                            + term_text(views[k as int]) =~= head + (terms_text(
                            views.subrange(0, k as int),
                        ) + seq![','] + term_text(views[k as int])));
                    } else {
                        assert((head + terms_text(views.subrange(0, 0))) + term_text(
                            views[0],
                        ) =~= head + term_text(views[0]));
                    }
                }
                k = k + 1;
            }
            r.append(")");
            proof {
                reveal_strlit(")");
                let views = terms_view(args@);
                crate::ast::lemma_terms_view(args@);
                assert(views.subrange(0, args@.len() as int) =~= views);
                assert((head + terms_text(views)) + ")"@ =~= f@ + seq!['('] + terms_text(views)
                    + seq![')']);
            }
            r
        },
    }
}

/// The canonical text of an atom, written out.
#[verifier::loop_isolation(false)]
pub fn atom_to_string(a: &PrologAtom) -> (r: String)
    ensures
        r@ == atom_text(atom_view(*a)),
{
    let mut r = String::from_str(a.name.as_str());
    r.append("(");
    proof {
        reveal_strlit("(");
    }
    let ghost head = a.name@ + seq!['('];
    proof {
        assert(terms_text(terms_view(a.terms@).subrange(0, 0)) =~= Seq::<char>::empty());
        assert(r@ =~= head + terms_text(terms_view(a.terms@).subrange(0, 0)));
    }
    let mut k: usize = 0;
    while k < a.terms.len()
        invariant
            k <= a.terms.len(),
            r@ == head + terms_text(terms_view(a.terms@).subrange(0, k as int)),
        decreases a.terms.len() - k,
    {
        if k > 0 {
            r.append(",");
            proof {
                reveal_strlit(",");
            }
        }
        let sub = term_to_string(&a.terms[k]);
        r.append(sub.as_str());
        proof {
            let views = terms_view(a.terms@);
            crate::ast::lemma_terms_view(a.terms@);
            assert(views.subrange(0, k as int + 1) =~= views.subrange(0, k as int).push(
                views[k as int],
            ));
            lemma_terms_text_snoc(views.subrange(0, k as int), views[k as int]);
            reveal_strlit(",");
            assert(","@ =~= seq![',']);
            if k > 0 {
                assert(((head + terms_text(views.subrange(0, k as int))) + seq![',']) + term_text(
                    views[k as int],
                ) =~= head + (terms_text(views.subrange(0, k as int)) + seq![','] + term_text(
                    views[k as int],
                )));
            } else {
                assert((head + terms_text(views.subrange(0, 0))) + term_text(views[0]) =~= head
                    + term_text(views[0]));
            }
        }
        k = k + 1;
    }
    r.append(")");
    proof {
        reveal_strlit(")");
        let views = terms_view(a.terms@);
        crate::ast::lemma_terms_view(a.terms@);
        assert(views.subrange(0, a.terms@.len() as int) =~= views);
        assert((head + terms_text(views)) + ")"@ =~= a.name@ + seq!['('] + terms_text(views)
            + seq![')']);
    }
    r
}

/// The canonical text of a clause, written out: what the round-trip law
/// speaks of.
#[verifier::loop_isolation(false)]
pub fn clause_to_string(c: &PrologClause) -> (r: String)
    ensures
        r@ == clause_text(clause_view(*c)),
{
    match c {
        PrologClause::Fact(a) => {
            let mut r = atom_to_string(a);
            r.append(".");
            proof {
                reveal_strlit(".");
                assert(atom_text(atom_view(*a)) + "."@ =~= atom_text(atom_view(*a)) + seq!['.']);
            }
            r
        },
        PrologClause::Rule(h, body) => {
            let mut r = atom_to_string(h);
            r.append(":-");
            proof {
                reveal_strlit(":-");
                assert(r@ =~= atom_text(atom_view(*h)) + seq![':', '-']);
            }
            let ghost head = atom_text(atom_view(*h)) + seq![':', '-'];
            proof {
                assert(atoms_text(atoms_view(body@).subrange(0, 0)) =~= Seq::<char>::empty());
                assert(r@ =~= head + atoms_text(atoms_view(body@).subrange(0, 0)));
            }
            let mut k: usize = 0;
            while k < body.len()
                invariant
                    k <= body.len(),
                    r@ == head + atoms_text(atoms_view(body@).subrange(0, k as int)),
                decreases body.len() - k,
            {
                if k > 0 {
                    r.append(",");
                    proof {
                        reveal_strlit(",");
                    }
                }
                let sub = atom_to_string(&body[k]);
                r.append(sub.as_str());
                proof {
                    let views = atoms_view(body@);
                    crate::ast::lemma_atoms_view(body@);
                    assert(views.subrange(0, k as int + 1) =~= views.subrange(0, k as int).push(
                        views[k as int],
                    ));
                    lemma_atoms_text_snoc(views.subrange(0, k as int), views[k as int]);
                    reveal_strlit(",");
                    assert(","@ =~= seq![',']);
                    if k > 0 {
                        assert(((head + atoms_text(views.subrange(0, k as int))) + seq![','])
                            + atom_text(views[k as int]) =~= head + (atoms_text(
                            views.subrange(0, k as int),
                        ) + seq![','] + atom_text(views[k as int])));
                    } else {
                        assert((head + atoms_text(views.subrange(0, 0))) + atom_text(
                            views[0],
                        ) =~= head + atom_text(views[0]));
                    }
                }
                k = k + 1;
            }
            r.append(".");
            proof {
                reveal_strlit(".");
                let views = atoms_view(body@);
                crate::ast::lemma_atoms_view(body@);
                assert(views.subrange(0, body@.len() as int) =~= views);
                assert((head + atoms_text(views)) + "."@ =~= atom_text(atom_view(*h)) + seq![
                    ':',
                    '-',
                ] + atoms_text(views) + seq!['.']);
            }
            r
        },
    }
}

/// The round-trip law: a well-formed clause value, written out in its
/// canonical syntax, parses back as a clause to exactly itself, consuming
/// the whole text.  Degenerate atoms — those named by a term's rendered
/// form, as arise from a bare term standing where an atom is due — are
/// not well formed and are outside the law.
#[verifier::rlimit(100)]
pub proof fn lemma_clause_round_trip(c: ClauseV)
    requires
        wf_clause(c),
    ensures
        spec_clause(clause_text(c), 0) == (Parsed::Found {
            next: clause_text(c).len() as int,
            val: c,
        }),
{
    let s = clause_text(c);
    match c {
        ClauseV::Fact(a) => {
            let alen = atom_text(a).len() as int;
            assert(s == atom_text(a) + seq!['.']);
            assert(embedded(s, 0, s)) by {
                assert(s.subrange(0, s.len() as int) =~= s);
            }
            lemma_embed_split(s, 0, atom_text(a), seq!['.']);
            lemma_embed_char(s, alen, '.');
            lemma_atom_embed(a, s, 0);
            assert(ws_end(s, alen) == alen);
            assert(spec_rule(s, 0) matches Parsed::Fail { .. });
            assert(spec_fact(s, 0) == (Parsed::Found { next: s.len() as int, val: c }));
        },
        ClauseV::Rule(h, body) => {
            let hlen = atom_text(h).len() as int;
            let q0 = hlen + 2;
            let blen = atoms_text(body).len() as int;
            let b0 = q0 + blen;
            assert(s == ((atom_text(h) + seq![':', '-']) + atoms_text(body)) + seq!['.']);
            assert(embedded(s, 0, s)) by {
                assert(s.subrange(0, s.len() as int) =~= s);
            }
            lemma_embed_split(s, 0, (atom_text(h) + seq![':', '-']) + atoms_text(body), seq!['.']);
            lemma_embed_split(s, 0, atom_text(h) + seq![':', '-'], atoms_text(body));
            lemma_embed_split(s, 0, atom_text(h), seq![':', '-']);
            lemma_embed_char(s, b0, '.');
            lemma_embed_chars(s, hlen, seq![':', '-']);
            assert(s[hlen + 0] == ':');
            assert(s[hlen + 1] == '-');
            lemma_atom_embed(h, s, 0);
            assert(ws_end(s, hlen) == hlen);
            assert(ws_end(s, q0) == q0) by {
                if blen == 0 {
                    assert(s[q0] == '.');
                } else {
                    lemma_atom_text_first(body[0]);
                    assert(atoms_text(body) == atom_text(body[0]) + atoms_rest_text(
                        body.subrange(1, body.len() as int),
                    ));
                    lemma_embed_chars(s, q0, atoms_text(body));
                    assert(s[q0 + 0] == atoms_text(body)[0]);
                    assert(atoms_text(body)[0] == atom_text(body[0])[0]);
                }
            }
            lemma_atoms_embed(body, s, q0);
            assert(ws_end(s, b0) == b0);
            assert(spec_rule(s, 0) == (Parsed::Found { next: s.len() as int, val: c }));
        },
    }
}

} // verus!
