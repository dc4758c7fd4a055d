//! Rendered forms of terms: the decimal digits of a constant, and the
//! debug-style rendering that names a degenerate atom.

use vstd::prelude::*;
use vstd::string::*;

use crate::ast::{PrologTerm, TermV};

verus! {

/// The digit character of a value between 0 and 9.
pub open spec fn digit_char(d: int) -> char {
    if d == 0 {
        '0'
    } else if d == 1 {
        '1'
    } else if d == 2 {
        '2'
    } else if d == 3 {
        '3'
    } else if d == 4 {
        '4'
    } else if d == 5 {
        '5'
    } else if d == 6 {
        '6'
    } else if d == 7 {
        '7'
    } else if d == 8 {
        '8'
    } else {
        '9'
    }
}

/// The decimal digits of a positive value, most significant first; empty
/// for zero and below.
pub open spec fn dec_digits(n: int) -> Seq<char>
    decreases n,
{
    if n <= 0 {
        Seq::empty()
    } else {
        dec_digits(n / 10).push(digit_char(n % 10))
    }
}

/// The decimal rendering of a non-negative value.
pub open spec fn dec_str(n: int) -> Seq<char> {
    if n == 0 {
        seq!['0']
    } else {
        dec_digits(n)
    }
}

/// The decimal rendering of a value of either sign.
pub open spec fn int_str(n: int) -> Seq<char> {
    if n < 0 {
        seq!['-'] + dec_str(-n)
    } else {
        dec_str(n)
    }
}

/// The debug-style rendering of a term, as the variant name applied to
/// the variant's contents: `Constant(7)`, `Variable("x")`, and
/// `Compound("f", [args])` with its arguments rendered in turn.
pub open spec fn term_debug(t: TermV) -> Seq<char>
    decreases t,
{
    match t {
        TermV::Constant(n) => "Constant("@ + int_str(n) + ")"@,
        TermV::Variable(name) => "Variable(\""@ + name + "\")"@,
        TermV::Compound(f, args) => "Compound(\""@ + f + "\", ["@ + terms_debug(args) + "])"@,
    }
}

/// The debug-style renderings of a sequence of terms, separated by a
/// comma and a space.
pub open spec fn terms_debug(ts: Seq<TermV>) -> Seq<char>
    decreases ts,
{
    if ts.len() == 0 {
        Seq::empty()
    } else if ts.len() == 1 {
        term_debug(ts[0])
    } else {
        term_debug(ts[0]) + ", "@ + terms_debug(ts.subrange(1, ts.len() as int))
    }
}

/// Rendering one more term appends a separator (except before the first)
/// and that term's rendering.
pub proof fn lemma_terms_debug_snoc(ts: Seq<TermV>, t: TermV)
    ensures
        terms_debug(ts.push(t)) == if ts.len() == 0 {
            term_debug(t)
        } else {
            terms_debug(ts) + ", "@ + term_debug(t)
        },
    decreases ts.len(),
{
    if ts.len() == 0 {
        assert(ts.push(t) =~= seq![t]);
    } else if ts.len() == 1 {
        assert(ts.push(t).subrange(1, 2) =~= seq![t]);
        assert(terms_debug(seq![t]) == term_debug(t));
    } else {
        let tail = ts.subrange(1, ts.len() as int);
        lemma_terms_debug_snoc(tail, t);
        assert(ts.push(t).subrange(1, ts.len() as int + 1) =~= tail.push(t));
        assert(ts.push(t)[0] == ts[0]);
        assert(term_debug(ts[0]) + ", "@ + (terms_debug(tail) + ", "@ + term_debug(t)) =~= (
        term_debug(ts[0]) + ", "@ + terms_debug(tail)) + ", "@ + term_debug(t));
    }
}

/// The one-character text of a decimal digit.
fn digit_str(d: u32) -> (r: &'static str)
    requires
        d < 10,
    ensures
        r@ == seq![digit_char(d as int)],
{
    if d == 0 {
        proof {
            reveal_strlit("0");
            assert("0"@ =~= seq![digit_char(0)]);
        }
        "0"
    } else if d == 1 {
        proof {
            reveal_strlit("1");
            assert("1"@ =~= seq![digit_char(1)]);
        }
        "1"
    } else if d == 2 {
        proof {
            reveal_strlit("2");
            assert("2"@ =~= seq![digit_char(2)]);
        }
        "2"
    } else if d == 3 {
        proof {
            reveal_strlit("3");
            assert("3"@ =~= seq![digit_char(3)]);
        }
        "3"
    } else if d == 4 {
        proof {
            reveal_strlit("4");
            assert("4"@ =~= seq![digit_char(4)]);
        }
        "4"
    } else if d == 5 {
        proof {
            reveal_strlit("5");
            assert("5"@ =~= seq![digit_char(5)]);
        }
        "5"
    } else if d == 6 {
        proof {
            reveal_strlit("6");
            assert("6"@ =~= seq![digit_char(6)]);
        }
        "6"
    } else if d == 7 {
        proof {
            reveal_strlit("7");
            assert("7"@ =~= seq![digit_char(7)]);
        }
        "7"
    } else if d == 8 {
        proof {
            reveal_strlit("8");
            assert("8"@ =~= seq![digit_char(8)]);
        }
        "8"
    } else {
        proof {
            reveal_strlit("9");
            assert("9"@ =~= seq![digit_char(9)]);
        }
        "9"
    }
}

/// Append the decimal digits of a positive value.
fn push_dec(n: u32, out: &mut String)
    ensures
        final (out)@ == old(out)@ + dec_digits(n as int),
    decreases n,
{
    if n == 0 {
        proof {
            assert(old(out)@ + dec_digits(0) =~= old(out)@);
        }
    } else {
        push_dec(n / 10, out);
        let d = digit_str(n % 10);
        out.append(d);
        proof {
            assert((old(out)@ + dec_digits(n as int / 10)) + seq![digit_char(n as int % 10)] =~= old(
                out,
            )@ + dec_digits(n as int));
        }
    }
}

/// The decimal text of a signed 32-bit value.
pub fn int_string(v: i32) -> (r: String)
    ensures
        r@ == int_str(v as int),
{
    if v == 0 {
        proof {
            reveal_strlit("0");
            assert("0"@ =~= seq!['0']);
        }
        String::from_str("0")
    } else if v > 0 {
        let mut r = String::new();
        push_dec(v as u32, &mut r);
        proof {
            assert(Seq::<char>::empty() + dec_digits(v as int) =~= dec_digits(v as int));
        }
        r
    } else {
        let mut r = String::from_str("-");
        let m64: i64 = -(v as i64);
        push_dec(m64 as u32, &mut r);
        proof {
            reveal_strlit("-");
            assert("-"@ + dec_digits(m64 as int) =~= seq!['-'] + dec_str(-(v as int)));
        }
        r
    }
}

/// The debug-style text of a term: what names a degenerate atom.
#[verifier::loop_isolation(false)]
pub fn term_debug_string(t: &PrologTerm) -> (r: String)
    ensures
        r@ == term_debug(crate::ast::term_view(*t)),
    decreases t,
{
    match t {
        PrologTerm::Constant(n) => {
            let mut r = String::from_str("Constant(");
            let digits = int_string(*n);
            r.append(digits.as_str());
            r.append(")");
            r
        },
        PrologTerm::Variable(name) => {
            let mut r = String::from_str("Variable(\"");
            r.append(name.as_str());
            r.append("\")");
            r
        },
        PrologTerm::Compound(f, args) => {
            let mut r = String::from_str("Compound(\"");
            r.append(f.as_str());
            r.append("\", [");
            let ghost head = "Compound(\""@ + f@ + "\", ["@;
            proof {
                assert(r@ =~= head + terms_debug(crate::ast::terms_view(args@).subrange(0, 0)));
            }
            let mut k: usize = 0;
            while k < args.len()
                invariant
                    k <= args.len(),
                    r@ == head + terms_debug(
                        crate::ast::terms_view(args@).subrange(0, k as int),
                    ),
                decreases args.len() - k,
            {
                if k > 0 {
                    r.append(", ");
                }
                proof {
                    assert((*t)->Compound_1 == *args);
                    assert(decreases_to!(*t => (*t)->Compound_1));
                    assert(decreases_to!(*args => args@[k as int]));
                }
                let sub = term_debug_string(&args[k]);
                r.append(sub.as_str());
                proof {
                    let views = crate::ast::terms_view(args@);
                    crate::ast::lemma_terms_view(args@);
                    assert(views.subrange(0, k as int + 1) =~= views.subrange(0, k as int).push(
                        views[k as int],
                    ));
                    lemma_terms_debug_snoc(views.subrange(0, k as int), views[k as int]);
                    if k > 0 {
                        assert(((head + terms_debug(views.subrange(0, k as int))) + ", "@)
                            + term_debug(views[k as int]) =~= head + (terms_debug(
                            views.subrange(0, k as int),
                        ) + ", "@ + term_debug(views[k as int])));
                    } else {
                        assert(terms_debug(views.subrange(0, 0)) =~= Seq::<char>::empty());
                        assert((head + terms_debug(views.subrange(0, 0))) + term_debug(
                            views[0],
                        ) =~= head + term_debug(views[0]));
                    }
                }
                k = k + 1;
            }
            r.append("])");
            proof {
                let views = crate::ast::terms_view(args@);
                crate::ast::lemma_terms_view(args@);
                assert(views.subrange(0, args@.len() as int) =~= views);
                assert((head + terms_debug(views)) + "])"@ =~= "Compound(\""@ + f@ + "\", ["@
                    + terms_debug(views) + "])"@);
            }
            r
        },
    }
}

} // verus!
