//! The pretty renderer: a whitespace-separated, depth-indented textual
//! rendering of a term. Lists open on a fresh indented line beyond the top
//! level; every atom is followed by one space.

use vstd::prelude::*;
use crate::token::{Num, Token, TermV};
use crate::strutil::{push_char, push_dec_digits, digit_of, dec_digits, digit_char};
use crate::arith::{pow10, pow10_u64, lemma_pow10_bounds};

verus! {

/// The smallest power of ten the denominator divides, searched upward from
/// `k`; `None` when none exists up to eighteen.
pub open spec fn find_scale_spec(den: int, k: nat) -> Option<nat>
    decreases 19 - k,
{
    if k > 18 {
        None
    } else if pow10(k) % den == 0 {
        Some(k)
    } else {
        find_scale_spec(den, k + 1)
    }
}

/// Search for the smallest usable decimal scale; computes `find_scale_spec`.
fn find_scale(den: u64, k: u32) -> (r: Option<u32>)
    requires
        1 <= k <= 19,
        den >= 1,
    ensures
        match r {
            Some(s) => find_scale_spec(den as int, k as nat) == Some(s as nat) && k <= s <= 18,
            None => find_scale_spec(den as int, k as nat) is None,
        },
    decreases 19 - k,
{
    if k > 18 {
        None
    } else {
        let p = pow10_u64(k);
        if p % den == 0 {
            Some(k)
        } else {
            find_scale(den, k + 1)
        }
    }
}

/// Exactly `k` decimal digits of `frac`, leading zeros kept.
pub open spec fn frac_digits(frac: int, k: nat) -> Seq<char>
    decreases k,
{
    if k == 0 {
        Seq::empty()
    } else {
        frac_digits(frac / 10, (k - 1) as nat).push(digit_char(frac % 10))
    }
}

/// Append exactly `k` digits of `frac`, leading zeros kept.
fn push_frac_digits(out: &mut String, frac: u128, k: u32)
    ensures
        final(out)@ == old(out)@ + frac_digits(frac as int, k as nat),
    decreases k,
{
    if k == 0 {
        proof {
            assert(final(out)@ =~= old(out)@ + frac_digits(frac as int, 0));
        }
    } else {
        push_frac_digits(out, frac / 10, k - 1);
        let c = digit_of((frac % 10) as u64);
        push_char(out, c);
        proof {
            assert(final(out)@ =~= old(out)@ + frac_digits(frac as int, k as nat));
        }
    }
}

/// The text of a numeric literal: plain digits for an integer; a decimal
/// expansion when the denominator divides a power of ten; numerator over
/// denominator otherwise. A negative value carries a leading minus sign.
pub open spec fn num_text(n: Num) -> Seq<char> {
    let sign: Seq<char> = if n.num < 0 {
        seq!['-']
    } else {
        Seq::empty()
    };
    let mag = vstd::math::abs(n.num as int);
    if n.den == 1 {
        sign + dec_digits(mag as int)
    } else {
        match find_scale_spec(n.den as int, 1) {
            Some(k) => {
                let p = pow10(k);
                let total = mag * (p / (n.den as int));
                sign + dec_digits(total / p) + seq!['.'] + frac_digits(total % p, k)
            },
            None => sign + dec_digits(mag as int) + seq!['/'] + dec_digits(n.den as int),
        }
    }
}

/// Append the text of a numeric literal; computes `num_text`.
pub fn push_num_text(out: &mut String, n: Num)
    requires
        n.wf(),
    ensures
        final(out)@ == old(out)@ + num_text(n),
{
    let mag: u64 = if n.num < 0 {
        push_char(out, '-');
        (-(n.num)) as u64
    } else {
        n.num as u64
    };
    if n.den == 1 {
        push_dec_digits(out, mag as u128);
        proof {
            assert(final(out)@ =~= old(out)@ + num_text(n));
        }
    } else {
        match find_scale(n.den as u64, 1) {
            Some(k) => {
                let p = pow10_u64(k);
                proof {
                    lemma_pow10_bounds(k as nat);
                    assert((mag as u128) * ((p / (n.den as u64)) as u128) <= (0x4000_0000_0000_0000u128) * (1_000_000_000_000_000_000u128)) by (nonlinear_arith)
                        requires
                            mag <= 0x4000_0000_0000_0000u128,
                            (p / (n.den as u64)) as u128 <= 1_000_000_000_000_000_000u128,
                    ;
                }
                let total: u128 = (mag as u128) * ((p / (n.den as u64)) as u128);
                push_dec_digits(out, total / (p as u128));
                push_char(out, '.');
                push_frac_digits(out, total % (p as u128), k);
                proof {
                    assert(final(out)@ =~= old(out)@ + num_text(n));
                }
            },
            None => {
                push_dec_digits(out, mag as u128);
                push_char(out, '/');
                push_dec_digits(out, n.den as u128);
                proof {
                    assert(final(out)@ =~= old(out)@ + num_text(n));
                }
            },
        }
    }
}

} // verus!

verus! {

/// Two spaces of indentation per depth level.
pub open spec fn indent_text(depth: int) -> Seq<char>
    decreases depth,
{
    if depth <= 0 {
        Seq::empty()
    } else {
        indent_text(depth - 1) + seq![' ', ' ']
    }
}

/// The rendering of a term at a nesting depth: atoms as their text followed
/// by one space; lists in brackets, opening on a fresh indented line beyond
/// the top level.
pub open spec fn render_spec(t: TermV, depth: int) -> Seq<char>
    decreases t,
{
    match t {
        TermV::Lst(l) => {
            let head: Seq<char> = if depth > 0 {
                seq!['\n']
            } else {
                Seq::empty()
            };
            let d2: int = if depth >= 0x4000_0000 {
                depth
            } else {
                depth + 1
            };
            head + indent_text(depth) + seq!['(', ' '] + render_list_spec(l, d2) + seq![
                ')',
                ' ',
            ]
        },
        TermV::Str(s) => s.push(' '),
        TermV::Var(s) => s.push(' '),
        TermV::Number(n) => num_text(n).push(' '),
        TermV::Bool(b) => if b {
            "true"@.push(' ')
        } else {
            "false"@.push(' ')
        },
        TermV::Keyword(s) => s.push(' '),
        TermV::Wildcard(s) => s.push(' '),
        TermV::BinaryOp(s) => s.push(' '),
        TermV::UnaryOp(s) => s.push(' '),
        TermV::Unknown => seq![' '],
    }
}

/// The renderings of a sequence of terms, in order.
pub open spec fn render_list_spec(l: Seq<TermV>, depth: int) -> Seq<char>
    decreases l,
{
    if l.len() == 0 {
        Seq::empty()
    } else {
        render_spec(l[0], depth) + render_list_spec(l.drop_first(), depth)
    }
}

proof fn lemma_render_list_snoc(l: Seq<TermV>, depth: int)
    requires
        l.len() > 0,
    ensures
        render_list_spec(l, depth) == render_list_spec(l.drop_last(), depth) + render_spec(
            l.last(),
            depth,
        ),
    decreases l,
{
    if l.len() == 1 {
        assert(l.drop_first().len() == 0);
        assert(l.drop_last().len() == 0);
        assert(render_list_spec(l.drop_first(), depth) == Seq::<char>::empty());
        assert(render_list_spec(l.drop_last(), depth) == Seq::<char>::empty());
        assert(l.last() == l[0]);
        assert(render_list_spec(l, depth) =~= render_list_spec(l.drop_last(), depth)
            + render_spec(l.last(), depth));
    } else {
        lemma_render_list_snoc(l.drop_first(), depth);
        assert(l.drop_first().drop_last() =~= l.drop_last().drop_first());
        assert(l.drop_first().last() == l.last());
        assert(l.drop_last()[0] == l[0]);
        assert(l.drop_last().len() > 0);
        assert(render_list_spec(l.drop_last(), depth) == render_spec(l[0], depth)
            + render_list_spec(l.drop_last().drop_first(), depth));
        assert(render_list_spec(l, depth) =~= render_list_spec(l.drop_last(), depth)
            + render_spec(l.last(), depth));
    }
}

/// Append the indentation for a depth.
#[verifier::loop_isolation(false)]
fn push_indent(out: &mut String, depth: i32)
    requires
        depth >= 0,
    ensures
        final(out)@ == old(out)@ + indent_text(depth as int),
{
    let mut i: i32 = 0;
    proof {
        assert(out@ =~= old(out)@ + indent_text(0));
    }
    while i < depth
        invariant
            0 <= i <= depth,
            out@ == old(out)@ + indent_text(i as int),
        decreases depth - i,
    {
        push_char(out, ' ');
        push_char(out, ' ');
        proof {
            assert(out@ =~= old(out)@ + indent_text(i + 1));
        }
        i += 1;
    }
}

/// Append the rendering of a term at a depth; computes `render_spec`.
#[verifier::loop_isolation(false)]
#[verifier::rlimit(60)]
pub fn render_token_with_depth(out: &mut String, t: &Token, depth: i32)
    requires
        t@.wf(),
        0 <= depth <= 0x4000_0000,
    ensures
        final(out)@ == old(out)@ + render_spec(t@, depth as int),
    decreases t@.height(),
{
    match t {
        Token::Lst(l) => {
            if depth > 0 {
                push_char(out, '\n');
            }
            push_indent(out, depth);
            push_char(out, '(');
            push_char(out, ' ');
            let d2: i32 = if depth >= 0x4000_0000 {
                depth
            } else {
                depth + 1
            };
            let ghost kids = crate::token::view_seq(l@);
            proof {
                crate::token::lemma_view_seq_len(l@);
                assert(kids.take(0) =~= Seq::<TermV>::empty());
            }
            let mut i: usize = 0;
            while i < l.len()
                invariant
                    i <= l.len(),
                    out@ == old(out)@ + (if depth as int > 0 {
                        seq!['\n']
                    } else {
                        Seq::<char>::empty()
                    }) + indent_text(depth as int) + seq!['(', ' '] + render_list_spec(
                        kids.take(i as int),
                        d2 as int,
                    ),
                decreases l@.len() - i,
            {
                proof {
                    crate::token::lemma_view_seq_index(l@, i as int);
                    crate::token::lemma_height_seq_bound(kids, i as int);
                    assert(t@ == TermV::Lst(kids));
                    assert(t@.height() == 1 + TermV::height_seq(kids));
                }
                render_token_with_depth(out, &l[i], d2);
                proof {
                    lemma_render_list_snoc(kids.take(i + 1), d2 as int);
                    assert(kids.take(i + 1).drop_last() =~= kids.take(i as int));
                    assert(kids.take(i + 1).last() == kids[i as int]);
                }
                i += 1;
            }
            push_char(out, ')');
            push_char(out, ' ');
            proof {
                assert(kids.take(l@.len() as int) =~= kids);
                assert(out@ =~= old(out)@ + render_spec(t@, depth as int));
            }
        },
        Token::Str(s) => {
            out.append(s.as_str());
            push_char(out, ' ');
            proof {
                assert(out@ =~= old(out)@ + render_spec(t@, depth as int));
            }
        },
        Token::Var(s) => {
            out.append(s.as_str());
            push_char(out, ' ');
            proof {
                assert(out@ =~= old(out)@ + render_spec(t@, depth as int));
            }
        },
        Token::Number(n) => {
            push_num_text(out, *n);
            push_char(out, ' ');
            proof {
                assert(out@ =~= old(out)@ + render_spec(t@, depth as int));
            }
        },
        Token::Bool(b) => {
            if *b {
                out.append("true");
            } else {
                out.append("false");
            }
            push_char(out, ' ');
            proof {
                assert(out@ =~= old(out)@ + render_spec(t@, depth as int));
            }
        },
        Token::Keyword(s) => {
            out.append(s.as_str());
            push_char(out, ' ');
            proof {
                assert(out@ =~= old(out)@ + render_spec(t@, depth as int));
            }
        },
        Token::Wildcard(s) => {
            out.append(s.as_str());
            push_char(out, ' ');
            proof {
                assert(out@ =~= old(out)@ + render_spec(t@, depth as int));
            }
        },
        Token::BinaryOp(s) => {
            out.append(s.as_str());
            push_char(out, ' ');
            proof {
                assert(out@ =~= old(out)@ + render_spec(t@, depth as int));
            }
        },
        Token::UnaryOp(s) => {
            out.append(s.as_str());
            push_char(out, ' ');
            proof {
                assert(out@ =~= old(out)@ + render_spec(t@, depth as int));
            }
        },
        Token::Unknown => {
            push_char(out, ' ');
            proof {
                assert(out@ =~= old(out)@ + render_spec(t@, depth as int));
            }
        },
    }
}

/// The full rendering of a term: the term at depth zero, then a newline.
pub open spec fn render_full(t: TermV) -> Seq<char> {
    render_spec(t, 0).push('\n')
}

/// Render a term to text; computes `render_full`.
pub fn render_token(t: &Token) -> (r: String)
    requires
        t@.wf(),
    ensures
        r@ == render_full(t@),
{
    let mut out = String::new();
    render_token_with_depth(&mut out, t, 0);
    push_char(&mut out, '\n');
    proof {
        assert(out@ =~= render_full(t@));
    }
    out
}

} // verus!
