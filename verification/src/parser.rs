//! The lexer and parser: a single left-to-right scan over characters keeps a
//! stack of lexical states; closing brackets pop a span of states and hand it
//! to the list closer, which classifies contiguous runs of characters into
//! atoms between whitespace marks.

use vstd::prelude::*;
use crate::token::{Num, NUM_LIMIT, Token, TermV, view_seq, lemma_view_seq_len,
    lemma_view_seq_index, lemma_view_seq_push};
use crate::error::{ParseError, ParseErrV};
use crate::arith::{gcd, norm_num, lemma_gcd_props, lemma_norm_num_wf, pow10, pow10_u64, lemma_pow10_bounds};
use crate::strutil::{push_char, str_eq};

verus! {

/// True exactly for the newline character.
pub fn is_newline(c: char) -> (r: bool)
    ensures
        r == (c == '\n'),
{
    c == '\n'
}

/// A lexical state on the scanner's stack.
#[derive(Debug)]
pub enum State {
    /// A letter, with line and column.
    CharSt(char, i32, i32),
    /// A digit, with line and column.
    NumSt(char, i32, i32),
    /// Any other non-structural character, with line and column.
    SymSt(char, i32, i32),
    /// An open bracket marker.
    LstStart(i32, i32),
    /// A whitespace delimiter.
    WhiteSp(i32, i32),
    /// A fully parsed sub-term.
    Parsed(Token),
}

/// Mathematical model of a lexical state.
pub enum StateV {
    CharSt(char, int, int),
    NumSt(char, int, int),
    SymSt(char, int, int),
    LstStart(int, int),
    WhiteSp(int, int),
    Parsed(TermV),
}

impl View for State {
    type V = StateV;

    open spec fn view(&self) -> StateV {
        match self {
            State::CharSt(c, l, co) => StateV::CharSt(*c, *l as int, *co as int),
            State::NumSt(c, l, co) => StateV::NumSt(*c, *l as int, *co as int),
            State::SymSt(c, l, co) => StateV::SymSt(*c, *l as int, *co as int),
            State::LstStart(l, co) => StateV::LstStart(*l as int, *co as int),
            State::WhiteSp(l, co) => StateV::WhiteSp(*l as int, *co as int),
            State::Parsed(t) => StateV::Parsed(t@),
        }
    }
}

/// Model of a sequence of lexical states, elementwise.
pub open spec fn states_view(s: Seq<State>) -> Seq<StateV>
    decreases s,
{
    if s.len() == 0 {
        Seq::empty()
    } else {
        seq![s[0]@] + states_view(s.drop_first())
    }
}

pub broadcast proof fn lemma_states_view_len(s: Seq<State>)
    ensures
        #[trigger] states_view(s).len() == s.len(),
    decreases s,
{
    if s.len() > 0 {
        lemma_states_view_len(s.drop_first());
        assert(states_view(s) == seq![s[0]@] + states_view(s.drop_first()));
    } else {
        assert(states_view(s) == Seq::<StateV>::empty());
    }
}

pub broadcast proof fn lemma_states_view_index(s: Seq<State>, i: int)
    requires
        0 <= i < s.len(),
    ensures
        #[trigger] states_view(s)[i] == s[i]@,
    decreases s,
{
    lemma_states_view_len(s);
    lemma_states_view_len(s.drop_first());
    assert(states_view(s) == seq![s[0]@] + states_view(s.drop_first()));
    if i > 0 {
        lemma_states_view_index(s.drop_first(), i - 1);
        assert(s.drop_first()[i - 1] == s[i]);
    }
}

pub broadcast proof fn lemma_states_view_push(s: Seq<State>, t: State)
    ensures
        #[trigger] states_view(s.push(t)) == states_view(s).push(t@),
    decreases s,
{
    let sp = s.push(t);
    lemma_states_view_len(s);
    lemma_states_view_len(sp);
    if s.len() == 0 {
        assert(sp.drop_first().len() == 0);
        assert(states_view(sp.drop_first()) == Seq::<StateV>::empty());
        assert(states_view(sp) == seq![sp[0]@] + states_view(sp.drop_first()));
        assert(sp[0] == t);
        assert(states_view(s) == Seq::<StateV>::empty());
        assert(states_view(sp) =~= states_view(s).push(t@));
    } else {
        lemma_states_view_push(s.drop_first(), t);
        assert(sp.drop_first() =~= s.drop_first().push(t));
        assert(states_view(sp) == seq![sp[0]@] + states_view(sp.drop_first()));
        assert(states_view(s) == seq![s[0]@] + states_view(s.drop_first()));
        assert(sp[0] == s[0]);
        assert(states_view(sp) =~= states_view(s).push(t@));
    }
}

/// A letter, of either case.
pub open spec fn is_letter(c: char) -> bool {
    (65 <= c as u32 && c as u32 <= 90) || (97 <= c as u32 && c as u32 <= 122)
}

/// An uppercase letter.
pub open spec fn is_upper(c: char) -> bool {
    65 <= c as u32 && c as u32 <= 90
}

/// A decimal digit.
pub open spec fn is_digit(c: char) -> bool {
    48 <= c as u32 && c as u32 <= 57
}

/// The numeric value of a digit character.
pub open spec fn digit_val(c: char) -> int {
    c as u32 - 48
}

// ---------------------------------------------------------------------------
// Run classification: a contiguous run of character states between delimiters
// becomes one atom.
// ---------------------------------------------------------------------------

/// Accumulator for a numeric run: mantissa gathered so far, count of digits
/// after the dot, and whether the dot has been seen.
pub struct NumAcc {
    pub m: int,
    pub k: nat,
    pub dotted: bool,
}

/// One step of the numeric run fold.
pub open spec fn num_step(st: NumAcc, sv: StateV) -> Result<NumAcc, ParseErrV> {
    match sv {
        StateV::NumSt(c, l, co) => {
            let m2 = st.m * 10 + digit_val(c);
            if !is_digit(c) {
                Err(ParseErrV::InvalidCharacter(c, l, co))
            } else if m2 > NUM_LIMIT as int {
                Err(ParseErrV::Other(l))
            } else if st.dotted && st.k + 1 > 18 {
                Err(ParseErrV::Other(l))
            } else {
                Ok(
                    NumAcc {
                        m: m2,
                        k: if st.dotted {
                            st.k + 1
                        } else {
                            st.k
                        },
                        dotted: st.dotted,
                    },
                )
            }
        },
        StateV::SymSt(c, l, co) => {
            if c == '.' {
                if st.dotted {
                    Err(ParseErrV::InvalidCharacter('.', l, co))
                } else {
                    Ok(NumAcc { m: st.m, k: st.k, dotted: true })
                }
            } else {
                Err(ParseErrV::InvalidCharacter(c, l, co))
            }
        },
        StateV::CharSt(c, l, co) => Err(ParseErrV::InvalidCharacter(c, l, co)),
        _ => Ok(st),
    }
}

/// The numeric run fold over `run[start..i]`.
pub open spec fn num_fold(run: Seq<StateV>, start: int, i: int) -> Result<NumAcc, ParseErrV>
    decreases i - start,
{
    if i <= start {
        Ok(NumAcc { m: 0, k: 0, dotted: false })
    } else {
        match num_fold(run, start, i - 1) {
            Err(e) => Err(e),
            Ok(st) => num_step(st, run[i - 1]),
        }
    }
}

/// The rational a finished numeric accumulator denotes.
pub open spec fn num_acc_value(neg: bool, st: NumAcc) -> Option<Num> {
    norm_num(
        if neg {
            -st.m
        } else {
            st.m
        },
        pow10(st.k),
    )
}

/// Classification of a numeric run: an optional leading minus sign, digits,
/// and at most one dot.
pub open spec fn number_spec(run: Seq<StateV>) -> Result<TermV, ParseErrV> {
    let neg = run.len() > 0 && run[0] matches StateV::SymSt('-', _, _);
    let start: int = if neg {
        1
    } else {
        0
    };
    match num_fold(run, start, run.len() as int) {
        Err(e) => Err(e),
        Ok(st) => match num_acc_value(neg, st) {
            Some(n) => Ok(TermV::Number(n)),
            None => Err(ParseErrV::UnknownError),
        },
    }
}

/// The fold keeps the mantissa and dot count within bounds.
proof fn lemma_num_fold_bounds(run: Seq<StateV>, start: int, i: int)
    requires
        num_fold(run, start, i) is Ok,
    ensures
        0 <= num_fold(run, start, i)->Ok_0.m <= NUM_LIMIT as int,
        num_fold(run, start, i)->Ok_0.k <= 18,
    decreases i - start,
{
    if i > start {
        lemma_num_fold_bounds(run, start, i - 1);
    }
}

/// Once the numeric fold has failed it stays failed.
proof fn lemma_num_fold_err(run: Seq<StateV>, start: int, i: int, j: int)
    requires
        num_fold(run, start, i) is Err,
        i <= j,
    ensures
        num_fold(run, start, j) == num_fold(run, start, i),
    decreases j - i,
{
    if j > i {
        lemma_num_fold_err(run, start, i, j - 1);
    }
}

/// Every digit state in the run holds a digit character, as the scanner
/// guarantees of the runs it builds.
pub open spec fn run_digits_wf(s: Seq<StateV>) -> bool {
    forall|i: int|
        0 <= i < s.len() ==> ((#[trigger] s[i]) matches StateV::NumSt(c, _, _) ==> is_digit(c))
}

/// A finished in-bounds accumulator always yields a well-formed number.
proof fn lemma_num_acc_some(neg: bool, st: NumAcc)
    requires
        0 <= st.m <= NUM_LIMIT as int,
        st.k <= 18,
    ensures
        num_acc_value(neg, st) is Some,
        num_acc_value(neg, st)->Some_0.wf(),
{
    lemma_pow10_bounds(st.k);
    let d = pow10(st.k);
    let n: int = if neg {
        -st.m
    } else {
        st.m
    };
    let g = gcd(vstd::math::abs(n), d as nat);
    lemma_gcd_props(vstd::math::abs(n), d as nat);
    let k1 = choose|k: nat| vstd::math::abs(n) == #[trigger] (k * g);
    vstd::arithmetic::div_mod::lemma_fundamental_div_mod_converse(
        vstd::math::abs(n) as int,
        g as int,
        k1 as int,
        0,
    );
    assert(vstd::math::abs(n) / g == k1);
    assert(k1 * g >= k1) by (nonlinear_arith)
        requires
            g >= 1,
            k1 >= 0,
    ;
    let k2 = choose|k: nat| d as nat == #[trigger] (k * g);
    vstd::arithmetic::div_mod::lemma_fundamental_div_mod_converse(d, g as int, k2 as int, 0);
    assert(d as nat / g == k2);
    assert(k2 * g >= k2) by (nonlinear_arith)
        requires
            g >= 1,
            k2 >= 0,
    ;
    assert(num_acc_value(neg, st) is Some);
    lemma_norm_num_wf(n, d);
}

/// Parse a numeric run; computes `number_spec` on the run's model.
#[verifier::loop_isolation(false)]
fn parse_number(run: &Vec<State>) -> (r: Result<Token, ParseError>)
    requires
        run_digits_wf(states_view(run@)),
    ensures
        r is Ok ==> number_spec(states_view(run@)) == Ok::<TermV, ParseErrV>(r->Ok_0@),
        r is Ok ==> r->Ok_0@.wf(),
        r is Err ==> number_spec(states_view(run@)) == Err::<TermV, ParseErrV>(r->Err_0@),
{
    let ghost rv = states_view(run@);
    proof {
        lemma_states_view_len(run@);
    }
    let mut neg = false;
    if run.len() > 0 {
        proof {
            lemma_states_view_index(run@, 0);
        }
        match &run[0] {
            State::SymSt(c, _, _) => {
                if *c == '-' {
                    neg = true;
                }
            },
            _ => {},
        }
    }
    let start: usize = if neg {
        1
    } else {
        0
    };
    proof {
        assert(neg == (rv.len() > 0 && rv[0] matches StateV::SymSt('-', _, _)));
    }
    let mut m: u128 = 0;
    let mut k: u32 = 0;
    let mut dotted = false;
    let mut i: usize = start;
    while i < run.len()
        invariant
            start <= i <= run.len(),
            num_fold(rv, start as int, i as int) == Ok::<NumAcc, ParseErrV>(
                NumAcc { m: m as int, k: k as nat, dotted: dotted },
            ),
            m <= NUM_LIMIT as u128,
            k <= 18,
        decreases run.len() - i,
    {
        proof {
            lemma_states_view_index(run@, i as int);
        }
        match &run[i] {
            State::NumSt(c, l, co) => {
                assert(is_digit(*c));
                let d = (*c as u32) - 48;
                let m2 = m * 10 + (d as u128);
                if m2 > NUM_LIMIT as u128 {
                    proof {
                        lemma_num_fold_err(rv, start as int, i + 1, rv.len() as int);
                    }
                    return Err(ParseError::Other(*l));
                } else if dotted && k + 1 > 18 {
                    proof {
                        lemma_num_fold_err(rv, start as int, i + 1, rv.len() as int);
                    }
                    return Err(ParseError::Other(*l));
                } else {
                    m = m2;
                    if dotted {
                        k = k + 1;
                    }
                }
            },
            State::SymSt(c, l, co) => {
                if *c == '.' {
                    if dotted {
                        proof {
                            lemma_num_fold_err(rv, start as int, i + 1, rv.len() as int);
                        }
                        return Err(ParseError::InvalidCharacter('.', *l, *co));
                    } else {
                        dotted = true;
                    }
                } else {
                    proof {
                        lemma_num_fold_err(rv, start as int, i + 1, rv.len() as int);
                    }
                    return Err(ParseError::InvalidCharacter(*c, *l, *co));
                }
            },
            State::CharSt(c, l, co) => {
                proof {
                    lemma_num_fold_err(rv, start as int, i + 1, rv.len() as int);
                }
                return Err(ParseError::InvalidCharacter(*c, *l, *co));
            },
            _ => {},
        }
        i += 1;
    }
    proof {
        lemma_num_fold_bounds(rv, start as int, rv.len() as int);
        lemma_num_acc_some(neg, NumAcc { m: m as int, k: k as nat, dotted: dotted });
        lemma_pow10_bounds(k as nat);
    }
    let d = pow10_u64(k);
    let n: i128 = if neg {
        -(m as i128)
    } else {
        m as i128
    };
    match crate::arith::norm_i128(n, d as i128) {
        Some(v) => Ok(Token::Number(v)),
        None => {
            proof {
                assert(false);
            }
            Err(ParseError::UnknownError)
        },
    }
}

} // verus!

verus! {

// ---------------------------------------------------------------------------
// Textual runs: variables, keywords, wildcards, bare and quoted strings, and
// operator symbols.
// ---------------------------------------------------------------------------

/// One step of the textual run fold: letters and digits always extend the
/// text, among other characters only `-` and `_` may appear.
pub open spec fn text_step(text: Seq<char>, sv: StateV) -> Result<Seq<char>, ParseErrV> {
    match sv {
        StateV::CharSt(c, l, co) => Ok(text.push(c)),
        StateV::NumSt(c, l, co) => Ok(text.push(c)),
        StateV::SymSt(c, l, co) => {
            if c == '-' || c == '_' {
                Ok(text.push(c))
            } else {
                Err(ParseErrV::InvalidCharacter(c, l, co))
            }
        },
        _ => Err(ParseErrV::UnknownError),
    }
}

/// The textual run fold over `run[start..i]`.
pub open spec fn text_fold(run: Seq<StateV>, start: int, i: int) -> Result<Seq<char>, ParseErrV>
    decreases i - start,
{
    if i <= start {
        Ok(Seq::empty())
    } else {
        match text_fold(run, start, i - 1) {
            Err(e) => Err(e),
            Ok(t) => text_step(t, run[i - 1]),
        }
    }
}

proof fn lemma_text_fold_err(run: Seq<StateV>, start: int, i: int, j: int)
    requires
        text_fold(run, start, i) is Err,
        i <= j,
    ensures
        text_fold(run, start, j) == text_fold(run, start, i),
    decreases j - i,
{
    if j > i {
        lemma_text_fold_err(run, start, i, j - 1);
    }
}

/// One step of the quoted run fold: every character extends the text.
pub open spec fn quote_step(text: Seq<char>, sv: StateV) -> Result<Seq<char>, ParseErrV> {
    match sv {
        StateV::CharSt(c, l, co) => Ok(text.push(c)),
        StateV::NumSt(c, l, co) => Ok(text.push(c)),
        StateV::SymSt(c, l, co) => Ok(text.push(c)),
        _ => Err(ParseErrV::UnknownError),
    }
}

/// The quoted run fold over `run[start..i]`.
pub open spec fn quote_fold(run: Seq<StateV>, start: int, i: int) -> Result<Seq<char>, ParseErrV>
    decreases i - start,
{
    if i <= start {
        Ok(Seq::empty())
    } else {
        match quote_fold(run, start, i - 1) {
            Err(e) => Err(e),
            Ok(t) => quote_step(t, run[i - 1]),
        }
    }
}

proof fn lemma_quote_fold_err(run: Seq<StateV>, start: int, i: int, j: int)
    requires
        quote_fold(run, start, i) is Err,
        i <= j,
    ensures
        quote_fold(run, start, j) == quote_fold(run, start, i),
    decreases j - i,
{
    if j > i {
        lemma_quote_fold_err(run, start, i, j - 1);
    }
}

/// Classification of a variable run: every character gathered, named by the
/// whole run.
pub open spec fn variable_spec(run: Seq<StateV>) -> Result<TermV, ParseErrV> {
    match text_fold(run, 0, run.len() as int) {
        Err(e) => Err(e),
        Ok(t) => Ok(TermV::Var(t)),
    }
}

/// Classification of a keyword run: the leading dot is kept, the rest is
/// gathered under the textual rules.
pub open spec fn keyword_spec(run: Seq<StateV>) -> Result<TermV, ParseErrV> {
    match text_fold(run, 1, run.len() as int) {
        Err(e) => Err(e),
        Ok(t) => Ok(TermV::Keyword(seq!['.'] + t)),
    }
}

/// Classification of a wildcard run: the leading underscore is kept, the
/// rest is gathered under the textual rules.
pub open spec fn wildcard_spec(run: Seq<StateV>) -> Result<TermV, ParseErrV> {
    match text_fold(run, 1, run.len() as int) {
        Err(e) => Err(e),
        Ok(t) => Ok(TermV::Wildcard(seq!['_'] + t)),
    }
}

/// Classification of a bare string run: the literal texts `true` and `false`
/// are booleans, anything else is a string.
pub open spec fn plain_spec(run: Seq<StateV>) -> Result<TermV, ParseErrV> {
    match text_fold(run, 0, run.len() as int) {
        Err(e) => Err(e),
        Ok(t) => {
            if t == "true"@ {
                Ok(TermV::Bool(true))
            } else if t == "false"@ {
                Ok(TermV::Bool(false))
            } else {
                Ok(TermV::Str(t))
            }
        },
    }
}

/// Dispatch for a run that is not a number, quoted string or operator: an
/// initial uppercase letter makes a variable, a leading dot a keyword, a
/// leading underscore a wildcard, anything else a bare string or boolean.
pub open spec fn unquoted_spec(run: Seq<StateV>) -> Result<TermV, ParseErrV> {
    if run.len() > 0 && (run[0] matches StateV::CharSt(c, _, _) && is_upper(c)) {
        variable_spec(run)
    } else if run.len() > 0 && run[0] matches StateV::SymSt('.', _, _) {
        keyword_spec(run)
    } else if run.len() > 0 && run[0] matches StateV::SymSt('_', _, _) {
        wildcard_spec(run)
    } else {
        plain_spec(run)
    }
}

/// Classification of a quoted run: a surrounding pair of quotes is stripped
/// when both are present, and everything between is the string's text.
pub open spec fn quoted_spec(run: Seq<StateV>) -> Result<TermV, ParseErrV> {
    let stripped = run.len() > 1 && (run[0] matches StateV::SymSt('"', _, _)) && (run[
        run.len() - 1
    ] matches StateV::SymSt('"', _, _));
    let lo: int = if stripped {
        1
    } else {
        0
    };
    let hi: int = if stripped {
        run.len() - 1
    } else {
        run.len() as int
    };
    match quote_fold(run.subrange(lo, hi), 0, hi - lo) {
        Err(e) => Err(e),
        Ok(t) => Ok(TermV::Str(t)),
    }
}

/// The texts that name a binary operator.
pub open spec fn is_binop_text(t: Seq<char>) -> bool {
    ||| t == "+"@
    ||| t == "-"@
    ||| t == "<"@
    ||| t == ">"@
    ||| t == "<="@
    ||| t == ">="@
    ||| t == "*"@
    ||| t == "="@
    ||| t == "**"@
    ||| t == "%"@
    ||| t == "/"@
}

/// The line and column of the first character of a run.
pub open spec fn first_pos(run: Seq<StateV>) -> (int, int) {
    if run.len() == 0 {
        (0, 0)
    } else {
        match run[0] {
            StateV::CharSt(c, l, co) => (l, co),
            StateV::NumSt(c, l, co) => (l, co),
            StateV::SymSt(c, l, co) => (l, co),
            StateV::LstStart(l, co) => (l, co),
            StateV::WhiteSp(l, co) => (l, co),
            StateV::Parsed(t) => (0, 0),
        }
    }
}

/// Classification of an operator run: a known operator text becomes an
/// operator atom, `!` alone the unary operator, anything else is an invalid
/// symbol.
pub open spec fn symbol_spec(run: Seq<StateV>) -> Result<TermV, ParseErrV> {
    match quote_fold(run, 0, run.len() as int) {
        Err(e) => Err(e),
        Ok(t) => {
            if is_binop_text(t) {
                Ok(TermV::BinaryOp(t))
            } else if t == "!"@ {
                Ok(TermV::UnaryOp(t))
            } else {
                Err(ParseErrV::InvalidSymbol(t, first_pos(run).0, first_pos(run).1))
            }
        },
    }
}

/// Classification of one whole run, dispatched on its first state.
pub open spec fn classify_spec(run: Seq<StateV>) -> Result<Option<TermV>, ParseErrV> {
    if run.len() == 0 {
        Ok(None)
    } else {
        let wrapped = match run[0] {
            StateV::CharSt(c, l, co) => unquoted_spec(run),
            StateV::NumSt(c, l, co) => number_spec(run),
            StateV::SymSt(c, l, co) => {
                if c == '.' || c == '_' {
                    unquoted_spec(run)
                } else if c == '"' {
                    quoted_spec(run)
                } else if c == '-' && run.len() > 1 && run[1] matches StateV::NumSt(_, _, _) {
                    number_spec(run)
                } else {
                    symbol_spec(run)
                }
            },
            _ => Ok(TermV::Unknown),
        };
        match wrapped {
            Err(e) => Err(e),
            Ok(t) => {
                if t is Unknown {
                    Ok(None)
                } else {
                    Ok(Some(t))
                }
            },
        }
    }
}

} // verus!

verus! {

/// Gather the text of `run[start..]` under the textual rules; computes
/// `text_fold`.
#[verifier::loop_isolation(false)]
fn collect_text(run: &Vec<State>, start: usize) -> (r: Result<String, ParseError>)
    requires
        start <= run@.len(),
    ensures
        r is Ok ==> text_fold(states_view(run@), start as int, run@.len() as int) == Ok::<
            Seq<char>,
            ParseErrV,
        >(r->Ok_0@),
        r is Err ==> text_fold(states_view(run@), start as int, run@.len() as int) == Err::<
            Seq<char>,
            ParseErrV,
        >(r->Err_0@),
{
    let ghost rv = states_view(run@);
    proof {
        lemma_states_view_len(run@);
    }
    let mut s = String::new();
    let mut i: usize = start;
    while i < run.len()
        invariant
            start <= i <= run.len(),
            text_fold(rv, start as int, i as int) == Ok::<Seq<char>, ParseErrV>(s@),
        decreases run.len() - i,
    {
        proof {
            lemma_states_view_index(run@, i as int);
        }
        match &run[i] {
            State::CharSt(c, l, co) => {
                push_char(&mut s, *c);
            },
            State::NumSt(c, l, co) => {
                push_char(&mut s, *c);
            },
            State::SymSt(c, l, co) => {
                if *c == '-' || *c == '_' {
                    push_char(&mut s, *c);
                } else {
                    proof {
                        lemma_text_fold_err(rv, start as int, i + 1, rv.len() as int);
                    }
                    return Err(ParseError::InvalidCharacter(*c, *l, *co));
                }
            },
            State::LstStart(l, co) => {
                proof {
                    lemma_text_fold_err(rv, start as int, i + 1, rv.len() as int);
                }
                return Err(ParseError::UnknownError);
            },
            State::WhiteSp(l, co) => {
                proof {
                    lemma_text_fold_err(rv, start as int, i + 1, rv.len() as int);
                }
                return Err(ParseError::UnknownError);
            },
            State::Parsed(t) => {
                proof {
                    lemma_text_fold_err(rv, start as int, i + 1, rv.len() as int);
                }
                return Err(ParseError::UnknownError);
            },
        }
        i += 1;
    }
    Ok(s)
}

/// Gather the text of `run[lo..hi]` with every character accepted; computes
/// `quote_fold` on that span.
#[verifier::loop_isolation(false)]
fn collect_quote(run: &Vec<State>, lo: usize, hi: usize) -> (r: Result<String, ParseError>)
    requires
        lo <= hi <= run@.len(),
    ensures
        r is Ok ==> quote_fold(
            states_view(run@).subrange(lo as int, hi as int),
            0,
            hi - lo,
        ) == Ok::<Seq<char>, ParseErrV>(r->Ok_0@),
        r is Err ==> quote_fold(
            states_view(run@).subrange(lo as int, hi as int),
            0,
            hi - lo,
        ) == Err::<Seq<char>, ParseErrV>(r->Err_0@),
{
    let ghost rv = states_view(run@);
    let ghost sub = rv.subrange(lo as int, hi as int);
    proof {
        lemma_states_view_len(run@);
    }
    let mut s = String::new();
    let mut i: usize = lo;
    while i < hi
        invariant
            lo <= i <= hi,
            quote_fold(sub, 0, i - lo) == Ok::<Seq<char>, ParseErrV>(s@),
        decreases hi - i,
    {
        proof {
            lemma_states_view_index(run@, i as int);
            assert(sub[i - lo] == rv[i as int]);
        }
        match &run[i] {
            State::CharSt(c, l, co) => {
                push_char(&mut s, *c);
            },
            State::NumSt(c, l, co) => {
                push_char(&mut s, *c);
            },
            State::SymSt(c, l, co) => {
                push_char(&mut s, *c);
            },
            State::LstStart(l, co) => {
                proof {
                    lemma_quote_fold_err(sub, 0, i + 1 - lo, hi - lo);
                }
                return Err(ParseError::UnknownError);
            },
            State::WhiteSp(l, co) => {
                proof {
                    lemma_quote_fold_err(sub, 0, i + 1 - lo, hi - lo);
                }
                return Err(ParseError::UnknownError);
            },
            State::Parsed(t) => {
                proof {
                    lemma_quote_fold_err(sub, 0, i + 1 - lo, hi - lo);
                }
                return Err(ParseError::UnknownError);
            },
        }
        i += 1;
    }
    Ok(s)
}

/// Parse a variable run; computes `variable_spec`.
fn parse_variable(run: &Vec<State>) -> (r: Result<Token, ParseError>)
    ensures
        r is Ok ==> variable_spec(states_view(run@)) == Ok::<TermV, ParseErrV>(r->Ok_0@),
        r is Ok ==> r->Ok_0@.wf(),
        r is Err ==> variable_spec(states_view(run@)) == Err::<TermV, ParseErrV>(r->Err_0@),
{
    proof {
        lemma_states_view_len(run@);
    }
    match collect_text(run, 0) {
        Ok(s) => Ok(Token::Var(s)),
        Err(e) => Err(e),
    }
}

/// Parse a keyword run; computes `keyword_spec`.
fn parse_keyword(run: &Vec<State>) -> (r: Result<Token, ParseError>)
    requires
        run@.len() >= 1,
    ensures
        r is Ok ==> keyword_spec(states_view(run@)) == Ok::<TermV, ParseErrV>(r->Ok_0@),
        r is Ok ==> r->Ok_0@.wf(),
        r is Err ==> keyword_spec(states_view(run@)) == Err::<TermV, ParseErrV>(r->Err_0@),
{
    proof {
        lemma_states_view_len(run@);
    }
    match collect_text(run, 1) {
        Ok(t) => {
            let mut s = String::new();
            push_char(&mut s, '.');
            s.append(t.as_str());
            proof {
                assert(s@ =~= seq!['.'] + t@);
            }
            Ok(Token::Keyword(s))
        },
        Err(e) => Err(e),
    }
}

/// Parse a wildcard run; computes `wildcard_spec`.
fn parse_wildcard(run: &Vec<State>) -> (r: Result<Token, ParseError>)
    requires
        run@.len() >= 1,
    ensures
        r is Ok ==> wildcard_spec(states_view(run@)) == Ok::<TermV, ParseErrV>(r->Ok_0@),
        r is Ok ==> r->Ok_0@.wf(),
        r is Err ==> wildcard_spec(states_view(run@)) == Err::<TermV, ParseErrV>(r->Err_0@),
{
    proof {
        lemma_states_view_len(run@);
    }
    match collect_text(run, 1) {
        Ok(t) => {
            let mut s = String::new();
            push_char(&mut s, '_');
            s.append(t.as_str());
            proof {
                assert(s@ =~= seq!['_'] + t@);
            }
            Ok(Token::Wildcard(s))
        },
        Err(e) => Err(e),
    }
}

/// Parse a bare string run; computes `plain_spec`.
fn parse_plain(run: &Vec<State>) -> (r: Result<Token, ParseError>)
    ensures
        r is Ok ==> plain_spec(states_view(run@)) == Ok::<TermV, ParseErrV>(r->Ok_0@),
        r is Ok ==> r->Ok_0@.wf(),
        r is Err ==> plain_spec(states_view(run@)) == Err::<TermV, ParseErrV>(r->Err_0@),
{
    proof {
        lemma_states_view_len(run@);
    }
    match collect_text(run, 0) {
        Ok(s) => {
            if str_eq(s.as_str(), "true") {
                Ok(Token::Bool(true))
            } else if str_eq(s.as_str(), "false") {
                Ok(Token::Bool(false))
            } else {
                Ok(Token::Str(s))
            }
        },
        Err(e) => Err(e),
    }
}

/// Parse a run that is not a number, quoted string or operator; computes
/// `unquoted_spec`.
fn parse_unquoted_string(run: &Vec<State>) -> (r: Result<Token, ParseError>)
    ensures
        r is Ok ==> unquoted_spec(states_view(run@)) == Ok::<TermV, ParseErrV>(r->Ok_0@),
        r is Ok ==> r->Ok_0@.wf(),
        r is Err ==> unquoted_spec(states_view(run@)) == Err::<TermV, ParseErrV>(r->Err_0@),
{
    proof {
        lemma_states_view_len(run@);
    }
    if run.len() > 0 {
        proof {
            lemma_states_view_index(run@, 0);
        }
        match &run[0] {
            State::CharSt(c, l, co) => {
                if *c >= 'A' && *c <= 'Z' {
                    return parse_variable(run);
                }
            },
            State::SymSt(c, l, co) => {
                if *c == '.' {
                    return parse_keyword(run);
                }
                if *c == '_' {
                    return parse_wildcard(run);
                }
            },
            _ => {},
        }
    }
    parse_plain(run)
}

/// Parse a quoted string run; computes `quoted_spec`.
fn parse_quoted_string(run: &Vec<State>) -> (r: Result<Token, ParseError>)
    ensures
        r is Ok ==> quoted_spec(states_view(run@)) == Ok::<TermV, ParseErrV>(r->Ok_0@),
        r is Ok ==> r->Ok_0@.wf(),
        r is Err ==> quoted_spec(states_view(run@)) == Err::<TermV, ParseErrV>(r->Err_0@),
{
    let ghost rv = states_view(run@);
    proof {
        lemma_states_view_len(run@);
    }
    let mut stripped = false;
    if run.len() > 1 {
        proof {
            lemma_states_view_index(run@, 0);
            lemma_states_view_index(run@, run@.len() - 1);
        }
        let first_q = match &run[0] {
            State::SymSt(c, _, _) => *c == '"',
            _ => false,
        };
        let last_q = match &run[run.len() - 1] {
            State::SymSt(c, _, _) => *c == '"',
            _ => false,
        };
        stripped = first_q && last_q;
    }
    let lo: usize = if stripped {
        1
    } else {
        0
    };
    let hi: usize = if stripped {
        run.len() - 1
    } else {
        run.len()
    };
    match collect_quote(run, lo, hi) {
        Ok(s) => Ok(Token::Str(s)),
        Err(e) => Err(e),
    }
}

/// Parse an operator run; computes `symbol_spec`.
fn parse_symbol(run: &Vec<State>) -> (r: Result<Token, ParseError>)
    ensures
        r is Ok ==> symbol_spec(states_view(run@)) == Ok::<TermV, ParseErrV>(r->Ok_0@),
        r is Ok ==> r->Ok_0@.wf(),
        r is Err ==> symbol_spec(states_view(run@)) == Err::<TermV, ParseErrV>(r->Err_0@),
{
    let ghost rv = states_view(run@);
    proof {
        lemma_states_view_len(run@);
        assert(rv.subrange(0, rv.len() as int) =~= rv);
    }
    match collect_quote(run, 0, run.len()) {
        Ok(s) => {
            let is_bin = str_eq(s.as_str(), "+") || str_eq(s.as_str(), "-") || str_eq(
                s.as_str(),
                "<",
            ) || str_eq(s.as_str(), ">") || str_eq(s.as_str(), "<=") || str_eq(s.as_str(), ">=")
                || str_eq(s.as_str(), "*") || str_eq(s.as_str(), "=") || str_eq(s.as_str(), "**")
                || str_eq(s.as_str(), "%") || str_eq(s.as_str(), "/");
            if is_bin {
                Ok(Token::BinaryOp(s))
            } else if str_eq(s.as_str(), "!") {
                Ok(Token::UnaryOp(s))
            } else {
                if run.len() == 0 {
                    Err(ParseError::InvalidSymbol(s, 0, 0))
                } else {
                    proof {
                        lemma_states_view_index(run@, 0);
                    }
                    let (l, co) = match &run[0] {
                        State::CharSt(_, l, co) => (*l, *co),
                        State::NumSt(_, l, co) => (*l, *co),
                        State::SymSt(_, l, co) => (*l, *co),
                        State::LstStart(l, co) => (*l, *co),
                        State::WhiteSp(l, co) => (*l, *co),
                        State::Parsed(_) => (0, 0),
                    };
                    Err(ParseError::InvalidSymbol(s, l, co))
                }
            }
        },
        Err(e) => Err(e),
    }
}

/// Classify one run into an atom, dispatching on its first state; computes
/// `classify_spec`.
fn classify_run(run: &Vec<State>) -> (r: Result<Option<Token>, ParseError>)
    requires
        run_digits_wf(states_view(run@)),
    ensures
        r matches Ok(Some(t)) ==> classify_spec(states_view(run@)) == Ok::<
            Option<TermV>,
            ParseErrV,
        >(Some(t@)) && t@.wf(),
        r matches Ok(None) ==> classify_spec(states_view(run@)) == Ok::<
            Option<TermV>,
            ParseErrV,
        >(None),
        r matches Err(e) ==> classify_spec(states_view(run@)) == Err::<
            Option<TermV>,
            ParseErrV,
        >(e@),
{
    let ghost rv = states_view(run@);
    proof {
        lemma_states_view_len(run@);
    }
    if run.len() == 0 {
        return Ok(None);
    }
    proof {
        lemma_states_view_index(run@, 0);
    }
    let res: Result<Token, ParseError> = match &run[0] {
        State::CharSt(_, _, _) => parse_unquoted_string(run),
        State::NumSt(_, _, _) => parse_number(run),
        State::SymSt(c, _, _) => {
            if *c == '.' || *c == '_' {
                parse_unquoted_string(run)
            } else if *c == '"' {
                parse_quoted_string(run)
            } else {
                let neg_num = if *c == '-' && run.len() > 1 {
                    proof {
                        lemma_states_view_index(run@, 1);
                    }
                    match &run[1] {
                        State::NumSt(_, _, _) => true,
                        _ => false,
                    }
                } else {
                    false
                };
                if neg_num {
                    parse_number(run)
                } else {
                    parse_symbol(run)
                }
            }
        },
        State::LstStart(_, _) => {
            return Ok(None);
        },
        State::WhiteSp(_, _) => {
            return Ok(None);
        },
        State::Parsed(_) => {
            return Ok(None);
        },
    };
    match res {
        Ok(t) => Ok(Some(t)),
        Err(e) => Err(e),
    }
}

} // verus!

verus! {

// ---------------------------------------------------------------------------
// The list closer: a span of states between an open bracket and its closing
// bracket becomes one list term.
// ---------------------------------------------------------------------------

/// Every parsed sub-term in the states is well formed.
pub open spec fn states_tokens_wf(s: Seq<StateV>) -> bool {
    forall|i: int|
        0 <= i < s.len() ==> ((#[trigger] s[i]) matches StateV::Parsed(t) ==> t.wf())
}

/// One step of the list fold: characters gather into the pending run,
/// whitespace flushes the run through the classifier, parsed sub-terms join
/// the list directly.
pub open spec fn plist_step(lst: Seq<TermV>, acc: Seq<StateV>, sv: StateV) -> Result<
    (Seq<TermV>, Seq<StateV>),
    ParseErrV,
> {
    match sv {
        StateV::WhiteSp(l, co) => match classify_spec(acc) {
            Err(e) => Err(e),
            Ok(None) => Ok((lst, Seq::empty())),
            Ok(Some(t)) => Ok((lst.push(t), Seq::empty())),
        },
        StateV::CharSt(c, l, co) => Ok((lst, acc.push(sv))),
        StateV::NumSt(c, l, co) => Ok((lst, acc.push(sv))),
        StateV::SymSt(c, l, co) => Ok((lst, acc.push(sv))),
        StateV::Parsed(t) => Ok((lst.push(t), acc)),
        StateV::LstStart(l, co) => Ok((lst, acc)),
    }
}

/// The list fold over `run[..i]`.
pub open spec fn plist_fold(run: Seq<StateV>, i: int) -> Result<
    (Seq<TermV>, Seq<StateV>),
    ParseErrV,
>
    decreases i,
{
    if i <= 0 {
        Ok((Seq::empty(), Seq::empty()))
    } else {
        match plist_fold(run, i - 1) {
            Err(e) => Err(e),
            Ok((lst, acc)) => plist_step(lst, acc, run[i - 1]),
        }
    }
}

proof fn lemma_plist_fold_err(run: Seq<StateV>, i: int, j: int)
    requires
        plist_fold(run, i) is Err,
        i <= j,
    ensures
        plist_fold(run, j) == plist_fold(run, i),
    decreases j - i,
{
    if j > i {
        lemma_plist_fold_err(run, i, j - 1);
    }
}

/// The list a whole span of states denotes: the fold, then a final flush of
/// the pending run.
pub open spec fn plist_spec(run: Seq<StateV>) -> Result<TermV, ParseErrV> {
    match plist_fold(run, run.len() as int) {
        Err(e) => Err(e),
        Ok((lst, acc)) => match classify_spec(acc) {
            Err(e) => Err(e),
            Ok(None) => Ok(TermV::Lst(lst)),
            Ok(Some(t)) => Ok(TermV::Lst(lst.push(t))),
        },
    }
}

/// Close one list: classify the runs of a span of states; computes
/// `plist_spec`.
#[verifier::loop_isolation(false)]
fn parse_list(run: &Vec<State>) -> (r: Result<Token, ParseError>)
    requires
        run_digits_wf(states_view(run@)),
        states_tokens_wf(states_view(run@)),
    ensures
        r is Ok ==> plist_spec(states_view(run@)) == Ok::<TermV, ParseErrV>(r->Ok_0@),
        r is Ok ==> r->Ok_0@.wf(),
        r is Err ==> plist_spec(states_view(run@)) == Err::<TermV, ParseErrV>(r->Err_0@),
{
    let ghost rv = states_view(run@);
    proof {
        lemma_states_view_len(run@);
    }
    let mut lst: Vec<Token> = Vec::new();
    let mut acc: Vec<State> = Vec::new();
    proof {
        assert(states_view(acc@) =~= Seq::<StateV>::empty());
        assert(view_seq(lst@) =~= Seq::<TermV>::empty());
    }
    let mut i: usize = 0;
    while i < run.len()
        invariant
            i <= run.len(),
            plist_fold(rv, i as int) == Ok::<(Seq<TermV>, Seq<StateV>), ParseErrV>(
                (view_seq(lst@), states_view(acc@)),
            ),
            run_digits_wf(states_view(acc@)),
            forall|j: int| 0 <= j < lst@.len() ==> (#[trigger] lst@[j]@).wf(),
        decreases run.len() - i,
    {
        proof {
            lemma_states_view_index(run@, i as int);
            lemma_states_view_len(acc@);
        }
        match &run[i] {
            State::WhiteSp(l, co) => {
                match classify_run(&acc) {
                    Err(e) => {
                        proof {
                            lemma_plist_fold_err(rv, i + 1, rv.len() as int);
                        }
                        return Err(e);
                    },
                    Ok(None) => {
                        acc.clear();
                        proof {
                            assert(states_view(acc@) =~= Seq::<StateV>::empty());
                        }
                    },
                    Ok(Some(t)) => {
                        let ghost pre = lst@;
                        lst.push(t);
                        acc.clear();
                        proof {
                            lemma_view_seq_push(pre, lst@[pre.len() as int]);
                            assert(lst@ =~= pre.push(lst@[pre.len() as int]));
                            assert(states_view(acc@) =~= Seq::<StateV>::empty());
                        }
                    },
                }
            },
            State::CharSt(c, l, co) => {
                let ghost preacc = acc@;
                acc.push(State::CharSt(*c, *l, *co));
                proof {
                    lemma_states_view_push(preacc, acc@[preacc.len() as int]);
                    assert(acc@ =~= preacc.push(acc@[preacc.len() as int]));
                }
            },
            State::NumSt(c, l, co) => {
                let ghost preacc = acc@;
                acc.push(State::NumSt(*c, *l, *co));
                proof {
                    lemma_states_view_push(preacc, acc@[preacc.len() as int]);
                    assert(acc@ =~= preacc.push(acc@[preacc.len() as int]));
                }
            },
            State::SymSt(c, l, co) => {
                let ghost preacc = acc@;
                acc.push(State::SymSt(*c, *l, *co));
                proof {
                    lemma_states_view_push(preacc, acc@[preacc.len() as int]);
                    assert(acc@ =~= preacc.push(acc@[preacc.len() as int]));
                }
            },
            State::Parsed(t) => {
                let ghost pre = lst@;
                let c = t.duplicate();
                lst.push(c);
                proof {
                    lemma_view_seq_push(pre, c);
                    assert(lst@ =~= pre.push(c));
                }
            },
            State::LstStart(l, co) => {},
        }
        i += 1;
    }
    match classify_run(&acc) {
        Err(e) => Err(e),
        Ok(None) => {
            proof {
                lemma_view_seq_len(lst@);
                assert forall|j: int| 0 <= j < view_seq(lst@).len() implies (#[trigger] view_seq(
                    lst@,
                )[j]).wf() by {
                    lemma_view_seq_index(lst@, j);
                };
            }
            Ok(Token::Lst(lst))
        },
        Ok(Some(t)) => {
            let ghost pre = lst@;
            lst.push(t);
            proof {
                lemma_view_seq_push(pre, lst@[pre.len() as int]);
                assert(lst@ =~= pre.push(lst@[pre.len() as int]));
                lemma_view_seq_len(lst@);
                assert forall|j: int| 0 <= j < view_seq(lst@).len() implies (#[trigger] view_seq(
                    lst@,
                )[j]).wf() by {
                    lemma_view_seq_index(lst@, j);
                };
            }
            Ok(Token::Lst(lst))
        },
    }
}

} // verus!

verus! {

// ---------------------------------------------------------------------------
// The scanner: one pass over the characters, keeping a stack of states.
// ---------------------------------------------------------------------------

/// The scanner's running state: the stack of lexical states and the position
/// counters. The column counter keeps counting across lines.
pub struct ScanSt {
    pub states: Seq<StateV>,
    pub line: int,
    pub col: int,
}

/// The index of the rightmost open-bracket marker, or a negative value when
/// there is none.
pub open spec fn find_open(s: Seq<StateV>) -> int
    decreases s.len(),
{
    if s.len() == 0 {
        -1
    } else if s.last() is LstStart {
        s.len() - 1
    } else {
        find_open(s.drop_last())
    }
}

/// The model of a state sequence distributes over subranges.
proof fn lemma_states_view_subrange(s: Seq<State>, a: int, b: int)
    requires
        0 <= a <= b <= s.len(),
    ensures
        states_view(s.subrange(a, b)) == states_view(s).subrange(a, b),
{
    lemma_states_view_len(s);
    lemma_states_view_len(s.subrange(a, b));
    assert forall|i: int| 0 <= i < b - a implies states_view(s.subrange(a, b))[i] == states_view(
        s,
    ).subrange(a, b)[i] by {
        lemma_states_view_index(s.subrange(a, b), i);
        lemma_states_view_index(s, a + i);
    };
    assert(states_view(s.subrange(a, b)) =~= states_view(s).subrange(a, b));
}

/// One step of the scan: newlines only advance the line counter; brackets
/// open and close lists; spaces mark run boundaries; other characters join
/// the stack as letter, digit or symbol states.
pub open spec fn scan_step(st: ScanSt, c: char) -> Result<ScanSt, ParseErrV> {
    if c == '\n' {
        Ok(ScanSt { states: st.states, line: st.line + 1, col: st.col })
    } else {
        let col = st.col + 1;
        let line = st.line;
        if c == '(' {
            Ok(ScanSt { states: st.states.push(StateV::LstStart(line, col)), line, col })
        } else if c == ')' {
            let j = find_open(st.states);
            if j < 0 {
                Err(ParseErrV::MissingBracket(line))
            } else {
                match plist_spec(st.states.subrange(j + 1, st.states.len() as int)) {
                    Err(e) => Err(e),
                    Ok(t) => Ok(
                        ScanSt {
                            states: st.states.subrange(0, j).push(StateV::Parsed(t)),
                            line,
                            col,
                        },
                    ),
                }
            }
        } else if c == ' ' {
            if st.states.len() > 0 && st.states.last() is WhiteSp {
                Ok(ScanSt { states: st.states, line, col })
            } else {
                Ok(ScanSt { states: st.states.push(StateV::WhiteSp(line, col)), line, col })
            }
        } else if is_letter(c) {
            Ok(ScanSt { states: st.states.push(StateV::CharSt(c, line, col)), line, col })
        } else if is_digit(c) {
            Ok(ScanSt { states: st.states.push(StateV::NumSt(c, line, col)), line, col })
        } else {
            Ok(ScanSt { states: st.states.push(StateV::SymSt(c, line, col)), line, col })
        }
    }
}

/// The scan fold over `s[..i]`.
pub open spec fn scan_fold(s: Seq<char>, i: int) -> Result<ScanSt, ParseErrV>
    decreases i,
{
    if i <= 0 {
        Ok(ScanSt { states: Seq::empty(), line: 1, col: 0 })
    } else {
        match scan_fold(s, i - 1) {
            Err(e) => Err(e),
            Ok(st) => scan_step(st, s[i - 1]),
        }
    }
}

proof fn lemma_scan_fold_err(s: Seq<char>, i: int, j: int)
    requires
        scan_fold(s, i) is Err,
        i <= j,
    ensures
        scan_fold(s, j) == scan_fold(s, i),
    decreases j - i,
{
    if j > i {
        lemma_scan_fold_err(s, i, j - 1);
    }
}

/// The final harvest: the scan must leave only parsed terms, and the first
/// of them is the result.
pub open spec fn finalize(states: Seq<StateV>) -> Result<TermV, ParseErrV> {
    if states.len() == 0 {
        Err(ParseErrV::UnknownError)
    } else if forall|i: int| 0 <= i < states.len() ==> (#[trigger] states[i]) is Parsed {
        Ok(states[0]->Parsed_0)
    } else {
        Err(ParseErrV::UnknownError)
    }
}

/// What parsing a whole text yields: the scan fold over every character,
/// then the final harvest.
pub open spec fn parse_spec(s: Seq<char>) -> Result<TermV, ParseErrV> {
    match scan_fold(s, s.len() as int) {
        Err(e) => Err(e),
        Ok(st) => finalize(st.states),
    }
}

/// True exactly when the state is an open-bracket marker.
fn is_open_marker(s: &State) -> (b: bool)
    ensures
        b == (s@ is LstStart),
{
    match s {
        State::LstStart(_, _) => true,
        _ => false,
    }
}

/// The parser. One scan over the characters of the input builds a stack of
/// lexical states; bracket closers fold spans of that stack into list terms.
pub struct Parser {}

impl Parser {
    /// Parse a whole text into one term; computes `parse_spec` on the
    /// text's characters. The input must leave the scanner's position
    /// counters within machine range.
    #[verifier::loop_isolation(false)]
    pub fn parse(&self, input: String) -> (r: Result<Token, ParseError>)
        requires
            input@.len() < 0x7fff_0000,
        ensures
            r is Ok ==> parse_spec(input@) == Ok::<TermV, ParseErrV>(r->Ok_0@),
            r is Ok ==> r->Ok_0@.wf(),
            r is Err ==> parse_spec(input@) == Err::<TermV, ParseErrV>(r->Err_0@),
    {
        let ghost text = input@;
        let s = input.as_str();
        let n = s.unicode_len();
        let mut states: Vec<State> = Vec::new();
        let mut line: i32 = 1;
        let mut col: i32 = 0;
        proof {
            assert(states_view(states@) =~= Seq::<StateV>::empty());
        }
        let mut i: usize = 0;
        while i < n
            invariant
                i <= n,
                n == text.len(),
                s@ == text,
                scan_fold(text, i as int) == Ok::<ScanSt, ParseErrV>(
                    ScanSt { states: states_view(states@), line: line as int, col: col as int },
                ),
                1 <= line as int <= 1 + i as int,
                0 <= col as int <= i as int,
                run_digits_wf(states_view(states@)),
                states_tokens_wf(states_view(states@)),
            decreases n - i,
        {
            let ghost sv = states_view(states@);
            proof {
                lemma_states_view_len(states@);
            }
            let c = s.get_char(i);
            if c == '\n' {
                line = line + 1;
            } else {
                col = col + 1;
                if c == '(' {
                    let ghost pre = states@;
                    states.push(State::LstStart(line, col));
                    proof {
                        lemma_states_view_push(pre, states@[pre.len() as int]);
                        assert(states@ =~= pre.push(states@[pre.len() as int]));
                    }
                } else if c == ')' {
                    let mut j: usize = states.len();
                    proof {
                        assert(sv.subrange(0, j as int) =~= sv);
                    }
                    while j > 0 && !is_open_marker(&states[j - 1])
                        invariant
                            0 <= j <= states.len(),
                            find_open(sv.subrange(0, j as int)) == find_open(sv),
                        decreases j,
                    {
                        proof {
                            lemma_states_view_index(states@, j - 1);
                            assert(sv.subrange(0, j as int).last() == sv[j - 1]);
                            assert(sv.subrange(0, j as int).drop_last() =~= sv.subrange(
                                0,
                                j - 1,
                            ));
                        }
                        j = j - 1;
                    }
                    if j == 0 {
                        proof {
                            assert(sv.subrange(0, 0) =~= Seq::<StateV>::empty());
                            assert(find_open(sv) == -1);
                            lemma_scan_fold_err(text, i + 1, text.len() as int);
                        }
                        return Err(ParseError::MissingBracket(line));
                    }
                    proof {
                        lemma_states_view_index(states@, j - 1);
                        assert(sv.subrange(0, j as int).last() == sv[j - 1]);
                        assert(find_open(sv.subrange(0, j as int)) == j - 1);
                        assert(find_open(sv) == j - 1);
                    }
                    let ghost pre = states@;
                    let sub = states.split_off(j);
                    states.pop();
                    proof {
                        lemma_states_view_subrange(pre, j as int, pre.len() as int);
                        assert(sub@ == pre.subrange(j as int, pre.len() as int));
                        assert(states_view(sub@) == sv.subrange(j as int, sv.len() as int));
                        assert(states@ =~= pre.subrange(0, j - 1));
                        lemma_states_view_subrange(pre, 0, j - 1);
                        assert(states_view(states@) == sv.subrange(0, j - 1));
                    }
                    match parse_list(&sub) {
                        Err(e) => {
                            proof {
                                lemma_scan_fold_err(text, i + 1, text.len() as int);
                            }
                            return Err(e);
                        },
                        Ok(t) => {
                            let ghost pre = states@;
                            states.push(State::Parsed(t));
                            proof {
                                lemma_states_view_push(pre, states@[pre.len() as int]);
                                assert(states@ =~= pre.push(states@[pre.len() as int]));
                            }
                        },
                    }
                } else if c == ' ' {
                    let push_ws = if states.len() > 0 {
                        proof {
                            lemma_states_view_index(states@, states@.len() - 1);
                        }
                        match &states[states.len() - 1] {
                            State::WhiteSp(_, _) => false,
                            _ => true,
                        }
                    } else {
                        true
                    };
                    if push_ws {
                        let ghost pre = states@;
                        states.push(State::WhiteSp(line, col));
                        proof {
                            lemma_states_view_push(pre, states@[pre.len() as int]);
                            assert(states@ =~= pre.push(states@[pre.len() as int]));
                        }
                    }
                } else if (c >= 'A' && c <= 'Z') || (c >= 'a' && c <= 'z') {
                    let ghost pre = states@;
                    states.push(State::CharSt(c, line, col));
                    proof {
                        lemma_states_view_push(pre, states@[pre.len() as int]);
                        assert(states@ =~= pre.push(states@[pre.len() as int]));
                    }
                } else if c >= '0' && c <= '9' {
                    let ghost pre = states@;
                    states.push(State::NumSt(c, line, col));
                    proof {
                        lemma_states_view_push(pre, states@[pre.len() as int]);
                        assert(states@ =~= pre.push(states@[pre.len() as int]));
                    }
                } else {
                    let ghost pre = states@;
                    states.push(State::SymSt(c, line, col));
                    proof {
                        lemma_states_view_push(pre, states@[pre.len() as int]);
                        assert(states@ =~= pre.push(states@[pre.len() as int]));
                    }
                }
            }
            i += 1;
        }
        let ghost sv = states_view(states@);
        proof {
            lemma_states_view_len(states@);
        }
        if states.len() == 0 {
            return Err(ParseError::UnknownError);
        }
        let mut m: usize = 0;
        while m < states.len()
            invariant
                m <= states.len(),
                forall|q: int| 0 <= q < m ==> (#[trigger] sv[q]) is Parsed,
            decreases states.len() - m,
        {
            proof {
                lemma_states_view_index(states@, m as int);
            }
            match &states[m] {
                State::Parsed(_) => {},
                _ => {
                    return Err(ParseError::UnknownError);
                },
            }
            m += 1;
        }
        proof {
            lemma_states_view_index(states@, 0);
        }
        match &states[0] {
            State::Parsed(t) => Ok(t.duplicate()),
            _ => {
                proof {
                    assert(sv[0] is Parsed);
                    assert(false);
                }
                Err(ParseError::UnknownError)
            },
        }
    }
}

} // verus!

verus! {

// ---------------------------------------------------------------------------
// The parser never emits the `Unknown` sentinel: every classified atom is a
// plain atom, and every list is built from classified atoms and earlier
// parsed terms.
// ---------------------------------------------------------------------------

proof fn lemma_classify_clean(run: Seq<StateV>)
    ensures
        classify_spec(run) matches Ok(Some(t)) ==> t.no_unknown(),
{
    if run.len() > 0 {
        match run[0] {
            StateV::CharSt(c, l, co) => {
                lemma_unquoted_clean(run);
            },
            StateV::NumSt(c, l, co) => {
                lemma_number_clean(run);
            },
            StateV::SymSt(c, l, co) => {
                if c == '.' || c == '_' {
                    lemma_unquoted_clean(run);
                } else if c == '"' {
                } else if c == '-' && run.len() > 1 && run[1] is NumSt {
                    lemma_number_clean(run);
                } else {
                }
            },
            _ => {},
        }
    }
}

proof fn lemma_number_clean(run: Seq<StateV>)
    ensures
        number_spec(run) matches Ok(t) ==> t.no_unknown(),
{
}

proof fn lemma_unquoted_clean(run: Seq<StateV>)
    ensures
        unquoted_spec(run) matches Ok(t) ==> t.no_unknown(),
{
}

/// Every parsed term already on the span is sentinel-free.
pub open spec fn states_clean(s: Seq<StateV>) -> bool {
    forall|i: int|
        0 <= i < s.len() ==> ((#[trigger] s[i]) matches StateV::Parsed(t) ==> t.no_unknown())
}

proof fn lemma_plist_fold_clean(run: Seq<StateV>, i: int)
    requires
        states_clean(run),
        0 <= i <= run.len(),
    ensures
        plist_fold(run, i) matches Ok((lst, acc)) ==> forall|j: int|
            0 <= j < lst.len() ==> (#[trigger] lst[j]).no_unknown(),
    decreases i,
{
    if i > 0 {
        lemma_plist_fold_clean(run, i - 1);
        match plist_fold(run, i - 1) {
            Ok((lst, acc)) => {
                lemma_classify_clean(acc);
                match run[i - 1] {
                    StateV::WhiteSp(l, co) => {
                        match classify_spec(acc) {
                            Ok(Some(t)) => {
                                lemma_clean_push(lst, t);
                            },
                            _ => {},
                        }
                    },
                    StateV::Parsed(t) => {
                        lemma_clean_push(lst, t);
                    },
                    _ => {},
                }
            },
            _ => {},
        }
    }
}

proof fn lemma_clean_push(lst: Seq<TermV>, t: TermV)
    requires
        forall|j: int| 0 <= j < lst.len() ==> (#[trigger] lst[j]).no_unknown(),
        t.no_unknown(),
    ensures
        forall|j: int| 0 <= j < lst.push(t).len() ==> (#[trigger] lst.push(t)[j]).no_unknown(),
{
    assert forall|j: int| 0 <= j < lst.push(t).len() implies (
    #[trigger] lst.push(t)[j]).no_unknown() by {
        if j < lst.len() {
            assert(lst.push(t)[j] == lst[j]);
        } else {
            assert(lst.push(t)[j] == t);
        }
    };
}

proof fn lemma_plist_clean(run: Seq<StateV>)
    requires
        states_clean(run),
    ensures
        plist_spec(run) matches Ok(t) ==> t.no_unknown(),
{
    lemma_plist_fold_clean(run, run.len() as int);
    match plist_fold(run, run.len() as int) {
        Ok((lst, acc)) => {
            lemma_classify_clean(acc);
            match classify_spec(acc) {
                Ok(Some(t)) => {
                    lemma_clean_push(lst, t);
                },
                _ => {},
            }
        },
        _ => {},
    }
}

proof fn lemma_states_clean_push(s: Seq<StateV>, x: StateV)
    requires
        states_clean(s),
        x matches StateV::Parsed(p) ==> p.no_unknown(),
    ensures
        states_clean(s.push(x)),
{
    assert forall|m: int| 0 <= m < s.push(x).len() implies ((#[trigger] s.push(x)[m])
        matches StateV::Parsed(p) ==> p.no_unknown()) by {
        if m < s.len() {
            assert(s.push(x)[m] == s[m]);
        } else {
            assert(s.push(x)[m] == x);
        }
    };
}

proof fn lemma_find_open_bound(st: Seq<StateV>)
    ensures
        find_open(st) < st.len(),
    decreases st.len(),
{
    if st.len() > 0 && !(st.last() is LstStart) {
        lemma_find_open_bound(st.drop_last());
    }
}

proof fn lemma_scan_clean_step(st: ScanSt, c: char)
    requires
        states_clean(st.states),
    ensures
        scan_step(st, c) matches Ok(n) ==> states_clean(n.states),
{
    if c == '\n' {
    } else if c == '(' {
        lemma_states_clean_push(st.states, StateV::LstStart(st.line, st.col + 1));
    } else if c == ')' {
        let j = find_open(st.states);
        if j >= 0 {
            lemma_find_open_bound(st.states);
            let span = st.states.subrange(j + 1, st.states.len() as int);
            assert(forall|m: int| 0 <= m < span.len() ==> span[m] == st.states[j + 1 + m]);
            assert(states_clean(span));
            lemma_plist_clean(span);
            match plist_spec(span) {
                Ok(t) => {
                    let kept = st.states.subrange(0, j);
                    assert(forall|m: int| 0 <= m < kept.len() ==> kept[m] == st.states[m]);
                    assert(states_clean(kept));
                    lemma_states_clean_push(kept, StateV::Parsed(t));
                },
                _ => {},
            }
        }
    } else if c == ' ' {
        if !(st.states.len() > 0 && st.states.last() is WhiteSp) {
            lemma_states_clean_push(st.states, StateV::WhiteSp(st.line, st.col + 1));
        }
    } else if is_letter(c) {
        lemma_states_clean_push(st.states, StateV::CharSt(c, st.line, st.col + 1));
    } else if is_digit(c) {
        lemma_states_clean_push(st.states, StateV::NumSt(c, st.line, st.col + 1));
    } else {
        lemma_states_clean_push(st.states, StateV::SymSt(c, st.line, st.col + 1));
    }
}

proof fn lemma_scan_clean(s: Seq<char>, i: int)
    requires
        0 <= i <= s.len(),
    ensures
        scan_fold(s, i) matches Ok(st) ==> states_clean(st.states),
    decreases i,
{
    if i == 0 {
        assert(scan_fold(s, 0) == Ok::<ScanSt, ParseErrV>(
            ScanSt { states: Seq::empty(), line: 1, col: 0 },
        ));
        assert(states_clean(Seq::<StateV>::empty()));
    }
    if i > 0 {
        lemma_scan_clean(s, i - 1);
        match scan_fold(s, i - 1) {
            Ok(st) => {
                assert(scan_fold(s, i) == scan_step(st, s[i - 1]));
                lemma_scan_clean_step(st, s[i - 1]);
            },
            _ => {},
        }
    }
}

/// The parser's result is sentinel-free: no `Unknown` anywhere in a
/// successfully parsed term.
pub proof fn lemma_parse_clean(s: Seq<char>)
    ensures
        parse_spec(s) matches Ok(t) ==> t.no_unknown(),
{
    lemma_scan_clean(s, s.len() as int);
    match scan_fold(s, s.len() as int) {
        Ok(st) => {
            if st.states.len() > 0 {
                assert(st.states[0] matches StateV::Parsed(t) ==> t.no_unknown());
            }
        },
        _ => {},
    }
}

} // verus!
