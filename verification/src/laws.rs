//! Laws of the parser, proved against its specification: bracket balance
//! and the round trip from a rendered literal back through the parser.

use vstd::prelude::*;
use crate::token::{Num, TermV};
use crate::error::ParseErrV;
use crate::parser::{StateV, scan_fold, ScanSt, find_open, plist_fold, plist_spec, classify_spec,
    parse_spec, finalize, scan_step, is_letter, is_digit, is_upper};
use crate::strutil::{dec_digits, digit_char};

verus! {

/// How often a character occurs in a text.
pub open spec fn count_char(s: Seq<char>, c: char) -> int
    decreases s.len(),
{
    if s.len() == 0 {
        0
    } else {
        count_char(s.drop_last(), c) + if s.last() == c {
            1int
        } else {
            0int
        }
    }
}

/// A text of brackets and spaces only.
pub open spec fn simple_text(s: Seq<char>) -> bool {
    forall|i: int| 0 <= i < s.len() ==> s[i] == '(' || s[i] == ')' || (#[trigger] s[i]) == ' '
}

/// Scanner states that carry no pending characters.
pub open spec fn simple_states(st: Seq<StateV>) -> bool {
    forall|i: int|
        0 <= i < st.len() ==> (#[trigger] st[i]) is LstStart || st[i] is WhiteSp || st[i]
            is Parsed
}

/// The number of open-bracket markers on the stack.
pub open spec fn count_open(st: Seq<StateV>) -> int
    decreases st.len(),
{
    if st.len() == 0 {
        0
    } else {
        count_open(st.drop_last()) + if st.last() is LstStart {
            1int
        } else {
            0int
        }
    }
}

proof fn lemma_count_open_nonneg(st: Seq<StateV>)
    ensures
        count_open(st) >= 0,
    decreases st.len(),
{
    if st.len() > 0 {
        lemma_count_open_nonneg(st.drop_last());
    }
}

proof fn lemma_find_open_none(st: Seq<StateV>)
    requires
        count_open(st) == 0,
    ensures
        find_open(st) == -1,
    decreases st.len(),
{
    if st.len() > 0 {
        lemma_count_open_nonneg(st.drop_last());
        lemma_find_open_none(st.drop_last());
    }
}

proof fn lemma_find_open_some(st: Seq<StateV>)
    requires
        count_open(st) > 0,
    ensures
        0 <= find_open(st) < st.len(),
        st[find_open(st)] is LstStart,
        count_open(st.subrange(0, find_open(st))) == count_open(st) - 1,
    decreases st.len(),
{
    if st.last() is LstStart {
        assert(st.subrange(0, st.len() - 1) =~= st.drop_last());
    } else {
        lemma_find_open_some(st.drop_last());
        let j = find_open(st.drop_last());
        assert(st.drop_last()[j] == st[j]);
        assert(st.subrange(0, j) =~= st.drop_last().subrange(0, j));
    }
}

proof fn lemma_plist_simple(run: Seq<StateV>, i: int)
    requires
        simple_states(run),
        0 <= i <= run.len(),
    ensures
        plist_fold(run, i) is Ok,
        plist_fold(run, i)->Ok_0.1 == Seq::<StateV>::empty(),
    decreases i,
{
    if i > 0 {
        lemma_plist_simple(run, i - 1);
        assert(classify_spec(Seq::<StateV>::empty()) == Ok::<Option<TermV>, ParseErrV>(None));
    }
}

/// One step of the scan over the simple alphabet, in every detail the
/// balance argument needs.
proof fn lemma_scan_simple(s: Seq<char>, i: int)
    requires
        simple_text(s),
        0 <= i <= s.len(),
    ensures
        match scan_fold(s, i) {
            Ok(st) => {
                &&& simple_states(st.states)
                &&& count_open(st.states) == count_char(s.take(i), '(') - count_char(
                    s.take(i),
                    ')',
                )
                &&& forall|j: int|
                    0 <= j <= i ==> count_char(#[trigger] s.take(j), ')') <= count_char(
                        s.take(j),
                        '(',
                    )
            },
            Err(e) => {
                &&& exists|j: int|
                    0 <= j <= i && count_char(#[trigger] s.take(j), ')') > count_char(
                        s.take(j),
                        '(',
                    )
                &&& e is MissingBracket
            },
        },
    decreases i,
{
    if i == 0 {
        assert(s.take(0) =~= Seq::<char>::empty());
        assert(count_char(s.take(0), '(') == 0);
        assert(count_char(s.take(0), ')') == 0);
        assert(forall|j: int|
            0 <= j <= 0 ==> count_char(#[trigger] s.take(j), ')') <= count_char(s.take(j), '('));
    } else {
        lemma_scan_simple(s, i - 1);
        let c = s[i - 1];
        assert(c == '(' || c == ')' || c == ' ');
        assert(s.take(i).drop_last() =~= s.take(i - 1));
        assert(s.take(i).last() == c);
        assert(count_char(s.take(i), '(') == count_char(s.take(i - 1), '(') + if c == '(' {
            1int
        } else {
            0int
        });
        assert(count_char(s.take(i), ')') == count_char(s.take(i - 1), ')') + if c == ')' {
            1int
        } else {
            0int
        });
        match scan_fold(s, i - 1) {
            Err(e) => {
                let j = choose|j: int|
                    0 <= j <= i - 1 && count_char(#[trigger] s.take(j), ')') > count_char(
                        s.take(j),
                        '(',
                    );
                assert(0 <= j <= i && count_char(s.take(j), ')') > count_char(s.take(j), '('));
            },
            Ok(st) => {
                assert(c != '\n');
                if c == '(' {
                    assert(scan_fold(s, i) == scan_step(st, c));
                    let st2 = scan_step(st, c)->Ok_0;
                    assert(st2.states == st.states.push(
                        StateV::LstStart(st.line, st.col + 1),
                    ));
                    assert(st2.states.drop_last() =~= st.states);
                    assert(count_open(st2.states) == count_open(st.states) + 1);
                    assert(forall|j: int|
                        0 <= j <= i ==> count_char(#[trigger] s.take(j), ')') <= count_char(
                            s.take(j),
                            '(',
                        ));
                } else if c == ')' {
                    if count_open(st.states) == 0 {
                        lemma_find_open_none(st.states);
                        assert(scan_fold(s, i) == Err::<ScanSt, ParseErrV>(
                            ParseErrV::MissingBracket(st.line),
                        ));
                        assert(count_char(s.take(i), ')') > count_char(s.take(i), '('));
                    } else {
                        lemma_find_open_some(st.states);
                        let j = find_open(st.states);
                        let span = st.states.subrange(j + 1, st.states.len() as int);
                        assert(forall|m: int|
                            0 <= m < span.len() ==> span[m] == st.states[j + 1 + m]);
                        assert(simple_states(span));
                        lemma_plist_simple(span, span.len() as int);
                        assert(plist_spec(span) is Ok);
                        let st2 = scan_step(st, c)->Ok_0;
                        let kept = st.states.subrange(0, j);
                        assert(st2.states == kept.push(
                            StateV::Parsed(plist_spec(span)->Ok_0),
                        ));
                        assert(st2.states.drop_last() =~= kept);
                        assert(count_open(st2.states) == count_open(kept));
                        assert(simple_states(st2.states)) by {
                            assert(forall|m: int|
                                0 <= m < kept.len() ==> kept[m] == st.states[m]);
                        };
                        assert(forall|j2: int|
                            0 <= j2 <= i ==> count_char(#[trigger] s.take(j2), ')')
                                <= count_char(s.take(j2), '('));
                    }
                } else {
                    assert(c == ' ');
                    let st2 = scan_step(st, c)->Ok_0;
                    if st.states.len() > 0 && st.states.last() is WhiteSp {
                        assert(st2.states == st.states);
                    } else {
                        assert(st2.states == st.states.push(
                            StateV::WhiteSp(st.line, st.col + 1),
                        ));
                        assert(st2.states.drop_last() =~= st.states);
                    }
                    assert(forall|j: int|
                        0 <= j <= i ==> count_char(#[trigger] s.take(j), ')') <= count_char(
                            s.take(j),
                            '(',
                        ));
                }
            },
        }
    }
}

/// Bracket balance, first half: a text of brackets and spaces with more
/// closers than openers in some prefix fails to parse with a missing
/// bracket error. Other characters can fail earlier for their own reasons,
/// so the law is stated over the bracket alphabet.
pub proof fn lemma_missing_bracket(s: Seq<char>)
    requires
        simple_text(s),
        exists|j: int|
            0 <= j <= s.len() && count_char(#[trigger] s.take(j), ')') > count_char(
                s.take(j),
                '(',
            ),
    ensures
        parse_spec(s) is Err,
        parse_spec(s)->Err_0 is MissingBracket,
{
    lemma_scan_simple(s, s.len() as int);
    match scan_fold(s, s.len() as int) {
        Ok(st) => {
            let j = choose|j: int|
                0 <= j <= s.len() && count_char(#[trigger] s.take(j), ')') > count_char(
                    s.take(j),
                    '(',
                );
            assert(count_char(s.take(j), ')') <= count_char(s.take(j), '('));
        },
        Err(e) => {},
    }
}

proof fn lemma_count_open_witness(st: Seq<StateV>)
    requires
        count_open(st) > 0,
    ensures
        exists|m: int| 0 <= m < st.len() && (#[trigger] st[m]) is LstStart,
    decreases st.len(),
{
    if st.last() is LstStart {
        assert(st[st.len() - 1] is LstStart);
    } else {
        lemma_count_open_witness(st.drop_last());
        let m = choose|m: int| 0 <= m < st.drop_last().len() && (#[trigger] st.drop_last()[m])
            is LstStart;
        assert(st[m] is LstStart);
    }
}

/// One scan step moves the unclosed-opener count by exactly the bracket
/// character's weight, over any alphabet.
proof fn lemma_scan_step_open_count(st: ScanSt, c: char)
    ensures
        scan_step(st, c) matches Ok(n) ==> count_open(n.states) == count_open(st.states) + (
        if c == '(' {
            1int
        } else if c == ')' {
            -1int
        } else {
            0int
        }),
{
    if c == '\n' {
    } else if c == '(' {
        let n = st.states.push(StateV::LstStart(st.line, st.col + 1));
        assert(n.drop_last() =~= st.states);
    } else if c == ')' {
        let j = find_open(st.states);
        if j >= 0 {
            lemma_find_open_some_general(st.states);
            match plist_spec(st.states.subrange(j + 1, st.states.len() as int)) {
                Ok(t) => {
                    let kept = st.states.subrange(0, j);
                    let n = kept.push(StateV::Parsed(t));
                    assert(n.drop_last() =~= kept);
                },
                _ => {},
            }
        }
    } else if c == ' ' {
        if st.states.len() > 0 && st.states.last() is WhiteSp {
        } else {
            let n = st.states.push(StateV::WhiteSp(st.line, st.col + 1));
            assert(n.drop_last() =~= st.states);
        }
    } else if is_letter(c) {
        let n = st.states.push(StateV::CharSt(c, st.line, st.col + 1));
        assert(n.drop_last() =~= st.states);
    } else if is_digit(c) {
        let n = st.states.push(StateV::NumSt(c, st.line, st.col + 1));
        assert(n.drop_last() =~= st.states);
    } else {
        let n = st.states.push(StateV::SymSt(c, st.line, st.col + 1));
        assert(n.drop_last() =~= st.states);
    }
}

/// Over any alphabet, a successful scan carries exactly the unclosed
/// openers on its stack.
proof fn lemma_scan_open_count(s: Seq<char>, i: int)
    requires
        0 <= i <= s.len(),
    ensures
        scan_fold(s, i) matches Ok(st) ==> count_open(st.states) == count_char(
            s.take(i),
            '(',
        ) - count_char(s.take(i), ')'),
    decreases i,
{
    if i == 0 {
        assert(s.take(0) =~= Seq::<char>::empty());
    } else {
        lemma_scan_open_count(s, i - 1);
        let c = s[i - 1];
        assert(s.take(i).drop_last() =~= s.take(i - 1));
        assert(s.take(i).last() == c);
        match scan_fold(s, i - 1) {
            Err(e) => {},
            Ok(st) => {
                assert(scan_fold(s, i) == scan_step(st, c));
                lemma_scan_step_open_count(st, c);
            },
        }
    }
}

proof fn lemma_find_open_some_general(st: Seq<StateV>)
    requires
        find_open(st) >= 0,
    ensures
        find_open(st) < st.len(),
        st[find_open(st)] is LstStart,
        count_open(st.subrange(0, find_open(st))) == count_open(st) - 1,
    decreases st.len(),
{
    if st.len() > 0 {
        if st.last() is LstStart {
            assert(st.subrange(0, st.len() - 1) =~= st.drop_last());
        } else {
            lemma_find_open_some_general(st.drop_last());
            let j = find_open(st.drop_last());
            assert(st.drop_last()[j] == st[j]);
            assert(st.subrange(0, j) =~= st.drop_last().subrange(0, j));
        }
    }
}

/// Bracket balance over any text at all: a text with more openers than
/// closers never parses successfully; the leftover open span is not
/// silently dropped into a result.
pub proof fn lemma_unclosed_bracket_any(s: Seq<char>)
    requires
        count_char(s, '(') > count_char(s, ')'),
    ensures
        parse_spec(s) is Err,
{
    lemma_scan_open_count(s, s.len() as int);
    match scan_fold(s, s.len() as int) {
        Ok(st) => {
            assert(s.take(s.len() as int) =~= s);
            assert(count_open(st.states) > 0);
            lemma_count_open_witness(st.states);
            let m = choose|m: int| 0 <= m < st.states.len() && (#[trigger] st.states[m])
                is LstStart;
            assert(!(st.states[m] is Parsed));
            assert(finalize(st.states) is Err);
        },
        Err(e) => {},
    }
}

/// Bracket balance, second half: a bracket-and-space text whose prefixes
/// are balanced but which leaves an opener unclosed does not silently
/// succeed; it fails to parse.
pub proof fn lemma_unclosed_bracket(s: Seq<char>)
    requires
        simple_text(s),
        forall|j: int|
            0 <= j <= s.len() ==> count_char(#[trigger] s.take(j), ')') <= count_char(
                s.take(j),
                '(',
            ),
        count_char(s.take(s.len() as int), '(') > count_char(s.take(s.len() as int), ')'),
    ensures
        parse_spec(s) is Err,
{
    lemma_scan_simple(s, s.len() as int);
    match scan_fold(s, s.len() as int) {
        Ok(st) => {
            assert(count_open(st.states) > 0);
            lemma_count_open_witness(st.states);
            let m = choose|m: int| 0 <= m < st.states.len() && (#[trigger] st.states[m])
                is LstStart;
            assert(!(st.states[m] is Parsed));
            assert(finalize(st.states) is Err);
        },
        Err(e) => {
            let j = choose|j: int|
                0 <= j <= s.len() && count_char(#[trigger] s.take(j), ')') > count_char(
                    s.take(j),
                    '(',
                );
            assert(count_char(s.take(j), ')') <= count_char(s.take(j), '('));
        },
    }
}

} // verus!

verus! {

// ---------------------------------------------------------------------------
// The round trip: parsing the rendered text of a literal, wrapped as the
// engine wraps every input, yields a list holding exactly that literal.
// ---------------------------------------------------------------------------

/// A character the scanner turns into a plain run state.
pub open spec fn plain_char(c: char) -> bool {
    c != '(' && c != ')' && c != ' ' && c != '\n'
}

/// The state the scanner pushes for one plain character.
pub open spec fn state_of(c: char, l: int, co: int) -> StateV {
    if is_letter(c) {
        StateV::CharSt(c, l, co)
    } else if is_digit(c) {
        StateV::NumSt(c, l, co)
    } else {
        StateV::SymSt(c, l, co)
    }
}

/// The states for the first `m` characters of a one-line run that starts
/// at column two.
pub open spec fn run_states(w: Seq<char>, m: int) -> Seq<StateV>
    decreases m,
{
    if m <= 0 {
        Seq::empty()
    } else {
        run_states(w, m - 1).push(state_of(w[m - 1], 1, 2 + (m - 1)))
    }
}

/// Scanning an open bracket and then `m` plain characters stacks the
/// bracket marker and one state per character.
proof fn lemma_scan_plain(s: Seq<char>, w: Seq<char>, m: int)
    requires
        s.len() >= 1 + w.len(),
        s[0] == '(',
        forall|i: int| 0 <= i < w.len() ==> s[1 + i] == w[i],
        forall|i: int| 0 <= i < w.len() ==> plain_char(#[trigger] w[i]),
        0 <= m <= w.len(),
    ensures
        scan_fold(s, 1 + m) == Ok::<ScanSt, ParseErrV>(
            ScanSt {
                states: seq![StateV::LstStart(1, 1)] + run_states(w, m),
                line: 1,
                col: 1 + m,
            },
        ),
    decreases m,
{
    if m == 0 {
        assert(scan_fold(s, 0) == Ok::<ScanSt, ParseErrV>(
            ScanSt { states: Seq::empty(), line: 1, col: 0 },
        ));
        assert(scan_fold(s, 1) == scan_step(
            ScanSt { states: Seq::empty(), line: 1, col: 0 },
            '(',
        ));
        assert(seq![StateV::LstStart(1, 1)] + run_states(w, 0) =~= Seq::<
            StateV,
        >::empty().push(StateV::LstStart(1, 1)));
    } else {
        lemma_scan_plain(s, w, m - 1);
        let c = s[1 + m - 1];
        assert(c == w[m - 1]);
        assert(plain_char(c));
        let st = ScanSt {
            states: seq![StateV::LstStart(1, 1)] + run_states(w, m - 1),
            line: 1,
            col: m,
        };
        assert(scan_fold(s, 1 + m) == scan_step(st, c));
        assert(scan_step(st, c) == Ok::<ScanSt, ParseErrV>(
            ScanSt { states: st.states.push(state_of(c, 1, 1 + m)), line: 1, col: 1 + m },
        ));
        assert(st.states.push(state_of(c, 1, 1 + m)) =~= seq![StateV::LstStart(1, 1)]
            + run_states(w, m));
    }
}

/// A run of plain-character states contains no bracket marker, so the
/// rightmost marker of the whole stack is the leading one.
proof fn lemma_find_open_head(st: Seq<StateV>)
    requires
        st.len() >= 1,
        st[0] is LstStart,
        forall|m: int| 1 <= m < st.len() ==> !((#[trigger] st[m]) is LstStart),
    ensures
        find_open(st) == 0,
    decreases st.len(),
{
    if st.len() == 1 {
    } else {
        assert(!(st.last() is LstStart));
        assert(st.drop_last()[0] == st[0]);
        lemma_find_open_head(st.drop_last());
    }
}

/// Folding a span of pure character states gathers them all into the
/// pending run and produces no term.
proof fn lemma_plist_chars(run: Seq<StateV>, i: int)
    requires
        0 <= i <= run.len(),
        forall|m: int|
            0 <= m < run.len() ==> (#[trigger] run[m]) is CharSt || run[m] is NumSt || run[m]
                is SymSt,
    ensures
        plist_fold(run, i) == Ok::<(Seq<TermV>, Seq<StateV>), ParseErrV>(
            (Seq::empty(), run.take(i)),
        ),
    decreases i,
{
    if i == 0 {
        assert(run.take(0) =~= Seq::<StateV>::empty());
    } else {
        lemma_plist_chars(run, i - 1);
        assert(run.take(i) =~= run.take(i - 1).push(run[i - 1]));
    }
}

/// Parsing `( word )` with one plain-character word classifies the word's
/// run: the result is a one-element list holding the classified atom.
proof fn lemma_parse_single_run(s: Seq<char>, w: Seq<char>)
    requires
        s == seq!['('] + w + seq![' '] + seq![')'],
        forall|i: int| 0 <= i < w.len() ==> plain_char(#[trigger] w[i]),
        w.len() >= 1,
        classify_spec(run_states(w, w.len() as int)) is Ok,
        classify_spec(run_states(w, w.len() as int))->Ok_0 is Some,
    ensures
        parse_spec(s) == Ok::<TermV, ParseErrV>(
            TermV::Lst(seq![classify_spec(run_states(w, w.len() as int))->Ok_0->Some_0]),
        ),
{
    let n = w.len() as int;
    assert(s.len() == n + 3);
    assert(s[0] == '(');
    assert(forall|i: int| 0 <= i < n ==> s[1 + i] == w[i]);
    lemma_scan_plain(s, w, n);
    let st1 = scan_fold(s, 1 + n)->Ok_0;
    let base = seq![StateV::LstStart(1, 1)] + run_states(w, n);
    assert(st1.states == base);
    // the space pushes a whitespace mark
    assert(s[n + 1] == ' ');
    assert(scan_fold(s, n + 2) == scan_step(st1, ' '));
    lemma_run_states_kinds(w, n);
    assert(base.last() == run_states(w, n).last());
    assert(run_states(w, n)[n - 1] == state_of(w[n - 1], 1, 2 + (n - 1)));
    assert(!(base.last() is WhiteSp));
    let st2 = scan_fold(s, n + 2)->Ok_0;
    assert(st2.states == base.push(StateV::WhiteSp(1, n + 2)));
    // the closing bracket folds the span
    assert(s[n + 2] == ')');
    assert(scan_fold(s, n + 3) == scan_step(st2, ')'));
    assert(st2.states[0] is LstStart);
    assert(forall|m: int| 1 <= m < st2.states.len() ==> !((#[trigger] st2.states[m])
        is LstStart));
    lemma_find_open_head(st2.states);
    let span = st2.states.subrange(1, st2.states.len() as int);
    assert(span =~= run_states(w, n).push(StateV::WhiteSp(1, n + 2)));
    lemma_plist_chars(run_states(w, n), n);
    assert(plist_fold(span, n) == plist_fold(run_states(w, n), n)) by {
        lemma_plist_prefix(span, run_states(w, n), n);
    };
    assert(run_states(w, n).take(n) =~= run_states(w, n));
    assert(span[n] is WhiteSp);
    let t = classify_spec(run_states(w, n))->Ok_0->Some_0;
    assert(plist_fold(span, n + 1) == Ok::<(Seq<TermV>, Seq<StateV>), ParseErrV>(
        (seq![t], Seq::empty()),
    ));
    assert(classify_spec(Seq::<StateV>::empty()) == Ok::<Option<TermV>, ParseErrV>(None));
    assert(plist_spec(span) == Ok::<TermV, ParseErrV>(TermV::Lst(seq![t])));
    let st3 = scan_fold(s, n + 3)->Ok_0;
    assert(st3.states == st2.states.subrange(0, 0).push(
        StateV::Parsed(TermV::Lst(seq![t])),
    ));
    assert(st3.states =~= seq![StateV::Parsed(TermV::Lst(seq![t]))]);
    // the harvest: one parsed term
    assert(forall|i: int| 0 <= i < st3.states.len() ==> (#[trigger] st3.states[i]) is Parsed);
    assert(finalize(st3.states) == Ok::<TermV, ParseErrV>(TermV::Lst(seq![t])));
}

/// Run states are character states.
proof fn lemma_run_states_kinds(w: Seq<char>, m: int)
    requires
        0 <= m <= w.len(),
    ensures
        run_states(w, m).len() == m,
        forall|i: int|
            0 <= i < m ==> (#[trigger] run_states(w, m)[i]) == state_of(w[i], 1, 2 + i),
        forall|i: int|
            0 <= i < m ==> (#[trigger] run_states(w, m)[i]) is CharSt || run_states(w, m)[i]
                is NumSt || run_states(w, m)[i] is SymSt,
    decreases m,
{
    if m > 0 {
        lemma_run_states_kinds(w, m - 1);
        assert(forall|i: int|
            0 <= i < m - 1 ==> run_states(w, m)[i] == run_states(w, m - 1)[i]);
    }
}

/// Folds agree on spans that agree up to the fold's bound.
proof fn lemma_plist_prefix(a: Seq<StateV>, b: Seq<StateV>, i: int)
    requires
        0 <= i <= a.len(),
        i <= b.len(),
        forall|m: int| 0 <= m < i ==> a[m] == b[m],
    ensures
        plist_fold(a, i) == plist_fold(b, i),
    decreases i,
{
    if i > 0 {
        lemma_plist_prefix(a, b, i - 1);
    }
}

} // verus!

verus! {

/// The decimal digits of a nonnegative integer are digit characters.
proof fn lemma_dec_digits_are_digits(n: int)
    requires
        n >= 0,
    ensures
        dec_digits(n).len() >= 1,
        forall|i: int| 0 <= i < dec_digits(n).len() ==> is_digit(#[trigger] dec_digits(n)[i]),
    decreases n,
{
    if n <= 9 {
        assert(dec_digits(n) == seq![digit_char(n)]);
        assert(is_digit(digit_char(n)));
    } else {
        lemma_dec_digits_are_digits(n / 10);
        assert(dec_digits(n) == dec_digits(n / 10).push(digit_char(n % 10)));
        assert(is_digit(digit_char(n % 10)));
        assert(forall|i: int|
            0 <= i < dec_digits(n / 10).len() ==> dec_digits(n)[i] == dec_digits(n / 10)[i]);
    }
}

proof fn lemma_num_fold_prefix(a: Seq<StateV>, b: Seq<StateV>, start: int, i: int)
    requires
        0 <= start <= i,
        i <= a.len(),
        i <= b.len(),
        forall|m: int| start <= m < i ==> a[m] == b[m],
    ensures
        crate::parser::num_fold(a, start, i) == crate::parser::num_fold(b, start, i),
    decreases i - start,
{
    if i > start {
        lemma_num_fold_prefix(a, b, start, i - 1);
    }
}

/// Folding the digit states of `n` gathers exactly the mantissa `n`.
proof fn lemma_num_fold_digits(run: Seq<StateV>, start: int, n: int)
    requires
        0 <= start,
        0 <= n <= crate::token::NUM_LIMIT as int,
        start + dec_digits(n).len() <= run.len(),
        forall|i: int|
            0 <= i < dec_digits(n).len() ==> (#[trigger] run[start + i]) is NumSt && run[start
                + i]->NumSt_0 == dec_digits(n)[i],
    ensures
        crate::parser::num_fold(run, start, start + dec_digits(n).len()) == Ok::<
            crate::parser::NumAcc,
            ParseErrV,
        >(crate::parser::NumAcc { m: n, k: 0, dotted: false }),
    decreases n,
{
    lemma_dec_digits_are_digits(n);
    if n <= 9 {
        assert(dec_digits(n) == seq![digit_char(n)]);
        assert(run[start + 0] is NumSt && run[start + 0]->NumSt_0 == dec_digits(n)[0]);
        assert(run[start] is NumSt && run[start]->NumSt_0 == digit_char(n));
        assert(crate::parser::num_fold(run, start, start) == Ok::<
            crate::parser::NumAcc,
            ParseErrV,
        >(crate::parser::NumAcc { m: 0, k: 0, dotted: false }));
        assert(crate::parser::digit_val(digit_char(n)) == n);
    } else {
        let w = dec_digits(n);
        let wp = dec_digits(n / 10);
        assert(w == wp.push(digit_char(n % 10)));
        assert(forall|i: int| 0 <= i < wp.len() ==> w[i] == wp[i]);
        lemma_num_fold_digits(run, start, n / 10);
        let l = wp.len() as int;
        assert(crate::parser::num_fold(run, start, start + l) == Ok::<
            crate::parser::NumAcc,
            ParseErrV,
        >(crate::parser::NumAcc { m: n / 10, k: 0, dotted: false }));
        assert(run[start + l] is NumSt && run[start + l]->NumSt_0 == dec_digits(n)[l]);
        assert(run[start + l]->NumSt_0 == digit_char(n % 10));
        assert(crate::parser::digit_val(digit_char(n % 10)) == n % 10);
        vstd::arithmetic::div_mod::lemma_fundamental_div_mod(n, 10);
        assert((n / 10) * 10 + n % 10 == n) by (nonlinear_arith)
            requires
                n == 10 * (n / 10) + n % 10,
        ;
    }
}

/// `n / 1` normalizes to `n` over one.
proof fn lemma_norm_unit(n: int)
    requires
        0 <= n <= crate::token::NUM_LIMIT as int,
    ensures
        crate::arith::norm_num(n, 1) == Some(Num { num: n as i64, den: 1i64 }),
        crate::arith::norm_num(-n, 1) == Some(Num { num: (-n) as i64, den: 1i64 }),
{
    let a = vstd::math::abs(n);
    assert(a == n);
    assert(vstd::math::abs(-n) == n);
    assert(a % 1 == 0);
    assert(crate::arith::gcd(a, 1) == crate::arith::gcd(1, a % 1));
    assert(crate::arith::gcd(1, 0) == 1nat);
    assert(crate::arith::gcd(a, 1) == 1);
    assert(a / 1 == a);
    assert(1nat / 1nat == 1nat);
}

/// Classifying the run of a nonnegative integer's digits yields that
/// number over one.
proof fn lemma_classify_digits(w: Seq<char>, n: int)
    requires
        0 <= n <= crate::token::NUM_LIMIT as int,
        w == dec_digits(n),
    ensures
        classify_spec(run_states(w, w.len() as int)) == Ok::<Option<TermV>, ParseErrV>(
            Some(TermV::Number(Num { num: n as i64, den: 1i64 })),
        ),
{
    lemma_dec_digits_are_digits(n);
    let run = run_states(w, w.len() as int);
    lemma_run_states_kinds(w, w.len() as int);
    assert(!is_letter(w[0]));
    assert(run[0] is NumSt);
    assert(forall|i: int|
        0 <= i < w.len() ==> (#[trigger] run[i]) is NumSt && run[i]->NumSt_0 == w[i]);
    lemma_num_fold_digits(run, 0, n);
    assert(!(run[0] matches StateV::SymSt('-', _, _)));
    lemma_norm_unit(n);
    assert(crate::arith::pow10(0) == 1);
    assert(crate::parser::number_spec(run) == Ok::<TermV, ParseErrV>(
        TermV::Number(Num { num: n as i64, den: 1i64 }),
    ));
}

/// Classifying a minus sign followed by digits yields the negated number.
proof fn lemma_classify_negative(w: Seq<char>, n: int)
    requires
        0 < n <= crate::token::NUM_LIMIT as int,
        w == seq!['-'] + dec_digits(n),
    ensures
        classify_spec(run_states(w, w.len() as int)) == Ok::<Option<TermV>, ParseErrV>(
            Some(TermV::Number(Num { num: (-n) as i64, den: 1i64 })),
        ),
{
    lemma_dec_digits_are_digits(n);
    let run = run_states(w, w.len() as int);
    lemma_run_states_kinds(w, w.len() as int);
    assert(w[0] == '-');
    assert(!is_letter('-') && !is_digit('-'));
    assert(run[0] == StateV::SymSt('-', 1, 2));
    assert(forall|i: int| 0 <= i < dec_digits(n).len() ==> w[1 + i] == dec_digits(n)[i]);
    assert(forall|i: int|
        0 <= i < dec_digits(n).len() ==> (#[trigger] run[1 + i]) is NumSt && run[1
            + i]->NumSt_0 == dec_digits(n)[i]);
    assert(run[1] is NumSt);
    lemma_num_fold_digits(run, 1, n);
    lemma_norm_unit(n);
    assert(crate::arith::pow10(0) == 1);
    assert(run[0] matches StateV::SymSt('-', _, _));
    assert(crate::parser::number_spec(run) == Ok::<TermV, ParseErrV>(
        TermV::Number(Num { num: (-n) as i64, den: 1i64 }),
    ));
    assert(run.len() > 1);
    assert(!(w[0] == '.') && !(w[0] == '_') && !(w[0] == '"'));
}

} // verus!

verus! {

/// A word character: a letter, a digit, a hyphen or an underscore.
pub open spec fn word_char(c: char) -> bool {
    is_letter(c) || is_digit(c) || c == '-' || c == '_'
}

proof fn lemma_text_fold_prefix(a: Seq<StateV>, b: Seq<StateV>, start: int, i: int)
    requires
        0 <= start <= i,
        i <= a.len(),
        i <= b.len(),
        forall|m: int| start <= m < i ==> a[m] == b[m],
    ensures
        crate::parser::text_fold(a, start, i) == crate::parser::text_fold(b, start, i),
    decreases i - start,
{
    if i > start {
        lemma_text_fold_prefix(a, b, start, i - 1);
    }
}

/// Folding the states of a word of word characters gathers the word.
proof fn lemma_text_fold_word(w: Seq<char>, i: int)
    requires
        0 <= i <= w.len(),
        forall|m: int| 0 <= m < w.len() ==> word_char(#[trigger] w[m]),
    ensures
        crate::parser::text_fold(run_states(w, w.len() as int), 0, i) == Ok::<
            Seq<char>,
            ParseErrV,
        >(w.take(i)),
    decreases i,
{
    lemma_run_states_kinds(w, w.len() as int);
    if i == 0 {
        assert(w.take(0) =~= Seq::<char>::empty());
    } else {
        lemma_text_fold_word(w, i - 1);
        let run = run_states(w, w.len() as int);
        assert(run[i - 1] == state_of(w[i - 1], 1, 2 + (i - 1)));
        assert(w.take(i) =~= w.take(i - 1).push(w[i - 1]));
    }
}

/// Classifying the run of a lowercase-headed word yields the word as a
/// string, unless the word is a boolean literal's text.
proof fn lemma_classify_word(w: Seq<char>)
    requires
        w.len() >= 1,
        is_letter(w[0]),
        !is_upper(w[0]),
        forall|m: int| 0 <= m < w.len() ==> word_char(#[trigger] w[m]),
        w != "true"@,
        w != "false"@,
    ensures
        classify_spec(run_states(w, w.len() as int)) == Ok::<Option<TermV>, ParseErrV>(
            Some(TermV::Str(w)),
        ),
{
    let run = run_states(w, w.len() as int);
    lemma_run_states_kinds(w, w.len() as int);
    assert(run[0] == state_of(w[0], 1, 2));
    assert(run[0] is CharSt);
    lemma_text_fold_word(w, w.len() as int);
    assert(w.take(w.len() as int) =~= w);
    assert(crate::parser::plain_spec(run) == Ok::<TermV, ParseErrV>(TermV::Str(w)));
    assert(crate::parser::unquoted_spec(run) == Ok::<TermV, ParseErrV>(TermV::Str(w)));
}

/// Classifying the text of a boolean literal yields the boolean.
proof fn lemma_classify_bool(b: bool)
    ensures
        classify_spec(
            run_states(
                if b {
                    "true"@
                } else {
                    "false"@
                },
                if b {
                    "true"@.len() as int
                } else {
                    "false"@.len() as int
                },
            ),
        ) == Ok::<Option<TermV>, ParseErrV>(Some(TermV::Bool(b))),
{
    reveal_strlit("true");
    reveal_strlit("false");
    let w: Seq<char> = if b {
        "true"@
    } else {
        "false"@
    };
    assert(w[0] == 't' || w[0] == 'f');
    assert(is_letter('t') && !is_upper('t'));
    assert(is_letter('f') && !is_upper('f'));
    assert(forall|m: int| 0 <= m < w.len() ==> word_char(#[trigger] w[m])) by {
        assert(is_letter('t') && is_letter('r') && is_letter('u') && is_letter('e')
            && is_letter('a') && is_letter('l') && is_letter('s') && is_letter('f'));
    };
    let run = run_states(w, w.len() as int);
    lemma_run_states_kinds(w, w.len() as int);
    assert(run[0] == state_of(w[0], 1, 2));
    assert(run[0] is CharSt);
    lemma_text_fold_word(w, w.len() as int);
    assert(w.take(w.len() as int) =~= w);
    if b {
        assert(crate::parser::plain_spec(run) == Ok::<TermV, ParseErrV>(TermV::Bool(true)));
    } else {
        assert("false"@ != "true"@) by {
            assert("true"@.len() == 4);
            assert("false"@.len() == 5);
        };
        assert(crate::parser::plain_spec(run) == Ok::<TermV, ParseErrV>(TermV::Bool(false)));
    }
}

} // verus!

verus! {

/// Word characters are plain for the scanner.
proof fn lemma_word_chars_plain(w: Seq<char>)
    requires
        forall|m: int| 0 <= m < w.len() ==> word_char(#[trigger] w[m]),
    ensures
        forall|m: int| 0 <= m < w.len() ==> plain_char(#[trigger] w[m]),
{
    assert forall|m: int| 0 <= m < w.len() implies plain_char(#[trigger] w[m]) by {
        let c = w[m];
        assert('(' as u32 == 40 && ')' as u32 == 41 && ' ' as u32 == 32 && '\n' as u32 == 10);
        assert('-' as u32 == 45 && '_' as u32 == 95);
    };
}

/// Digits are plain for the scanner.
proof fn lemma_digits_plain(w: Seq<char>)
    requires
        forall|m: int| 0 <= m < w.len() ==> is_digit(#[trigger] w[m]),
    ensures
        forall|m: int| 0 <= m < w.len() ==> plain_char(#[trigger] w[m]),
{
    assert forall|m: int| 0 <= m < w.len() implies plain_char(#[trigger] w[m]) by {
        assert('(' as u32 == 40 && ')' as u32 == 41 && ' ' as u32 == 32 && '\n' as u32 == 10);
    };
}

/// Round trip of an integer literal: parsing its rendered text, wrapped as
/// the engine wraps every input, yields a list holding exactly that
/// literal.
pub proof fn lemma_roundtrip_number(n: Num)
    requires
        n.wf(),
        n.den == 1,
    ensures
        parse_spec(
            crate::engine::wrapped_input(crate::printer::render_spec(TermV::Number(n), 0)),
        ) == Ok::<TermV, ParseErrV>(TermV::Lst(seq![TermV::Number(n)])),
{
    let mag = vstd::math::abs(n.num as int);
    let w: Seq<char> = if n.num < 0 {
        seq!['-'] + dec_digits(mag as int)
    } else {
        dec_digits(mag as int)
    };
    lemma_dec_digits_are_digits(mag as int);
    assert(crate::printer::num_text(n) =~= w) by {
        if n.num >= 0 {
            assert(Seq::<char>::empty() + dec_digits(mag as int) =~= dec_digits(mag as int));
        }
    };
    let rendered = crate::printer::render_spec(TermV::Number(n), 0);
    assert(rendered == crate::printer::num_text(n).push(' '));
    let s = crate::engine::wrapped_input(rendered);
    assert(s =~= seq!['('] + w + seq![' '] + seq![')']);
    assert(forall|m: int| 0 <= m < w.len() ==> plain_char(#[trigger] w[m])) by {
        lemma_digits_plain(dec_digits(mag as int));
        assert('-' as u32 == 45);
        if n.num < 0 {
            assert(forall|m: int|
                1 <= m < w.len() ==> w[m] == dec_digits(mag as int)[m - 1]);
            assert(plain_char('-'));
        }
    };
    if n.num < 0 {
        lemma_classify_negative(w, mag as int);
        assert((-(mag as int)) as i64 == n.num);
    } else {
        lemma_classify_digits(w, mag as int);
        assert(mag as i64 == n.num);
    }
    assert(classify_spec(run_states(w, w.len() as int))->Ok_0->Some_0 == TermV::Number(n));
    lemma_parse_single_run(s, w);
}

/// Round trip of a boolean literal.
pub proof fn lemma_roundtrip_bool(b: bool)
    ensures
        parse_spec(crate::engine::wrapped_input(crate::printer::render_spec(TermV::Bool(b), 0)))
            == Ok::<TermV, ParseErrV>(TermV::Lst(seq![TermV::Bool(b)])),
{
    reveal_strlit("true");
    reveal_strlit("false");
    let w: Seq<char> = if b {
        "true"@
    } else {
        "false"@
    };
    let rendered = crate::printer::render_spec(TermV::Bool(b), 0);
    assert(rendered == w.push(' '));
    let s = crate::engine::wrapped_input(rendered);
    assert(s =~= seq!['('] + w + seq![' '] + seq![')']);
    assert(forall|m: int| 0 <= m < w.len() ==> word_char(#[trigger] w[m])) by {
        assert(is_letter('t') && is_letter('r') && is_letter('u') && is_letter('e')
            && is_letter('a') && is_letter('l') && is_letter('s') && is_letter('f'));
    };
    lemma_word_chars_plain(w);
    lemma_classify_bool(b);
    lemma_parse_single_run(s, w);
}

/// Round trip of a bare string literal: a word of letters, digits, hyphens
/// and underscores that starts with a lowercase letter and is not a
/// boolean literal's text. Other strings render into texts the scanner
/// reads differently (an initial uppercase letter makes a variable, inner
/// spaces split the word), so the law is stated over these.
pub proof fn lemma_roundtrip_string(w: Seq<char>)
    requires
        w.len() >= 1,
        is_letter(w[0]),
        !is_upper(w[0]),
        forall|m: int| 0 <= m < w.len() ==> word_char(#[trigger] w[m]),
        w != "true"@,
        w != "false"@,
    ensures
        parse_spec(crate::engine::wrapped_input(crate::printer::render_spec(TermV::Str(w), 0)))
            == Ok::<TermV, ParseErrV>(TermV::Lst(seq![TermV::Str(w)])),
{
    let rendered = crate::printer::render_spec(TermV::Str(w), 0);
    assert(rendered == w.push(' '));
    let s = crate::engine::wrapped_input(rendered);
    assert(s =~= seq!['('] + w + seq![' '] + seq![')']);
    lemma_word_chars_plain(w);
    lemma_classify_word(w);
    lemma_parse_single_run(s, w);
}

} // verus!
