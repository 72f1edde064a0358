//! The engine: wraps a line of input in one implicit top-level list, parses
//! it, and reduces the parsed term, carrying the evaluator's scope from one
//! line to the next.

use vstd::prelude::*;
use crate::token::{Token, TermV};
use crate::error::{LexError, LexErrV, ParseErrV};
use crate::parser::{Parser, parse_spec};
use crate::evaluator::{Evaluator, StateM, quiet_elems, dispatchable, unknown_to_lst, binop_spec,
    same_scope, pure_eval};
use crate::strutil::push_char;

verus! {

/// A parser and an evaluator, run one after the other on each input.
pub struct Engine {
    parser: Parser,
    evaluator: Evaluator,
}

/// The text the engine hands to the parser: the input wrapped in one
/// enclosing bracket pair.
pub open spec fn wrapped_input(s: Seq<char>) -> Seq<char> {
    seq!['('] + s + seq![')']
}

impl Engine {
    /// The engine's invariant: its evaluator's.
    pub closed spec fn inv(self) -> bool {
        self.evaluator.inv()
    }

    /// The model of the evaluator's persistent scope.
    pub closed spec fn state(self) -> crate::evaluator::StateM {
        self.evaluator.state()
    }

    /// Everything printed so far.
    pub closed spec fn out(self) -> Seq<char> {
        self.evaluator.out()
    }

    /// A fresh engine with an empty scope.
    pub fn new() -> (r: Self)
        ensures
            r.inv(),
            r.state().declaration == Seq::<TermV>::empty(),
            r.state().return_value is None,
            r.state().clean(),
            r.out() == Seq::<char>::empty(),
    {
        Engine { parser: Parser {  }, evaluator: Evaluator::new() }
    }

    /// Make a file's contents available to `.load` under the given path.
    pub fn provide_file(&mut self, path: String, contents: String)
        requires
            old(self).inv(),
            contents@.len() < 0x7fff_0000,
        ensures
            final(self).inv(),
    {
        self.evaluator.provide_file(path, contents);
    }

    /// Hand out everything printed so far and clear the buffer.
    pub fn take_output(&mut self) -> (r: String)
        requires
            old(self).inv(),
        ensures
            final(self).inv(),
            r@ == old(self).out(),
            final(self).out() == Seq::<char>::empty(),
    {
        self.evaluator.take_output()
    }

    /// Parse one line of input, wrapped in an implicit top-level bracket
    /// pair, and reduce the resulting term. A parse failure surfaces as a
    /// parse error and leaves the evaluator untouched; the reduction's
    /// outcome otherwise.
    pub fn parse(&mut self, input: String) -> (r: Result<Token, LexError>)
        requires
            old(self).inv(),
            input@.len() < 0x7fff_0000 - 2,
        ensures
            final(self).inv(),
            r is Ok ==> r->Ok_0@.wf(),
            parse_spec(wrapped_input(input@)) matches Err(e) ==> r matches Err(le)
                && le@ == LexErrV::ParseError(e) && final(self).state() == old(self).state()
                && final(self).out() == old(self).out(),
            r matches Err(le) && le@ is EvalError ==> parse_spec(wrapped_input(input@)) is Ok,
            old(self).state().clean() ==> final(self).state().clean() && (r is Ok ==> r->Ok_0@.no_unknown()),
            ({
                let pt = parse_spec(wrapped_input(input@));
                (pt is Ok && old(self).state().return_value is None && pure_eval(pt->Ok_0)
                    is Some) ==> r is Ok && r->Ok_0@ == pure_eval(pt->Ok_0)->Some_0
                    && same_scope(final(self).state(), old(self).state()) && final(self).out()
                    == old(self).out()
            }),
            ({
                let pt = parse_spec(wrapped_input(input@));
                (pt is Ok && pt->Ok_0 is Lst && quiet_elems(pt->Ok_0->Lst_0) && old(
                    self,
                ).state().return_value is None && !dispatchable(pt->Ok_0->Lst_0)) ==> r is Ok
                    && r->Ok_0@ == pt->Ok_0 && same_scope(final(self).state(), old(self).state())
                    && final(self).out() == old(self).out()
            }),
            ({
                let pt = parse_spec(wrapped_input(input@));
                let l = pt->Ok_0->Lst_0;
                (pt is Ok && pt->Ok_0 is Lst && quiet_elems(l) && old(
                    self,
                ).state().return_value is None && l.len() == 3 && l[0] is BinaryOp) ==> r is Ok
                    && r->Ok_0@ == unknown_to_lst(
                    binop_spec(l[0]->BinaryOp_0, l[1], l[2]),
                    l,
                ) && same_scope(final(self).state(), old(self).state()) && final(self).out()
                    == old(self).out()
            }),
            ({
                let pt = parse_spec(wrapped_input(input@));
                let l = pt->Ok_0->Lst_0;
                (pt is Ok && pt->Ok_0 is Lst && quiet_elems(l) && old(
                    self,
                ).state().return_value is None && l.len() == 2 && l[0] is Keyword && (
                l[0]->Keyword_0 == ".declare"@ || l[0]->Keyword_0 == ".dec"@)) ==> r is Ok
                    && r->Ok_0@ == TermV::Bool(true) && final(self).state().declaration == old(
                    self,
                ).state().declaration.push(l[1]) && final(self).state().variables == old(
                    self,
                ).state().variables && final(self).state().return_value == old(
                    self,
                ).state().return_value && final(self).out() == old(self).out()
            }),
    {
        let mut text = String::new();
        push_char(&mut text, '(');
        text.append(input.as_str());
        push_char(&mut text, ')');
        proof {
            assert(text@ =~= wrapped_input(input@));
            crate::parser::lemma_parse_clean(text@);
        }
        match self.parser.parse(text) {
            Err(e) => Err(LexError::ParseError(e)),
            Ok(ast) => match self.evaluator.eval_token(ast) {
                Ok(token) => Ok(token),
                Err(err) => Err(LexError::EvalError(err)),
            },
        }
    }
}

} // verus!
