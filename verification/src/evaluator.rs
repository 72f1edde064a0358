//! The evaluator: reduces a term innermost-first with built-in operators and
//! special forms, keeps a scoped environment of declared facts and variable
//! bindings, and answers queries by a one-pass match over the declared facts.

use vstd::prelude::*;
use crate::token::{Token, TermV, view_seq, lemma_view_seq_len, lemma_view_seq_index,
    lemma_view_seq_push, lemma_height_seq_bound, duplicate_tokens};
use crate::error::EvalError;
use crate::arith::{rat_add, rat_sub, rat_mul, rat_div, num_add, num_sub, num_mul, num_div};
use crate::strutil::{push_char, str_eq};
use crate::printer::{render_full, render_token};

verus! {

/// The model of an evaluation scope: declared facts in order, variable
/// bindings as an association sequence where the earliest entry for a name
/// wins, and the in-flight return value.
pub struct StateM {
    pub declaration: Seq<TermV>,
    pub variables: Seq<(Seq<char>, TermV)>,
    pub return_value: Option<TermV>,
}

/// One evaluation scope: declared facts, variable bindings, and the
/// in-flight return value set by `.return`.
#[derive(Debug)]
pub struct EvalState {
    declaration: Vec<Token>,
    variables: Vec<(String, Token)>,
    return_value: Option<Token>,
}

/// Model of a binding sequence, elementwise.
pub open spec fn bindings_view(s: Seq<(String, Token)>) -> Seq<(Seq<char>, TermV)>
    decreases s,
{
    if s.len() == 0 {
        Seq::empty()
    } else {
        seq![(s[0].0@, s[0].1@)] + bindings_view(s.drop_first())
    }
}

pub broadcast proof fn lemma_bindings_view_len(s: Seq<(String, Token)>)
    ensures
        #[trigger] bindings_view(s).len() == s.len(),
    decreases s,
{
    if s.len() > 0 {
        lemma_bindings_view_len(s.drop_first());
        assert(bindings_view(s) == seq![(s[0].0@, s[0].1@)] + bindings_view(s.drop_first()));
    } else {
        assert(bindings_view(s) == Seq::<(Seq<char>, TermV)>::empty());
    }
}

pub broadcast proof fn lemma_bindings_view_index(s: Seq<(String, Token)>, i: int)
    requires
        0 <= i < s.len(),
    ensures
        #[trigger] bindings_view(s)[i] == (s[i].0@, s[i].1@),
    decreases s,
{
    lemma_bindings_view_len(s);
    lemma_bindings_view_len(s.drop_first());
    assert(bindings_view(s) == seq![(s[0].0@, s[0].1@)] + bindings_view(s.drop_first()));
    if i > 0 {
        lemma_bindings_view_index(s.drop_first(), i - 1);
        assert(s.drop_first()[i - 1] == s[i]);
    }
}

pub broadcast proof fn lemma_bindings_view_push(s: Seq<(String, Token)>, t: (String, Token))
    ensures
        #[trigger] bindings_view(s.push(t)) == bindings_view(s).push((t.0@, t.1@)),
    decreases s,
{
    let sp = s.push(t);
    lemma_bindings_view_len(s);
    lemma_bindings_view_len(sp);
    if s.len() == 0 {
        assert(sp.drop_first().len() == 0);
        assert(bindings_view(sp.drop_first()) == Seq::<(Seq<char>, TermV)>::empty());
        assert(bindings_view(sp) == seq![(sp[0].0@, sp[0].1@)] + bindings_view(sp.drop_first()));
        assert(sp[0] == t);
        assert(bindings_view(s) == Seq::<(Seq<char>, TermV)>::empty());
        assert(bindings_view(sp) =~= bindings_view(s).push((t.0@, t.1@)));
    } else {
        lemma_bindings_view_push(s.drop_first(), t);
        assert(sp.drop_first() =~= s.drop_first().push(t));
        assert(bindings_view(sp) == seq![(sp[0].0@, sp[0].1@)] + bindings_view(sp.drop_first()));
        assert(bindings_view(s) == seq![(s[0].0@, s[0].1@)] + bindings_view(s.drop_first()));
        assert(sp[0] == s[0]);
        assert(bindings_view(sp) =~= bindings_view(s).push((t.0@, t.1@)));
    }
}

impl View for EvalState {
    type V = StateM;

    closed spec fn view(&self) -> StateM {
        StateM {
            declaration: view_seq(self.declaration@),
            variables: bindings_view(self.variables@),
            return_value: match self.return_value {
                Some(t) => Some(t@),
                None => None,
            },
        }
    }
}

/// A name is bound somewhere in a binding sequence.
pub open spec fn has_key(vars: Seq<(Seq<char>, TermV)>, name: Seq<char>) -> bool {
    exists|i: int| 0 <= i < vars.len() && (#[trigger] vars[i]).0 == name
}

/// The variables after a merge: the child's bindings, then those of the
/// caller's bindings whose names the child does not bind.
pub open spec fn merged_vars(
    child: Seq<(Seq<char>, TermV)>,
    parent: Seq<(Seq<char>, TermV)>,
    i: int,
) -> Seq<(Seq<char>, TermV)>
    decreases i,
{
    if i <= 0 {
        child
    } else {
        let prev = merged_vars(child, parent, i - 1);
        if has_key(prev, parent[i - 1].0) {
            prev
        } else {
            prev.push(parent[i - 1])
        }
    }
}

impl StateM {
    /// Well-formedness of a scope model: every stored term is well formed.
    pub open spec fn wf(self) -> bool {
        &&& forall|i: int| 0 <= i < self.declaration.len() ==> (#[trigger] self.declaration[i]).wf()
        &&& forall|i: int| 0 <= i < self.variables.len() ==> (#[trigger] self.variables[i]).1.wf()
        &&& self.return_value matches Some(t) ==> t.wf()
    }
}

impl EvalState {
    /// A fresh, empty scope.
    pub fn new() -> (r: Self)
        ensures
            r@.declaration == Seq::<TermV>::empty(),
            r@.variables == Seq::<(Seq<char>, TermV)>::empty(),
            r@.return_value is None,
            r@.wf(),
    {
        let r = EvalState { declaration: Vec::new(), variables: Vec::new(), return_value: None };
        proof {
            assert(view_seq(r.declaration@) =~= Seq::<TermV>::empty());
            assert(bindings_view(r.variables@) =~= Seq::<(Seq<char>, TermV)>::empty());
        }
        r
    }

    /// A deep copy of the scope, with the same model.
    fn snapshot(&self) -> (r: Self)
        ensures
            r@ == self@,
    {
        let declaration = duplicate_tokens(&self.declaration);
        let mut variables: Vec<(String, Token)> = Vec::new();
        proof {
            assert(bindings_view(variables@) =~= Seq::<(Seq<char>, TermV)>::empty());
            assert(self.variables@.take(0) =~= Seq::<(String, Token)>::empty());
            assert(bindings_view(self.variables@.take(0)) =~= Seq::<(Seq<char>, TermV)>::empty());
            lemma_bindings_view_len(self.variables@);
        }
        let mut i: usize = 0;
        while i < self.variables.len()
            invariant
                i <= self.variables@.len(),
                bindings_view(variables@) == bindings_view(self.variables@.take(i as int)),
            decreases self.variables@.len() - i,
        {
            let ghost pre = variables@;
            let key = self.variables[i].0.clone();
            let val = self.variables[i].1.duplicate();
            variables.push((key, val));
            proof {
                lemma_bindings_view_push(pre, variables@[pre.len() as int]);
                assert(variables@ =~= pre.push(variables@[pre.len() as int]));
                lemma_bindings_view_push(
                    self.variables@.take(i as int),
                    self.variables@[i as int],
                );
                assert(self.variables@.take(i as int).push(self.variables@[i as int])
                    =~= self.variables@.take(i as int + 1));
            }
            i += 1;
        }
        proof {
            assert(self.variables@.take(self.variables@.len() as int) =~= self.variables@);
        }
        let return_value = match &self.return_value {
            Some(t) => Some(t.duplicate()),
            None => None,
        };
        EvalState { declaration, variables, return_value }
    }
}

/// True exactly when the binding sequence binds the name.
#[verifier::loop_isolation(false)]
fn bindings_contain(vars: &Vec<(String, Token)>, name: &String) -> (r: bool)
    ensures
        r == has_key(bindings_view(vars@), name@),
{
    proof {
        lemma_bindings_view_len(vars@);
    }
    let mut i: usize = 0;
    while i < vars.len()
        invariant
            i <= vars@.len(),
            forall|j: int| 0 <= j < i ==> (#[trigger] bindings_view(vars@)[j]).0 != name@,
        decreases vars@.len() - i,
    {
        proof {
            lemma_bindings_view_index(vars@, i as int);
        }
        if str_eq(vars[i].0.as_str(), name.as_str()) {
            proof {
                assert(bindings_view(vars@)[i as int].0 == name@);
            }
            return true;
        }
        i += 1;
    }
    false
}

/// Fold the finished scope of a nested evaluation back into a caller's
/// scope: the declarations are replaced wholesale by the nested scope's
/// final set, while variable bindings are merged with the nested scope's
/// values taking precedence and unseen caller bindings preserved. The
/// caller's return value is untouched.
#[verifier::loop_isolation(false)]
fn merge_state(dst: &mut EvalState, newstate: EvalState) -> (r: Result<(), EvalError>)
    ensures
        r is Ok,
        final(dst)@.declaration == newstate@.declaration,
        final(dst)@.variables == merged_vars(
            newstate@.variables,
            old(dst)@.variables,
            old(dst)@.variables.len() as int,
        ),
        final(dst)@.return_value == old(dst)@.return_value,
{
    let ghost oldvars = bindings_view(dst.variables@);
    let EvalState { declaration: new_decls, variables: new_vars, return_value: _ } = newstate;
    dst.declaration = new_decls;
    let mut merged = new_vars;
    let ghost childvars = bindings_view(merged@);
    proof {
        lemma_bindings_view_len(dst.variables@);
        assert(merged_vars(childvars, oldvars, 0) == childvars);
    }
    let mut i: usize = 0;
    while i < dst.variables.len()
        invariant
            i <= dst.variables@.len(),
            oldvars == bindings_view(dst.variables@),
            bindings_view(merged@) == merged_vars(childvars, oldvars, i as int),
        decreases dst.variables@.len() - i,
    {
        proof {
            lemma_bindings_view_index(dst.variables@, i as int);
        }
        let name = &dst.variables[i].0;
        let found = bindings_contain(&merged, name);
        if !found {
            let ghost pre = merged@;
            let key = dst.variables[i].0.clone();
            let val = dst.variables[i].1.duplicate();
            merged.push((key, val));
            proof {
                lemma_bindings_view_push(pre, merged@[pre.len() as int]);
                assert(merged@ =~= pre.push(merged@[pre.len() as int]));
            }
        }
        i += 1;
    }
    dst.variables = merged;
    Ok(())
}

} // verus!

verus! {

// ---------------------------------------------------------------------------
// Operator semantics: binary and unary operators on already-reduced operands.
// ---------------------------------------------------------------------------

/// What a binary operator yields on two reduced operands. Numbers carry the
/// four arithmetic operations, each exact, and the three comparisons; atoms
/// of one kind compare with `=`; `=` across mismatched shapes is always
/// false, never an error; everything else is undefined and yields the
/// `Unknown` sentinel.
pub open spec fn binop_spec(op: Seq<char>, x: TermV, y: TermV) -> TermV {
    match (x, y) {
        (TermV::Number(a), TermV::Number(b)) => {
            if op == "+"@ {
                match rat_add(a, b) {
                    Some(n) => TermV::Number(n),
                    None => TermV::Unknown,
                }
            } else if op == "-"@ {
                match rat_sub(a, b) {
                    Some(n) => TermV::Number(n),
                    None => TermV::Unknown,
                }
            } else if op == "*"@ {
                match rat_mul(a, b) {
                    Some(n) => TermV::Number(n),
                    None => TermV::Unknown,
                }
            } else if op == "/"@ {
                match rat_div(a, b) {
                    Some(n) => TermV::Number(n),
                    None => TermV::Unknown,
                }
            } else if op == "="@ {
                TermV::Bool(a.num * b.den == b.num * a.den)
            } else if op == ">="@ {
                TermV::Bool(a.num * b.den >= b.num * a.den)
            } else if op == "<="@ {
                TermV::Bool(a.num * b.den <= b.num * a.den)
            } else {
                TermV::Unknown
            }
        },
        (TermV::Str(a), TermV::Str(b)) => {
            if op == "="@ {
                TermV::Bool(a == b)
            } else {
                TermV::Unknown
            }
        },
        (TermV::Bool(a), TermV::Bool(b)) => {
            if op == "="@ {
                TermV::Bool(a == b)
            } else {
                TermV::Unknown
            }
        },
        (TermV::BinaryOp(a), TermV::BinaryOp(b)) => {
            if op == "="@ {
                TermV::Bool(a == b)
            } else {
                TermV::Unknown
            }
        },
        (TermV::UnaryOp(a), TermV::UnaryOp(b)) => {
            if op == "="@ {
                TermV::Bool(a == b)
            } else {
                TermV::Unknown
            }
        },
        (TermV::Var(a), TermV::Var(b)) => {
            if op == "="@ {
                TermV::Bool(a == b)
            } else {
                TermV::Unknown
            }
        },
        (TermV::Var(a), _) => TermV::Unknown,
        (_, _) => {
            if op == "="@ {
                TermV::Bool(false)
            } else {
                TermV::Unknown
            }
        },
    }
}


/// Equality is total: applied to operands of which the left is no variable,
/// `=` always yields a boolean, never an error and never the `Unknown`
/// sentinel; across atomic literals of mismatched kinds it is always
/// `false`.
pub proof fn lemma_eq_total(x: TermV, y: TermV)
    requires
        !(x is Var),
    ensures
        binop_spec("="@, x, y) is Bool,
        ((x is Number || x is Str || x is Bool) && (y is Number || y is Str || y is Bool) && !(
        x is Number && y is Number) && !(x is Str && y is Str) && !(x is Bool && y is Bool))
            ==> binop_spec("="@, x, y) == TermV::Bool(false),
{
    reveal_strlit("=");
    reveal_strlit("+");
    reveal_strlit("-");
    reveal_strlit("*");
    reveal_strlit("/");
    reveal_strlit(">=");
    reveal_strlit("<=");
    assert("="@.len() == 1);
    assert("+"@.len() == 1);
    assert("-"@.len() == 1);
    assert("*"@.len() == 1);
    assert("/"@.len() == 1);
    assert(">="@.len() == 2);
    assert("<="@.len() == 2);
    assert("="@[0] == '=');
    assert("+"@[0] == '+');
    assert("-"@[0] == '-');
    assert("*"@[0] == '*');
    assert("/"@[0] == '/');
}

/// The keyword texts of the unary special forms are pairwise distinct.
proof fn lemma_keywords_distinct()
    ensures
        ".print"@ != ".return"@,
        ".print"@ != ".load"@,
        ".print"@ != ".declare"@,
        ".print"@ != ".dec"@,
        ".print"@ != ".match"@,
        ".print"@ != ".eval"@,
        ".print"@ != ".head"@,
        ".print"@ != ".back"@,
        ".return"@ != ".load"@,
        ".return"@ != ".declare"@,
        ".return"@ != ".dec"@,
        ".return"@ != ".match"@,
        ".return"@ != ".eval"@,
        ".return"@ != ".head"@,
        ".return"@ != ".back"@,
        ".load"@ != ".declare"@,
        ".load"@ != ".dec"@,
        ".load"@ != ".match"@,
        ".load"@ != ".eval"@,
        ".load"@ != ".head"@,
        ".load"@ != ".back"@,
        ".declare"@ != ".dec"@,
        ".declare"@ != ".match"@,
        ".declare"@ != ".eval"@,
        ".declare"@ != ".head"@,
        ".declare"@ != ".back"@,
        ".dec"@ != ".match"@,
        ".dec"@ != ".eval"@,
        ".dec"@ != ".head"@,
        ".dec"@ != ".back"@,
        ".match"@ != ".eval"@,
        ".match"@ != ".head"@,
        ".match"@ != ".back"@,
        ".eval"@ != ".head"@,
        ".eval"@ != ".back"@,
        ".head"@ != ".back"@,
{
    reveal_strlit(".print");
    reveal_strlit(".return");
    reveal_strlit(".load");
    reveal_strlit(".declare");
    reveal_strlit(".dec");
    reveal_strlit(".match");
    reveal_strlit(".eval");
    reveal_strlit(".head");
    reveal_strlit(".back");
    assert(".print"@[1] == 'p');
    assert(".match"@[1] == 'm');
    assert(".head"@[1] == 'h');
    assert(".back"@[1] == 'b');
    assert(".eval"@[1] == 'e');
    assert(".load"@[1] == 'l');
    assert(".print"@.len() == 6);
    assert(".return"@.len() == 7);
    assert(".load"@.len() == 5);
    assert(".declare"@.len() == 8);
    assert(".dec"@.len() == 4);
    assert(".match"@.len() == 6);
    assert(".eval"@.len() == 5);
    assert(".head"@.len() == 5);
    assert(".back"@.len() == 5);
}

/// Apply a binary operator; computes `binop_spec` and never fails.
fn eval_binary_operator(x: &Token, op: &String, y: &Token) -> (r: Result<Token, EvalError>)
    requires
        x@.wf(),
        y@.wf(),
    ensures
        r is Ok,
        r->Ok_0@ == binop_spec(op@, x@, y@),
        r->Ok_0@.wf(),
        !(r->Ok_0@ is Unknown) ==> r->Ok_0@.no_unknown(),
{
    proof {
        lemma_prods_fit(x@, y@);
    }
    let res: Token = match (x, y) {
        (Token::Number(a), Token::Number(b)) => {
            if str_eq(op.as_str(), "+") {
                match num_add(*a, *b) {
                    Some(n) => Token::Number(n),
                    None => Token::Unknown,
                }
            } else if str_eq(op.as_str(), "-") {
                match num_sub(*a, *b) {
                    Some(n) => Token::Number(n),
                    None => Token::Unknown,
                }
            } else if str_eq(op.as_str(), "*") {
                match num_mul(*a, *b) {
                    Some(n) => Token::Number(n),
                    None => Token::Unknown,
                }
            } else if str_eq(op.as_str(), "/") {
                match num_div(*a, *b) {
                    Some(n) => Token::Number(n),
                    None => Token::Unknown,
                }
            } else if str_eq(op.as_str(), "=") {
                Token::Bool(
                    (a.num as i128) * (b.den as i128) == (b.num as i128) * (a.den as i128),
                )
            } else if str_eq(op.as_str(), ">=") {
                Token::Bool(
                    (a.num as i128) * (b.den as i128) >= (b.num as i128) * (a.den as i128),
                )
            } else if str_eq(op.as_str(), "<=") {
                Token::Bool(
                    (a.num as i128) * (b.den as i128) <= (b.num as i128) * (a.den as i128),
                )
            } else {
                Token::Unknown
            }
        },
        (Token::Str(a), Token::Str(b)) => {
            if str_eq(op.as_str(), "=") {
                Token::Bool(str_eq(a.as_str(), b.as_str()))
            } else {
                Token::Unknown
            }
        },
        (Token::Bool(a), Token::Bool(b)) => {
            if str_eq(op.as_str(), "=") {
                Token::Bool(*a == *b)
            } else {
                Token::Unknown
            }
        },
        (Token::BinaryOp(a), Token::BinaryOp(b)) => {
            if str_eq(op.as_str(), "=") {
                Token::Bool(str_eq(a.as_str(), b.as_str()))
            } else {
                Token::Unknown
            }
        },
        (Token::UnaryOp(a), Token::UnaryOp(b)) => {
            if str_eq(op.as_str(), "=") {
                Token::Bool(str_eq(a.as_str(), b.as_str()))
            } else {
                Token::Unknown
            }
        },
        (Token::Var(a), Token::Var(b)) => {
            if str_eq(op.as_str(), "=") {
                Token::Bool(str_eq(a.as_str(), b.as_str()))
            } else {
                Token::Unknown
            }
        },
        (Token::Var(a), _) => Token::Unknown,
        (_, _) => {
            if str_eq(op.as_str(), "=") {
                Token::Bool(false)
            } else {
                Token::Unknown
            }
        },
    };
    Ok(res)
}

/// Cross products of two well-formed rationals fit the machine range.
proof fn lemma_prods_fit(x: TermV, y: TermV)
    requires
        x.wf(),
        y.wf(),
    ensures
        (x is Number && y is Number) ==> {
            let a = x->Number_0;
            let b = y->Number_0;
            &&& -0x4000_0000_0000_0000_0000_0000_0000_0000 <= a.num * b.den
                <= 0x4000_0000_0000_0000_0000_0000_0000_0000
            &&& -0x4000_0000_0000_0000_0000_0000_0000_0000 <= b.num * a.den
                <= 0x4000_0000_0000_0000_0000_0000_0000_0000
        },
{
    match (x, y) {
        (TermV::Number(a), TermV::Number(b)) => {
            assert(-0x4000_0000_0000_0000_0000_0000_0000_0000 <= a.num * b.den
                <= 0x4000_0000_0000_0000_0000_0000_0000_0000 && -0x4000_0000_0000_0000_0000_0000_0000_0000
                <= b.num * a.den <= 0x4000_0000_0000_0000_0000_0000_0000_0000) by (nonlinear_arith)
                requires
                    -0x4000_0000_0000_0000 <= a.num <= 0x4000_0000_0000_0000,
                    1 <= a.den <= 0x4000_0000_0000_0000,
                    -0x4000_0000_0000_0000 <= b.num <= 0x4000_0000_0000_0000,
                    1 <= b.den <= 0x4000_0000_0000_0000,
            ;
        },
        _ => {},
    }
}

/// What the unary operator yields: logical negation on booleans only.
pub open spec fn unop_spec(op: Seq<char>, x: TermV) -> TermV {
    match x {
        TermV::Bool(a) => {
            if op == "!"@ {
                TermV::Bool(!a)
            } else {
                TermV::Unknown
            }
        },
        _ => TermV::Unknown,
    }
}

/// Apply the unary operator; an undefined combination is an error.
fn eval_unary_operator(x: &Token, op: &String) -> (r: Result<Token, EvalError>)
    requires
        x@.wf(),
    ensures
        unop_spec(op@, x@) is Unknown ==> r == Err::<Token, EvalError>(EvalError::UnknownOperator),
        !(unop_spec(op@, x@) is Unknown) ==> r is Ok && r->Ok_0@ == unop_spec(op@, x@)
            && r->Ok_0@.wf(),
        r is Ok ==> r->Ok_0@.no_unknown(),
{
    match x {
        Token::Bool(a) => {
            if str_eq(op.as_str(), "!") {
                Ok(Token::Bool(!*a))
            } else {
                Err(EvalError::UnknownOperator)
            }
        },
        _ => Err(EvalError::UnknownOperator),
    }
}

/// The keywords that have a binary handler.
pub open spec fn known_binary(k: Seq<char>) -> bool {
    ||| k == ".and"@
    ||| k == ".or"@
    ||| k == ".union"@
}

/// What a listed binary special form yields: logical `and` and `or` on
/// booleans, `union` as ordered concatenation of two lists; a listed
/// keyword on mismatched operand types is undefined and yields the
/// `Unknown` sentinel.
pub open spec fn binkw_spec(k: Seq<char>, a: TermV, b: TermV) -> TermV {
    if k == ".and"@ && a is Bool && b is Bool {
        TermV::Bool(a->Bool_0 && b->Bool_0)
    } else if k == ".or"@ && a is Bool && b is Bool {
        TermV::Bool(a->Bool_0 || b->Bool_0)
    } else if k == ".union"@ && a is Lst && b is Lst {
        TermV::Lst(a->Lst_0 + b->Lst_0)
    } else {
        TermV::Unknown
    }
}

/// Apply a binary special form: a keyword with no binary handler is an
/// error; a listed keyword computes `binkw_spec`.
#[verifier::loop_isolation(false)]
fn eval_binary_keyword(keyword: &String, a: &Token, b: &Token) -> (r: Result<Token, EvalError>)
    requires
        a@.wf(),
        b@.wf(),
    ensures
        known_binary(keyword@) ==> r is Ok && r->Ok_0@ == binkw_spec(keyword@, a@, b@)
            && r->Ok_0@.wf(),
        !known_binary(keyword@) ==> r == Err::<Token, EvalError>(EvalError::UnknownOperator),
        (a@.no_unknown() && b@.no_unknown() && r is Ok && !(r->Ok_0@ is Unknown)) ==> r->Ok_0@.no_unknown(),
{
    let is_and = str_eq(keyword.as_str(), ".and");
    let is_or = str_eq(keyword.as_str(), ".or");
    let is_union = str_eq(keyword.as_str(), ".union");
    if !is_and && !is_or && !is_union {
        return Err(EvalError::UnknownOperator);
    }
    match (a, b) {
        (Token::Bool(x), Token::Bool(y)) => {
            if is_and {
                return Ok(Token::Bool(*x && *y));
            }
            if is_or {
                return Ok(Token::Bool(*x || *y));
            }
            Ok(Token::Unknown)
        },
        (Token::Lst(x), Token::Lst(y)) => {
            if is_union {
                let ghost va = view_seq(x@);
                let ghost vb = view_seq(y@);
                proof {
                    lemma_view_seq_len(x@);
                    lemma_view_seq_len(y@);
                }
                let mut ret: Vec<Token> = Vec::new();
                proof {
                    assert(view_seq(ret@) =~= va.take(0));
                }
                let mut i: usize = 0;
                while i < x.len()
                    invariant
                        i <= x@.len(),
                        view_seq(ret@) == va.take(i as int),
                    decreases x@.len() - i,
                {
                    let ghost pre = ret@;
                    let c = x[i].duplicate();
                    ret.push(c);
                    proof {
                        lemma_view_seq_push(pre, c);
                        assert(ret@ =~= pre.push(c));
                        lemma_view_seq_index(x@, i as int);
                        assert(va.take(i as int).push(va[i as int]) =~= va.take(i + 1));
                    }
                    i += 1;
                }
                proof {
                    assert(va.take(x@.len() as int) =~= va);
                }
                let mut j: usize = 0;
                while j < y.len()
                    invariant
                        j <= y@.len(),
                        view_seq(ret@) == va + vb.take(j as int),
                    decreases y@.len() - j,
                {
                    let ghost pre = ret@;
                    let c = y[j].duplicate();
                    ret.push(c);
                    proof {
                        lemma_view_seq_push(pre, c);
                        assert(ret@ =~= pre.push(c));
                        lemma_view_seq_index(y@, j as int);
                        assert((va + vb.take(j as int)).push(vb[j as int]) =~= va + vb.take(
                            j + 1,
                        ));
                    }
                    j += 1;
                }
                proof {
                    assert(vb.take(y@.len() as int) =~= vb);
                    assert(a@ == TermV::Lst(va));
                    assert(b@ == TermV::Lst(vb));
                    if a@.no_unknown() && b@.no_unknown() {
                        assert(forall|j: int|
                            0 <= j < a@->Lst_0.len() ==> (#[trigger] a@->Lst_0[j]).no_unknown());
                        assert(forall|j: int|
                            0 <= j < b@->Lst_0.len() ==> (#[trigger] b@->Lst_0[j]).no_unknown());
                        assert forall|j: int| 0 <= j < (va + vb).len() implies (#[trigger] (va
                            + vb)[j]).no_unknown() by {
                            if j < va.len() {
                                assert((va + vb)[j] == a@->Lst_0[j]);
                            } else {
                                assert((va + vb)[j] == b@->Lst_0[j - va.len()]);
                            }
                        };
                        assert(TermV::Lst(va + vb).no_unknown());
                    }
                }
                return Ok(Token::Lst(ret));
            }
            Ok(Token::Unknown)
        },
        (_, _) => Ok(Token::Unknown),
    }
}

} // verus!

verus! {

// ---------------------------------------------------------------------------
// Declaration matching: `.match` compares a pattern against each declared
// fact positionwise.
// ---------------------------------------------------------------------------

/// The carried values of a positionwise comparison over `a[..i]` and
/// `b[..i]`: a variable on either side carries the other side's value, any
/// other pair must be `=`-equal or the whole match fails (`None`).
pub open spec fn clist_fold(a: Seq<TermV>, b: Seq<TermV>, i: int) -> Option<Seq<TermV>>
    decreases i,
{
    if i <= 0 {
        Some(Seq::empty())
    } else {
        match clist_fold(a, b, i - 1) {
            None => None,
            Some(s) => {
                if a[i - 1] is Var {
                    Some(s.push(b[i - 1]))
                } else if b[i - 1] is Var {
                    Some(s.push(a[i - 1]))
                } else if binop_spec("="@, a[i - 1], b[i - 1]) == TermV::Bool(true) {
                    Some(s.push(a[i - 1]))
                } else {
                    None
                }
            },
        }
    }
}

proof fn lemma_clist_fold_none(a: Seq<TermV>, b: Seq<TermV>, i: int, j: int)
    requires
        clist_fold(a, b, i) is None,
        i <= j,
    ensures
        clist_fold(a, b, j) is None,
    decreases j - i,
{
    if j > i {
        lemma_clist_fold_none(a, b, i, j - 1);
    }
}

/// What matching a pattern against one declared fact yields: lists of equal
/// length match positionwise into the list of carried values; everything
/// else is a plain `false`.
pub open spec fn match_decl_spec(source: TermV, target: TermV) -> TermV {
    match (source, target) {
        (TermV::Lst(s), TermV::Lst(t)) => {
            if s.len() != t.len() {
                TermV::Bool(false)
            } else {
                match clist_fold(s, t, s.len() as int) {
                    None => TermV::Bool(false),
                    Some(vals) => TermV::Lst(vals),
                }
            }
        },
        _ => TermV::Bool(false),
    }
}

/// Positionwise comparison of two equal-length lists; computes `clist_fold`.
#[verifier::loop_isolation(false)]
fn compare_list(a: &Vec<Token>, b: &Vec<Token>) -> (r: Result<Token, EvalError>)
    requires
        a@.len() == b@.len(),
        forall|i: int| 0 <= i < a@.len() ==> (#[trigger] a@[i]@).wf(),
        forall|i: int| 0 <= i < b@.len() ==> (#[trigger] b@[i]@).wf(),
    ensures
        r is Ok,
        r->Ok_0@ == (match clist_fold(view_seq(a@), view_seq(b@), a@.len() as int) {
            None => TermV::Bool(false),
            Some(vals) => TermV::Lst(vals),
        }),
        r->Ok_0@.wf(),
{
    let ghost va = view_seq(a@);
    let ghost vb = view_seq(b@);
    proof {
        lemma_view_seq_len(a@);
        lemma_view_seq_len(b@);
    }
    let mut ret: Vec<Token> = Vec::new();
    proof {
        assert(view_seq(ret@) =~= Seq::<TermV>::empty());
    }
    let mut i: usize = 0;
    while i < a.len()
        invariant
            i <= a@.len(),
            clist_fold(va, vb, i as int) == Some(view_seq(ret@)),
            forall|j: int| 0 <= j < ret@.len() ==> (#[trigger] ret@[j]@).wf(),
        decreases a@.len() - i,
    {
        proof {
            lemma_view_seq_index(a@, i as int);
            lemma_view_seq_index(b@, i as int);
        }
        let push_tok: &Token = match (&a[i], &b[i]) {
            (Token::Var(_), value) => value,
            (value, Token::Var(_)) => value,
            (xx, yy) => {
                let op = binop_eq_name();
                let cmp = eval_binary_operator(xx, &op, yy)?;
                let matched = match &cmp {
                    Token::Bool(bb) => *bb,
                    _ => false,
                };
                if !matched {
                    proof {
                        lemma_clist_fold_none(va, vb, i + 1, va.len() as int);
                        assert(va[i as int] is Var == false);
                        assert(vb[i as int] is Var == false);
                    }
                    return Ok(Token::Bool(false));
                }
                xx
            },
        };
        let ghost pre = ret@;
        let c = push_tok.duplicate();
        ret.push(c);
        proof {
            lemma_view_seq_push(pre, c);
            assert(ret@ =~= pre.push(c));
        }
        i += 1;
    }
    proof {
        lemma_view_seq_len(ret@);
        assert forall|j: int| 0 <= j < view_seq(ret@).len() implies (#[trigger] view_seq(
            ret@,
        )[j]).wf() by {
            lemma_view_seq_index(ret@, j);
        };
    }
    Ok(Token::Lst(ret))
}

/// The text of the equality operator, for building comparisons.
fn binop_eq_name() -> (r: String)
    ensures
        r@ == "="@,
{
    let mut s = String::new();
    push_char(&mut s, '=');
    proof {
        reveal_strlit("=");
        assert(s@ =~= "="@);
    }
    s
}

/// Match a pattern against one declared fact; computes `match_decl_spec`.
fn match_declaration(source: &Token, target: &Token) -> (r: Result<Token, EvalError>)
    requires
        source@.wf(),
        target@.wf(),
    ensures
        r is Ok,
        r->Ok_0@ == match_decl_spec(source@, target@),
        r->Ok_0@.wf(),
{
    match (source, target) {
        (Token::Lst(s), Token::Lst(t)) => {
            proof {
                lemma_view_seq_len(s@);
                lemma_view_seq_len(t@);
                assert(forall|i: int|
                    0 <= i < s@.len() ==> (#[trigger] s@[i]@) == view_seq(s@)[i] && view_seq(
                        s@,
                    )[i].wf()) by {
                    assert forall|i: int| 0 <= i < s@.len() implies (#[trigger] s@[i]@)
                        == view_seq(s@)[i] && view_seq(s@)[i].wf() by {
                        lemma_view_seq_index(s@, i);
                    };
                };
                assert(forall|i: int|
                    0 <= i < t@.len() ==> (#[trigger] t@[i]@) == view_seq(t@)[i] && view_seq(
                        t@,
                    )[i].wf()) by {
                    assert forall|i: int| 0 <= i < t@.len() implies (#[trigger] t@[i]@)
                        == view_seq(t@)[i] && view_seq(t@)[i].wf() by {
                        lemma_view_seq_index(t@, i);
                    };
                };
            }
            if s.len() != t.len() {
                Ok(Token::Bool(false))
            } else {
                compare_list(s, t)
            }
        },
        _ => Ok(Token::Bool(false)),
    }
}

/// The collected results of `.match`: for every declared fact, in
/// declaration order, the carried values of a successful match; failed
/// matches contribute nothing.
pub open spec fn match_results(x: TermV, decls: Seq<TermV>, i: int) -> Seq<TermV>
    decreases i,
{
    if i <= 0 {
        Seq::empty()
    } else {
        let prev = match_results(x, decls, i - 1);
        if match_decl_spec(x, decls[i - 1]) == TermV::Bool(false) {
            prev
        } else {
            prev.push(match_decl_spec(x, decls[i - 1]))
        }
    }
}

} // verus!

verus! {

// ---------------------------------------------------------------------------
// The query engine's mathematics: which facts a query matches, and what the
// result entries look like.
// ---------------------------------------------------------------------------

/// One query position accepts one fact position: a variable or wildcard on
/// the query side matches anything, any other term must be `=`-equal.
pub open spec fn qpos_ok(q: TermV, f: TermV) -> bool {
    q is Var || q is Wildcard || binop_spec("="@, q, f) == TermV::Bool(true)
}

/// The fact, itself a list of the query's length, matches at every position.
pub open spec fn fact_matches(q: Seq<TermV>, fact: TermV) -> bool {
    &&& fact is Lst
    &&& fact->Lst_0.len() == q.len()
    &&& forall|i: int| 0 <= i < q.len() ==> qpos_ok(q[i], fact->Lst_0[i])
}

/// The facts among `decls[..i]` that match the query, in declaration order.
pub open spec fn valid_facts_spec(q: Seq<TermV>, decls: Seq<TermV>, i: int) -> Seq<TermV>
    decreases i,
{
    if i <= 0 {
        Seq::empty()
    } else {
        let prev = valid_facts_spec(q, decls, i - 1);
        if fact_matches(q, decls[i - 1]) {
            prev.push(decls[i - 1])
        } else {
            prev
        }
    }
}

/// The binding entry one matching fact contributes: an equality assertion
/// `(= QueryVar FactValue)` for each position where the query holds a
/// variable, over `q[..i]`.
pub open spec fn query_entry(q: Seq<TermV>, f: Seq<TermV>, i: int) -> Seq<TermV>
    decreases i,
{
    if i <= 0 {
        Seq::empty()
    } else {
        let prev = query_entry(q, f, i - 1);
        if q[i - 1] is Var {
            prev.push(TermV::Lst(seq![TermV::BinaryOp("="@), q[i - 1], f[i - 1]]))
        } else {
            prev
        }
    }
}

/// The query's results: one entry list per matching fact, in order.
pub open spec fn query_results(q: Seq<TermV>, facts: Seq<TermV>, i: int) -> Seq<TermV>
    decreases i,
{
    if i <= 0 {
        Seq::empty()
    } else {
        query_results(q, facts, i - 1).push(
            TermV::Lst(query_entry(q, facts[i - 1]->Lst_0, q.len() as int)),
        )
    }
}

/// No nested list among the elements: the pre-evaluation pass leaves such a
/// query untouched.
pub open spec fn all_atomic(l: Seq<TermV>) -> bool {
    forall|i: int| 0 <= i < l.len() ==> !((#[trigger] l[i]) is Lst)
}

/// A list shape the dispatcher has a handler for: a binary operator or
/// keyword with two arguments, or a unary operator or keyword with one.
pub open spec fn dispatchable(l: Seq<TermV>) -> bool {
    ||| (l.len() == 3 && (l[0] is BinaryOp || l[0] is Keyword))
    ||| (l.len() == 2 && (l[0] is UnaryOp || l[0] is Keyword))
}

/// Reducing this term returns it unchanged and touches nothing: an atom, or
/// a list of such terms that either has no handler or whose handler yields
/// the `Unknown` sentinel.
pub open spec fn self_eval(t: TermV) -> bool
    decreases t,
{
    match t {
        TermV::Lst(l) => quiet_elems(l) && {
            ||| !dispatchable(l)
            ||| (l.len() == 3 && l[0] is BinaryOp && binop_spec(
                l[0]->BinaryOp_0,
                l[1],
                l[2],
            ) is Unknown)
            ||| (l.len() == 3 && l[0] is Keyword && known_binary(l[0]->Keyword_0)
                && binkw_spec(l[0]->Keyword_0, l[1], l[2]) is Unknown)
        },
        _ => true,
    }
}

/// Every element evaluates to itself.
pub open spec fn quiet_elems(l: Seq<TermV>) -> bool
    decreases l,
{
    forall|i: int| 0 <= i < l.len() ==> self_eval(#[trigger] l[i])
}

/// The `Unknown` sentinel means "leave the list unreduced".
pub open spec fn unknown_to_lst(res: TermV, l: Seq<TermV>) -> TermV {
    if res is Unknown {
        TermV::Lst(l)
    } else {
        res
    }
}

/// A flat list with no handler: its elements are atoms and its shape is not
/// dispatched.
pub open spec fn flat_irred(l: Seq<TermV>) -> bool {
    all_atomic(l) && !dispatchable(l)
}

/// The union-rewrite shape: a `.or` of two flat, handler-less lists where
/// neither branch nor the whole matches any declared fact.
pub open spec fn q6_shape(elems: Seq<TermV>, decls: Seq<TermV>) -> bool {
    &&& elems.len() == 3
    &&& elems[0] == TermV::Keyword(".or"@)
    &&& elems[1] is Lst
    &&& flat_irred(elems[1]->Lst_0)
    &&& elems[2] is Lst
    &&& flat_irred(elems[2]->Lst_0)
    &&& valid_facts_spec(elems[1]->Lst_0, decls, decls.len() as int).len() == 0
    &&& valid_facts_spec(elems[2]->Lst_0, decls, decls.len() as int).len() == 0
    &&& valid_facts_spec(elems, decls, decls.len() as int).len() == 0
}

/// What a term reduces to when only pure rules are involved: atoms reduce
/// to themselves; a list's elements reduce first, then a binary operator, a
/// listed binary keyword or the unary operator applies, and a handler-less
/// shape stays as the reduced list. `None` where a stateful form (a unary
/// keyword), an unlisted binary keyword or an undefined unary application
/// decides instead.
pub open spec fn pure_eval(t: TermV) -> Option<TermV>
    decreases t,
{
    match t {
        TermV::Lst(l) => match pure_eval_seq(l) {
            None => None,
            Some(kids) => pure_dispatch(kids),
        },
        _ => Some(t),
    }
}

/// Elementwise pure reduction of a list's elements; `None` as soon as one
/// element has no pure reduction.
pub open spec fn pure_eval_seq(l: Seq<TermV>) -> Option<Seq<TermV>>
    decreases l,
{
    if l.len() == 0 {
        Some(Seq::empty())
    } else {
        match pure_eval(l[0]) {
            None => None,
            Some(v) => match pure_eval_seq(l.drop_first()) {
                None => None,
                Some(rest) => Some(seq![v] + rest),
            },
        }
    }
}

/// The pure dispatch on a list of reduced elements.
pub open spec fn pure_dispatch(kids: Seq<TermV>) -> Option<TermV> {
    if kids.len() == 3 && kids[0] is BinaryOp {
        Some(unknown_to_lst(binop_spec(kids[0]->BinaryOp_0, kids[1], kids[2]), kids))
    } else if kids.len() == 3 && kids[0] is Keyword {
        if known_binary(kids[0]->Keyword_0) {
            Some(unknown_to_lst(binkw_spec(kids[0]->Keyword_0, kids[1], kids[2]), kids))
        } else {
            None
        }
    } else if kids.len() == 2 && kids[0] is UnaryOp {
        if unop_spec(kids[0]->UnaryOp_0, kids[1]) is Unknown {
            None
        } else {
            Some(unop_spec(kids[0]->UnaryOp_0, kids[1]))
        }
    } else if kids.len() == 2 && kids[0] is Keyword {
        None
    } else {
        Some(TermV::Lst(kids))
    }
}

/// The elementwise pure reduction, read off positionwise.
pub proof fn lemma_pure_seq_index(l: Seq<TermV>)
    requires
        pure_eval_seq(l) is Some,
    ensures
        pure_eval_seq(l)->Some_0.len() == l.len(),
        forall|i: int|
            0 <= i < l.len() ==> pure_eval(#[trigger] l[i]) == Some(
                pure_eval_seq(l)->Some_0[i],
            ),
    decreases l,
{
    if l.len() > 0 {
        lemma_pure_seq_index(l.drop_first());
        let v = pure_eval(l[0])->Some_0;
        let rest = pure_eval_seq(l.drop_first())->Some_0;
        assert(pure_eval_seq(l)->Some_0 == seq![v] + rest);
        assert forall|i: int| 0 <= i < l.len() implies pure_eval(#[trigger] l[i]) == Some(
            pure_eval_seq(l)->Some_0[i],
        ) by {
            if i == 0 {
                assert((seq![v] + rest)[0] == v);
            } else {
                assert(l.drop_first()[i - 1] == l[i]);
                assert((seq![v] + rest)[i] == rest[i - 1]);
            }
        };
    }
}

/// Every file in the table is small enough for the parser's position
/// counters.
pub open spec fn files_wf(fs: Seq<(String, String)>) -> bool {
    forall|i: int| 0 <= i < fs.len() ==> (#[trigger] fs[i]).1@.len() < 0x7fff_0000
}

/// The contents stored for a path: the earliest entry wins.
pub open spec fn lookup_file_spec(fs: Seq<(String, String)>, path: Seq<char>) -> Option<Seq<char>>
    decreases fs.len(),
{
    if fs.len() == 0 {
        None
    } else if fs[0].0@ == path {
        Some(fs[0].1@)
    } else {
        lookup_file_spec(fs.drop_first(), path)
    }
}

proof fn lemma_lookup_file_step(fs: Seq<(String, String)>, path: Seq<char>, i: int)
    requires
        0 <= i < fs.len(),
        fs[i].0@ != path,
    ensures
        lookup_file_spec(fs.skip(i), path) == lookup_file_spec(fs.skip(i + 1), path),
{
    assert(fs.skip(i).len() > 0);
    assert(fs.skip(i)[0] == fs[i]);
    assert(fs.skip(i).drop_first() =~= fs.skip(i + 1));
}

/// Look a path up in the file table; computes `lookup_file_spec`.
#[verifier::loop_isolation(false)]
fn lookup_file(files: &Vec<(String, String)>, path: &String) -> (r: Option<String>)
    ensures
        match r {
            Some(c) => lookup_file_spec(files@, path@) == Some(c@),
            None => lookup_file_spec(files@, path@) is None,
        },
{
    proof {
        assert(files@.skip(0) =~= files@);
    }
    let mut i: usize = 0;
    while i < files.len()
        invariant
            i <= files@.len(),
            lookup_file_spec(files@, path@) == lookup_file_spec(files@.skip(i as int), path@),
        decreases files@.len() - i,
    {
        if str_eq(files[i].0.as_str(), path.as_str()) {
            proof {
                assert(files@.skip(i as int)[0] == files@[i as int]);
            }
            return Some(files[i].1.clone());
        }
        proof {
            lemma_lookup_file_step(files@, path@, i as int);
        }
        i += 1;
    }
    proof {
        assert(files@.skip(files@.len() as int).len() == 0);
    }
    None
}

/// The model of a sequence of terms distributes over concatenation.
proof fn lemma_view_seq_concat(a: Seq<Token>, b: Seq<Token>)
    ensures
        view_seq(a + b) == view_seq(a) + view_seq(b),
{
    lemma_view_seq_len(a);
    lemma_view_seq_len(b);
    lemma_view_seq_len(a + b);
    assert forall|i: int| 0 <= i < a.len() + b.len() implies view_seq(a + b)[i] == (view_seq(a)
        + view_seq(b))[i] by {
        lemma_view_seq_index(a + b, i);
        if i < a.len() {
            lemma_view_seq_index(a, i);
            assert((a + b)[i] == a[i]);
        } else {
            lemma_view_seq_index(b, i - a.len());
            assert((a + b)[i] == b[i - a.len()]);
        }
    };
    assert(view_seq(a + b) =~= view_seq(a) + view_seq(b));
}

/// The merged bindings of identical child and caller scopes are unchanged.
proof fn lemma_merged_vars_self(v: Seq<(Seq<char>, TermV)>, i: int)
    requires
        0 <= i <= v.len(),
    ensures
        merged_vars(v, v, i) == v,
    decreases i,
{
    if i > 0 {
        lemma_merged_vars_self(v, i - 1);
        assert((v[i - 1]).0 == v[i - 1].0);
        assert(has_key(v, v[i - 1].0));
    }
}

/// Every binding in a merge comes from the child or the caller, so
/// well-formedness carries over.
proof fn lemma_merged_vars_wf(
    child: Seq<(Seq<char>, TermV)>,
    parent: Seq<(Seq<char>, TermV)>,
    i: int,
)
    requires
        0 <= i <= parent.len(),
        forall|j: int| 0 <= j < child.len() ==> (#[trigger] child[j]).1.wf(),
        forall|j: int| 0 <= j < parent.len() ==> (#[trigger] parent[j]).1.wf(),
    ensures
        forall|j: int|
            0 <= j < merged_vars(child, parent, i).len() ==> (#[trigger] merged_vars(
                child,
                parent,
                i,
            )[j]).1.wf(),
    decreases i,
{
    if i > 0 {
        lemma_merged_vars_wf(child, parent, i - 1);
        let prev = merged_vars(child, parent, i - 1);
        if !has_key(prev, parent[i - 1].0) {
            assert(merged_vars(child, parent, i) == prev.push(parent[i - 1]));
            assert(parent[i - 1].1.wf());
        }
    } else {
        assert(merged_vars(child, parent, i) == child);
    }
}

/// Prefixes chain.
proof fn lemma_prefix_trans(a: Seq<char>, b: Seq<char>, c: Seq<char>)
    requires
        a.is_prefix_of(b),
        b.is_prefix_of(c),
    ensures
        a.is_prefix_of(c),
{
    assert(c.subrange(0, a.len() as int) =~= a);
}

/// The text of the `.union` keyword, for the query engine's rewrite.
fn union_name() -> (r: String)
    ensures
        r@ == ".union"@,
{
    let mut s = String::new();
    push_char(&mut s, '.');
    push_char(&mut s, 'u');
    push_char(&mut s, 'n');
    push_char(&mut s, 'i');
    push_char(&mut s, 'o');
    push_char(&mut s, 'n');
    proof {
        reveal_strlit(".union");
        assert(s@ =~= ".union"@);
    }
    s
}

} // verus!

verus! {

/// The two scopes agree in every part.
pub open spec fn same_scope(a: StateM, b: StateM) -> bool {
    &&& a.declaration == b.declaration
    &&& a.variables == b.variables
    &&& a.return_value == b.return_value
}

/// The keywords that have a unary handler.
pub open spec fn known_unary(k: Seq<char>) -> bool {
    ||| k == ".print"@
    ||| k == ".return"@
    ||| k == ".load"@
    ||| k == ".declare"@
    ||| k == ".dec"@
    ||| k == ".match"@
    ||| k == ".eval"@
    ||| k == ".head"@
    ||| k == ".back"@
}

/// Evaluate one term in a fresh nested scope seeded from `state`, and fold
/// the nested scope's outcome back into `state`: an atom evaluates to
/// itself; a list is reduced innermost-first.
#[verifier::loop_isolation(false)]
fn eval_at(
    files: &Vec<(String, String)>,
    output: &mut String,
    state: &mut EvalState,
    token: Token,
    fuel: u64,
) -> (r: Result<Token, EvalError>)
    requires
        token@.wf(),
        old(state)@.wf(),
        files_wf(files@),
    ensures
        final(state)@.wf(),
        r is Ok ==> r->Ok_0@.wf(),
        old(output)@.is_prefix_of(final(output)@),
        final(state)@.return_value == old(state)@.return_value,
        token@ is Lst && old(state)@.return_value is Some ==> r is Ok,
        (token@.no_unknown() && old(state)@.clean()) ==> final(state)@.clean() && (r is Ok
            ==> r->Ok_0@.no_unknown()),
        (old(state)@.return_value is None && pure_eval(token@) is Some) ==> r is Ok
            && r->Ok_0@ == pure_eval(token@)->Some_0 && same_scope(final(state)@, old(state)@)
            && final(output)@ == old(output)@,
        !(token@ is Lst) ==> r is Ok && r->Ok_0@ == token@ && same_scope(
            final(state)@,
            old(state)@,
        ) && final(output)@ == old(output)@,
        (token@ is Lst && quiet_elems(token@->Lst_0) && old(state)@.return_value is None
            && !dispatchable(token@->Lst_0)) ==> r is Ok && r->Ok_0@ == token@ && same_scope(
            final(state)@,
            old(state)@,
        ) && final(output)@ == old(output)@,
        (token@ is Lst && quiet_elems(token@->Lst_0) && old(state)@.return_value is None
            && token@->Lst_0.len() == 3 && token@->Lst_0[0] is BinaryOp) ==> r is Ok
            && r->Ok_0@ == unknown_to_lst(
            binop_spec(token@->Lst_0[0]->BinaryOp_0, token@->Lst_0[1], token@->Lst_0[2]),
            token@->Lst_0,
        ) && same_scope(final(state)@, old(state)@) && final(output)@ == old(output)@,
        (token@ is Lst && quiet_elems(token@->Lst_0) && old(state)@.return_value is None
            && token@->Lst_0.len() == 3 && token@->Lst_0[0] is Keyword && known_binary(
            token@->Lst_0[0]->Keyword_0,
        )) ==> r is Ok && r->Ok_0@ == unknown_to_lst(
            binkw_spec(token@->Lst_0[0]->Keyword_0, token@->Lst_0[1], token@->Lst_0[2]),
            token@->Lst_0,
        ) && same_scope(final(state)@, old(state)@) && final(output)@ == old(output)@,
        (token@ is Lst && quiet_elems(token@->Lst_0) && old(state)@.return_value is None
            && token@->Lst_0.len() == 3 && token@->Lst_0[0] is Keyword && !known_binary(
            token@->Lst_0[0]->Keyword_0,
        )) ==> r == Err::<Token, EvalError>(EvalError::UnknownOperator) && same_scope(
            final(state)@,
            old(state)@,
        ) && final(output)@ == old(output)@,
        (token@ is Lst && quiet_elems(token@->Lst_0) && old(state)@.return_value is None
            && token@->Lst_0.len() == 2 && token@->Lst_0[0] is Keyword && (
        token@->Lst_0[0]->Keyword_0 == ".declare"@ || token@->Lst_0[0]->Keyword_0 == ".dec"@))
            ==> r is Ok && r->Ok_0@ == TermV::Bool(true) && final(state)@.declaration == old(state)@.declaration.push(token@->Lst_0[1]) && final(state)@.variables == old(state)@.variables && final(state)@.return_value == old(state)@.return_value && final(output)@ == old(output)@,
        (token@ is Lst && quiet_elems(token@->Lst_0) && old(state)@.return_value is None
            && token@->Lst_0.len() == 2 && token@->Lst_0[0] == TermV::Keyword(".match"@)) ==> r
            is Ok && r->Ok_0@ == TermV::Lst(
            match_results(
                token@->Lst_0[1],
                old(state)@.declaration,
                old(state)@.declaration.len() as int,
            ),
        ) && same_scope(final(state)@, old(state)@) && final(output)@ == old(output)@,
        (token@ is Lst && quiet_elems(token@->Lst_0) && old(state)@.return_value is None
            && token@->Lst_0.len() == 2 && token@->Lst_0[0] == TermV::Keyword(".eval"@)
            && token@->Lst_0[1] is Lst && all_atomic(token@->Lst_0[1]->Lst_0)
            && valid_facts_spec(
            token@->Lst_0[1]->Lst_0,
            old(state)@.declaration,
            old(state)@.declaration.len() as int,
        ).len() > 0) ==> r is Ok && r->Ok_0@ == TermV::Lst(
            query_results(
                token@->Lst_0[1]->Lst_0,
                valid_facts_spec(
                    token@->Lst_0[1]->Lst_0,
                    old(state)@.declaration,
                    old(state)@.declaration.len() as int,
                ),
                valid_facts_spec(
                    token@->Lst_0[1]->Lst_0,
                    old(state)@.declaration,
                    old(state)@.declaration.len() as int,
                ).len() as int,
            ),
        ) && same_scope(final(state)@, old(state)@) && final(output)@ == old(output)@,
        (token@ is Lst && quiet_elems(token@->Lst_0) && old(state)@.return_value is None
            && token@->Lst_0.len() == 2 && token@->Lst_0[0] == TermV::Keyword(".eval"@)
            && token@->Lst_0[1] is Lst && q6_shape(
            token@->Lst_0[1]->Lst_0,
            old(state)@.declaration,
        ) && fuel >= 1) ==> r is Ok && r->Ok_0@ == TermV::Lst(
            token@->Lst_0[1]->Lst_0[1]->Lst_0 + token@->Lst_0[1]->Lst_0[2]->Lst_0,
        ) && same_scope(final(state)@, old(state)@) && final(output)@ == old(output)@,
        (token@ is Lst && quiet_elems(token@->Lst_0) && old(state)@.return_value is None
            && token@->Lst_0.len() == 2 && token@->Lst_0[0] == TermV::Keyword(".print"@)) ==> r
            is Ok && r->Ok_0@ == TermV::Bool(true) && same_scope(final(state)@, old(state)@)
            && final(output)@ == old(output)@ + render_full(token@->Lst_0[1]),
        (token@ is Lst && quiet_elems(token@->Lst_0) && old(state)@.return_value is None
            && token@->Lst_0.len() == 2 && token@->Lst_0[0] == TermV::Keyword(".return"@))
            ==> r is Ok && r->Ok_0@ == token@->Lst_0[1] && same_scope(
            final(state)@,
            old(state)@,
        ) && final(output)@ == old(output)@,
        (token@ is Lst && quiet_elems(token@->Lst_0) && old(state)@.return_value is None
            && token@->Lst_0.len() == 2 && token@->Lst_0[0] == TermV::Keyword(".head"@)
            && token@->Lst_0[1] is Lst && token@->Lst_0[1]->Lst_0.len() > 0) ==> r is Ok
            && r->Ok_0@ == unknown_to_lst(token@->Lst_0[1]->Lst_0[0], token@->Lst_0)
            && same_scope(final(state)@, old(state)@) && final(output)@ == old(output)@,
        (token@ is Lst && quiet_elems(token@->Lst_0) && old(state)@.return_value is None
            && token@->Lst_0.len() == 2 && token@->Lst_0[0] == TermV::Keyword(".back"@)
            && token@->Lst_0[1] is Lst && token@->Lst_0[1]->Lst_0.len() > 0) ==> r is Ok
            && r->Ok_0@ == unknown_to_lst(token@->Lst_0[1]->Lst_0.last(), token@->Lst_0)
            && same_scope(final(state)@, old(state)@) && final(output)@ == old(output)@,
    decreases fuel, 3int, token@.height(),
{
    let ghost tv = token@;
    let mut parent = state.snapshot();
    let mut curr = EvalState::new();
    let ret = match token {
        Token::Lst(l) => {
            proof {
                lemma_view_seq_len(l@);
                assert(tv == TermV::Lst(view_seq(l@)));
                assert forall|i: int| 0 <= i < l@.len() implies (#[trigger] l@[i]@).wf() by {
                    lemma_view_seq_index(l@, i);
                    assert(view_seq(l@)[i].wf());
                };
                if tv.no_unknown() {
                    assert forall|i: int| 0 <= i < l@.len() implies (
                    #[trigger] l@[i]@).no_unknown() by {
                        lemma_view_seq_index(l@, i);
                        assert(view_seq(l@)[i].no_unknown());
                    };
                }
            }
            eval_lst(files, output, &mut parent, &mut curr, &l, fuel)
        },
        t => Ok(t),
    };
    proof {
        assert(old(state)@.declaration + Seq::<TermV>::empty() =~= old(state)@.declaration);
    }
    let ghost pv = parent@;
    let mr = merge_state(state, parent);
    proof {
        lemma_merged_vars_wf(pv.variables, old(state)@.variables, old(state)@.variables.len() as int);
        if pv.variables == old(state)@.variables {
            lemma_merged_vars_self(old(state)@.variables, old(state)@.variables.len() as int);
        }
        if tv.no_unknown() && old(state)@.clean() && pv.clean() {
            lemma_merged_vars_clean(
                pv.variables,
                old(state)@.variables,
                old(state)@.variables.len() as int,
            );
            assert(final(state)@.clean());
        }
    }
    match mr {
        Ok(_) => ret,
        Err(e) => Err(e),
    }
}

/// Reduce a list term: every element is reduced first, then the list is
/// dispatched on its shape; an enclosing `.return` short-circuits; a shape
/// with no handler is returned unreduced as a literal composite.
#[verifier::loop_isolation(false)]
fn eval_lst(
    files: &Vec<(String, String)>,
    output: &mut String,
    parent: &mut EvalState,
    curr: &mut EvalState,
    input: &Vec<Token>,
    fuel: u64,
) -> (r: Result<Token, EvalError>)
    requires
        forall|i: int| 0 <= i < input@.len() ==> (#[trigger] input@[i]@).wf(),
        old(parent)@.wf(),
        old(curr)@.wf(),
        files_wf(files@),
    ensures
        final(parent)@.wf(),
        final(curr)@.wf(),
        r is Ok ==> r->Ok_0@.wf(),
        old(output)@.is_prefix_of(final(output)@),
        final(curr)@.return_value == old(curr)@.return_value,
        old(parent)@.return_value is Some ==> r is Ok && final(parent)@.return_value is Some
            && r->Ok_0@ == final(parent)@.return_value->Some_0,
        ((forall|i: int| 0 <= i < input@.len() ==> (#[trigger] input@[i]@).no_unknown())
            && old(parent)@.clean() && old(curr)@.clean()) ==> final(parent)@.clean() && final(curr)@.clean() && (r is Ok ==> r->Ok_0@.no_unknown()),
        ({
            let pk = pure_eval_seq(view_seq(input@));
            (old(parent)@.return_value is None && pk is Some && pure_dispatch(pk->Some_0)
                is Some) ==> r is Ok && r->Ok_0@ == pure_dispatch(pk->Some_0)->Some_0
                && same_scope(final(parent)@, old(parent)@) && same_scope(
                final(curr)@,
                old(curr)@,
            ) && final(output)@ == old(output)@
        }),
        (quiet_elems(view_seq(input@)) && old(parent)@.return_value is None && !dispatchable(
            view_seq(input@),
        )) ==> r is Ok && r->Ok_0@ == TermV::Lst(view_seq(input@)) && same_scope(
            final(parent)@,
            old(parent)@,
        ) && same_scope(final(curr)@, old(curr)@) && final(output)@ == old(output)@,
        (quiet_elems(view_seq(input@)) && old(parent)@.return_value is None && view_seq(
            input@,
        ).len() == 3 && view_seq(input@)[0] is BinaryOp) ==> r is Ok && r->Ok_0@
            == unknown_to_lst(
            binop_spec(
                view_seq(input@)[0]->BinaryOp_0,
                view_seq(input@)[1],
                view_seq(input@)[2],
            ),
            view_seq(input@),
        ) && same_scope(final(parent)@, old(parent)@) && same_scope(final(curr)@, old(curr)@)
            && final(output)@ == old(output)@,
        (quiet_elems(view_seq(input@)) && old(parent)@.return_value is None && view_seq(
            input@,
        ).len() == 3 && view_seq(input@)[0] is Keyword && known_binary(
            view_seq(input@)[0]->Keyword_0,
        )) ==> r is Ok && r->Ok_0@ == unknown_to_lst(
            binkw_spec(
                view_seq(input@)[0]->Keyword_0,
                view_seq(input@)[1],
                view_seq(input@)[2],
            ),
            view_seq(input@),
        ) && same_scope(final(parent)@, old(parent)@) && same_scope(final(curr)@, old(curr)@)
            && final(output)@ == old(output)@,
        (quiet_elems(view_seq(input@)) && old(parent)@.return_value is None && view_seq(
            input@,
        ).len() == 3 && view_seq(input@)[0] is Keyword && !known_binary(
            view_seq(input@)[0]->Keyword_0,
        )) ==> r == Err::<Token, EvalError>(EvalError::UnknownOperator) && same_scope(
            final(parent)@,
            old(parent)@,
        ) && same_scope(final(curr)@, old(curr)@) && final(output)@ == old(output)@,
        (quiet_elems(view_seq(input@)) && old(parent)@.return_value is None && view_seq(
            input@,
        ).len() == 2 && view_seq(input@)[0] is UnaryOp) ==> (unop_spec(
            view_seq(input@)[0]->UnaryOp_0,
            view_seq(input@)[1],
        ) is Unknown ==> r == Err::<Token, EvalError>(EvalError::UnknownOperator)) && (!(
        unop_spec(view_seq(input@)[0]->UnaryOp_0, view_seq(input@)[1]) is Unknown) ==> r is Ok
            && r->Ok_0@ == unop_spec(view_seq(input@)[0]->UnaryOp_0, view_seq(input@)[1]))
            && same_scope(final(parent)@, old(parent)@) && same_scope(final(curr)@, old(curr)@)
            && final(output)@ == old(output)@,
        (quiet_elems(view_seq(input@)) && old(parent)@.return_value is None && view_seq(
            input@,
        ).len() == 2 && view_seq(input@)[0] is Keyword && (view_seq(input@)[0]->Keyword_0
            == ".declare"@ || view_seq(input@)[0]->Keyword_0 == ".dec"@)) ==> r is Ok
            && r->Ok_0@ == TermV::Bool(true) && final(parent)@.declaration == old(parent)@.declaration.push(view_seq(input@)[1]) && final(parent)@.variables == old(parent)@.variables && final(parent)@.return_value == old(parent)@.return_value && same_scope(
            final(curr)@,
            old(curr)@,
        ) && final(output)@ == old(output)@,
        (quiet_elems(view_seq(input@)) && old(parent)@.return_value is None && view_seq(
            input@,
        ).len() == 2 && view_seq(input@)[0] == TermV::Keyword(".match"@)) ==> r is Ok
            && r->Ok_0@ == TermV::Lst(
            match_results(
                view_seq(input@)[1],
                old(parent)@.declaration,
                old(parent)@.declaration.len() as int,
            ),
        ) && same_scope(final(parent)@, old(parent)@) && same_scope(final(curr)@, old(curr)@)
            && final(output)@ == old(output)@,
        (quiet_elems(view_seq(input@)) && old(parent)@.return_value is None && view_seq(
            input@,
        ).len() == 2 && view_seq(input@)[0] == TermV::Keyword(".eval"@) && view_seq(
            input@,
        )[1] is Lst && all_atomic(view_seq(input@)[1]->Lst_0) && valid_facts_spec(
            view_seq(input@)[1]->Lst_0,
            old(parent)@.declaration + old(curr)@.declaration,
            (old(parent)@.declaration + old(curr)@.declaration).len() as int,
        ).len() > 0) ==> r is Ok && r->Ok_0@ == TermV::Lst(
            query_results(
                view_seq(input@)[1]->Lst_0,
                valid_facts_spec(
                    view_seq(input@)[1]->Lst_0,
                    old(parent)@.declaration + old(curr)@.declaration,
                    (old(parent)@.declaration + old(curr)@.declaration).len() as int,
                ),
                valid_facts_spec(
                    view_seq(input@)[1]->Lst_0,
                    old(parent)@.declaration + old(curr)@.declaration,
                    (old(parent)@.declaration + old(curr)@.declaration).len() as int,
                ).len() as int,
            ),
        ) && same_scope(final(parent)@, old(parent)@) && same_scope(final(curr)@, old(curr)@)
            && final(output)@ == old(output)@,
        (quiet_elems(view_seq(input@)) && old(parent)@.return_value is None && old(curr)@.return_value is None && view_seq(input@).len() == 2 && view_seq(input@)[0]
            == TermV::Keyword(".eval"@) && view_seq(input@)[1] is Lst && q6_shape(
            view_seq(input@)[1]->Lst_0,
            old(parent)@.declaration + old(curr)@.declaration,
        ) && fuel >= 1) ==> r is Ok && r->Ok_0@ == TermV::Lst(
            view_seq(input@)[1]->Lst_0[1]->Lst_0 + view_seq(input@)[1]->Lst_0[2]->Lst_0,
        ) && same_scope(final(parent)@, old(parent)@) && same_scope(final(curr)@, old(curr)@)
            && final(output)@ == old(output)@,
        (quiet_elems(view_seq(input@)) && old(parent)@.return_value is None && view_seq(
            input@,
        ).len() == 2 && view_seq(input@)[0] == TermV::Keyword(".print"@)) ==> r is Ok
            && r->Ok_0@ == TermV::Bool(true) && same_scope(final(parent)@, old(parent)@)
            && same_scope(final(curr)@, old(curr)@) && final(output)@ == old(output)@
            + render_full(view_seq(input@)[1]),
        (quiet_elems(view_seq(input@)) && old(parent)@.return_value is None && view_seq(
            input@,
        ).len() == 2 && view_seq(input@)[0] == TermV::Keyword(".return"@)) ==> r is Ok
            && r->Ok_0@ == view_seq(input@)[1] && final(parent)@.return_value == Some(
            view_seq(input@)[1],
        ) && final(parent)@.declaration == old(parent)@.declaration && final(parent)@.variables
            == old(parent)@.variables && same_scope(final(curr)@, old(curr)@) && final(output)@
            == old(output)@,
        (quiet_elems(view_seq(input@)) && old(parent)@.return_value is None && view_seq(
            input@,
        ).len() == 2 && view_seq(input@)[0] == TermV::Keyword(".head"@) && view_seq(
            input@,
        )[1] is Lst && view_seq(input@)[1]->Lst_0.len() > 0) ==> r is Ok && r->Ok_0@
            == unknown_to_lst(view_seq(input@)[1]->Lst_0[0], view_seq(input@)) && same_scope(
            final(parent)@,
            old(parent)@,
        ) && same_scope(final(curr)@, old(curr)@) && final(output)@ == old(output)@,
        (quiet_elems(view_seq(input@)) && old(parent)@.return_value is None && view_seq(
            input@,
        ).len() == 2 && view_seq(input@)[0] == TermV::Keyword(".back"@) && view_seq(
            input@,
        )[1] is Lst && view_seq(input@)[1]->Lst_0.len() > 0) ==> r is Ok && r->Ok_0@
            == unknown_to_lst(view_seq(input@)[1]->Lst_0.last(), view_seq(input@))
            && same_scope(final(parent)@, old(parent)@) && same_scope(final(curr)@, old(curr)@)
            && final(output)@ == old(output)@,
    decreases fuel, 2int, TermV::Lst(view_seq(input@)).height(),
{
    let ghost vin = view_seq(input@);
    proof {
        lemma_view_seq_len(input@);
    }
    let mut lst: Vec<Token> = Vec::new();
    let mut i: usize = 0;
    while i < input.len()
        invariant
            i <= input@.len(),
            forall|j: int| 0 <= j < lst@.len() ==> (#[trigger] lst@[j]@).wf(),
            parent@.wf(),
            curr@.wf(),
            old(output)@.is_prefix_of(output@),
            curr@.return_value == old(curr)@.return_value,
            old(parent)@.return_value is Some ==> parent@.return_value is Some,
            ((forall|j: int| 0 <= j < input@.len() ==> (#[trigger] input@[j]@).no_unknown())
                && old(parent)@.clean() && old(curr)@.clean()) ==> (forall|j: int|
                0 <= j < lst@.len() ==> (#[trigger] lst@[j]@).no_unknown()) && parent@.clean()
                && curr@.clean(),
            ({
                let pk = pure_eval_seq(vin);
                (old(parent)@.return_value is None && pk is Some) ==> view_seq(lst@)
                    == pk->Some_0.take(i as int) && same_scope(parent@, old(parent)@)
                    && same_scope(curr@, old(curr)@) && output@ == old(output)@
            }),
            (quiet_elems(vin) && old(parent)@.return_value is None) ==> view_seq(lst@)
                == vin.take(i as int) && same_scope(parent@, old(parent)@) && same_scope(
                curr@,
                old(curr)@,
            ) && output@ == old(output)@,
        decreases input@.len() - i,
    {
        proof {
            lemma_view_seq_index(input@, i as int);
            lemma_height_seq_bound(vin, i as int);
        }
        match &input[i] {
            Token::Lst(l) => {
                proof {
                    assert(input@[i as int]@ == TermV::Lst(view_seq(l@)));
                    assert(TermV::Lst(view_seq(input@)).height() == 1 + TermV::height_seq(vin));
                    lemma_view_seq_len(l@);
                    assert forall|j: int| 0 <= j < l@.len() implies (#[trigger] l@[j]@).wf() by {
                        lemma_view_seq_index(l@, j);
                        assert(view_seq(l@)[j].wf());
                    };
                    if input@[i as int]@.no_unknown() {
                        assert forall|j: int| 0 <= j < l@.len() implies (
                        #[trigger] l@[j]@).no_unknown() by {
                            lemma_view_seq_index(l@, j);
                            assert(view_seq(l@)[j].no_unknown());
                        };
                    }
                    if old(parent)@.return_value is None && pure_eval_seq(vin) is Some {
                        lemma_pure_seq_index(vin);
                        assert(pure_eval(vin[i as int]) is Some);
                        assert(pure_eval_seq(view_seq(l@)) is Some);
                        assert(pure_dispatch(pure_eval_seq(view_seq(l@))->Some_0) is Some);
                    }
                }
                proof {
                    if quiet_elems(vin) {
                        assert(self_eval(vin[i as int]));
                        assert(vin[i as int] is Lst);
                        assert(quiet_elems(view_seq(l@)));
                    }
                }
                let ghost outpre = output@;
                let ghost scopepre_p = parent@;
                let ghost scopepre_c = curr@;
                let sub = match eval_lst(files, output, parent, curr, l, fuel) {
                    Ok(t) => t,
                    Err(e) => {
                        proof {
                            lemma_prefix_trans(old(output)@, outpre, output@);
                        }
                        return Err(e);
                    },
                };
                proof {
                    lemma_prefix_trans(old(output)@, outpre, output@);
                }
                let ghost pre = lst@;
                lst.push(sub);
                proof {
                    lemma_view_seq_push(pre, lst@[pre.len() as int]);
                    assert(lst@ =~= pre.push(lst@[pre.len() as int]));
                    if quiet_elems(vin) && old(parent)@.return_value is None {
                        assert(sub@ == vin[i as int]);
                        assert(vin.take(i as int).push(vin[i as int]) =~= vin.take(i + 1));
                    }
                    if old(parent)@.return_value is None && pure_eval_seq(vin) is Some {
                        let pk = pure_eval_seq(vin)->Some_0;
                        assert(sub@ == pk[i as int]);
                        assert(pk.take(i as int).push(pk[i as int]) =~= pk.take(i + 1));
                    }
                }
            },
            t => {
                let ghost pre = lst@;
                lst.push(t.duplicate());
                proof {
                    lemma_view_seq_push(pre, lst@[pre.len() as int]);
                    assert(lst@ =~= pre.push(lst@[pre.len() as int]));
                    if quiet_elems(vin) && old(parent)@.return_value is None {
                        assert(vin.take(i as int).push(vin[i as int]) =~= vin.take(i + 1));
                    }
                    if old(parent)@.return_value is None && pure_eval_seq(vin) is Some {
                        lemma_pure_seq_index(vin);
                        let pk = pure_eval_seq(vin)->Some_0;
                        assert(pure_eval(vin[i as int]) == Some(pk[i as int]));
                        assert(!(vin[i as int] is Lst));
                        assert(pk[i as int] == vin[i as int]);
                        assert(pk.take(i as int).push(pk[i as int]) =~= pk.take(i + 1));
                    }
                }
            },
        }
        i += 1;
    }
    let ghost outmid = output@;
    proof {
        lemma_view_seq_len(lst@);
        if quiet_elems(vin) && old(parent)@.return_value is None {
            assert(vin.take(input@.len() as int) =~= vin);
            assert(view_seq(lst@) == vin);
            if lst@.len() >= 1 {
                lemma_view_seq_index(lst@, 0);
            }
            if lst@.len() >= 2 {
                lemma_view_seq_index(lst@, 1);
            }
            if lst@.len() >= 3 {
                lemma_view_seq_index(lst@, 2);
            }
        }
        if old(parent)@.return_value is None && pure_eval_seq(vin) is Some {
            lemma_pure_seq_index(vin);
            let pk = pure_eval_seq(vin)->Some_0;
            assert(pk.take(pk.len() as int) =~= pk);
            assert(view_seq(lst@) == pk);
            if lst@.len() >= 1 {
                lemma_view_seq_index(lst@, 0);
            }
            if lst@.len() >= 2 {
                lemma_view_seq_index(lst@, 1);
            }
            if lst@.len() >= 3 {
                lemma_view_seq_index(lst@, 2);
            }
        }
    }
    let res: Result<Token, EvalError> = if lst.len() == 3 {
        match &lst[0] {
            Token::BinaryOp(op) => eval_binary_operator(&lst[1], op, &lst[2]),
            Token::Keyword(k) => eval_binary_keyword(k, &lst[1], &lst[2]),
            _ => Ok(Token::Unknown),
        }
    } else if lst.len() == 2 {
        match &lst[0] {
            Token::UnaryOp(op) => eval_unary_operator(&lst[1], op),
            Token::Keyword(k) => {
                let v = &lst[1];
                eval_unary_keyword(files, output, parent, curr, k, v, fuel)
            },
            _ => Ok(Token::Unknown),
        }
    } else {
        Ok(Token::Unknown)
    };
    proof {
        lemma_prefix_trans(old(output)@, outmid, output@);
    }
    match &parent.return_value {
        Some(ret) => {
            return Ok(ret.duplicate());
        },
        None => {},
    }
    match res {
        Ok(t) => {
            match t {
                Token::Unknown => {
                    proof {
                        lemma_view_seq_len(lst@);
                        assert forall|j: int| 0 <= j < view_seq(lst@).len() implies (
                        #[trigger] view_seq(lst@)[j]).wf() by {
                            lemma_view_seq_index(lst@, j);
                        };
                        if forall|j: int|
                            0 <= j < lst@.len() ==> (#[trigger] lst@[j]@).no_unknown() {
                            assert forall|j: int| 0 <= j < view_seq(lst@).len() implies (
                            #[trigger] view_seq(lst@)[j]).no_unknown() by {
                                lemma_view_seq_index(lst@, j);
                            };
                        }
                    }
                    Ok(Token::Lst(lst))
                },
                other => Ok(other),
            }
        },
        Err(e) => Err(e),
    }
}

/// Apply a unary special form to an already-reduced argument.
#[verifier::loop_isolation(false)]
fn eval_unary_keyword(
    files: &Vec<(String, String)>,
    output: &mut String,
    parent: &mut EvalState,
    curr: &mut EvalState,
    keyword: &String,
    value: &Token,
    fuel: u64,
) -> (r: Result<Token, EvalError>)
    requires
        value@.wf(),
        old(parent)@.wf(),
        old(curr)@.wf(),
        files_wf(files@),
    ensures
        final(parent)@.wf(),
        final(curr)@.wf(),
        r is Ok ==> r->Ok_0@.wf(),
        old(output)@.is_prefix_of(final(output)@),
        final(curr)@.return_value == old(curr)@.return_value,
        keyword@ != ".return"@ ==> final(parent)@.return_value == old(parent)@.return_value,
        old(parent)@.return_value is Some ==> final(parent)@.return_value is Some,
        (value@.no_unknown() && old(parent)@.clean() && old(curr)@.clean()) ==> final(parent)@.clean() && final(curr)@.clean() && (r is Ok ==> r->Ok_0@.no_unknown()),
        keyword@ == ".print"@ ==> r is Ok && r->Ok_0@ == TermV::Bool(true) && same_scope(
            final(parent)@,
            old(parent)@,
        ) && same_scope(final(curr)@, old(curr)@) && final(output)@ == old(output)@
            + render_full(value@),
        keyword@ == ".return"@ ==> r is Ok && r->Ok_0@ == value@ && final(parent)@.return_value
            == Some(value@) && final(parent)@.declaration == old(parent)@.declaration && final(parent)@.variables == old(parent)@.variables && same_scope(final(curr)@, old(curr)@) && final(output)@ == old(output)@,
        (keyword@ == ".declare"@ || keyword@ == ".dec"@) ==> r is Ok && r->Ok_0@ == TermV::Bool(
            true,
        ) && final(parent)@.declaration == old(parent)@.declaration.push(value@) && final(parent)@.variables == old(parent)@.variables && final(parent)@.return_value == old(parent)@.return_value && same_scope(final(curr)@, old(curr)@) && final(output)@ == old(output)@,
        keyword@ == ".match"@ ==> r is Ok && r->Ok_0@ == TermV::Lst(
            match_results(
                value@,
                old(parent)@.declaration,
                old(parent)@.declaration.len() as int,
            ),
        ) && same_scope(final(parent)@, old(parent)@) && same_scope(final(curr)@, old(curr)@)
            && final(output)@ == old(output)@,
        keyword@ == ".head"@ ==> (value@ is Lst && value@->Lst_0.len() > 0 ==> r is Ok
            && r->Ok_0@ == value@->Lst_0[0]) && (!(value@ is Lst && value@->Lst_0.len() > 0)
            ==> r == Err::<Token, EvalError>(EvalError::UnknownOperator)) && same_scope(
            final(parent)@,
            old(parent)@,
        ) && same_scope(final(curr)@, old(curr)@) && final(output)@ == old(output)@,
        keyword@ == ".back"@ ==> (value@ is Lst && value@->Lst_0.len() > 0 ==> r is Ok
            && r->Ok_0@ == value@->Lst_0.last()) && (!(value@ is Lst && value@->Lst_0.len() > 0)
            ==> r == Err::<Token, EvalError>(EvalError::UnknownOperator)) && same_scope(
            final(parent)@,
            old(parent)@,
        ) && same_scope(final(curr)@, old(curr)@) && final(output)@ == old(output)@,
        keyword@ == ".load"@ ==> (!(value@ is Str) ==> r == Err::<Token, EvalError>(
            EvalError::UnknownOperator,
        )) && (value@ is Str && lookup_file_spec(files@, value@->Str_0) is None ==> r is Ok
            && r->Ok_0@ == TermV::Bool(false) && same_scope(final(parent)@, old(parent)@)
            && same_scope(final(curr)@, old(curr)@) && final(output)@ == old(output)@),
        keyword@ == ".load"@ ==> same_scope(final(parent)@, old(parent)@),
        ({
            let lk = lookup_file_spec(files@, value@->Str_0);
            (keyword@ == ".load"@ && value@ is Str && lk is Some && fuel == 0) ==> r == Err::<
                Token,
                EvalError,
            >(EvalError::UnknownOperator) && same_scope(final(curr)@, old(curr)@) && final(output)@ == old(output)@
        }),
        ({
            let lk = lookup_file_spec(files@, value@->Str_0);
            (keyword@ == ".load"@ && value@ is Str && lk is Some && fuel >= 1
                && crate::parser::parse_spec(lk->Some_0) is Err) ==> r == Err::<
                Token,
                EvalError,
            >(EvalError::UnknownOperator) && same_scope(final(curr)@, old(curr)@) && final(output)@ == old(output)@
        }),
        ({
            let lk = lookup_file_spec(files@, value@->Str_0);
            let ast = crate::parser::parse_spec(lk->Some_0)->Ok_0;
            (keyword@ == ".load"@ && value@ is Str && lk is Some && fuel >= 1
                && crate::parser::parse_spec(lk->Some_0) is Ok && ast is Lst && quiet_elems(
                ast->Lst_0,
            ) && old(curr)@.return_value is None && ast->Lst_0.len() == 2 && ast->Lst_0[0]
                is Keyword && (ast->Lst_0[0]->Keyword_0 == ".declare"@
                || ast->Lst_0[0]->Keyword_0 == ".dec"@)) ==> r is Ok && r->Ok_0@
                == TermV::Bool(true) && final(curr)@.declaration == old(curr)@.declaration.push(ast->Lst_0[1]) && final(curr)@.variables == old(curr)@.variables && final(output)@ == old(output)@
        }),
        (keyword@ == ".eval"@ && value@ is Lst && all_atomic(value@->Lst_0)
            && valid_facts_spec(
            value@->Lst_0,
            old(parent)@.declaration + old(curr)@.declaration,
            (old(parent)@.declaration + old(curr)@.declaration).len() as int,
        ).len() > 0) ==> r is Ok && r->Ok_0@ == TermV::Lst(
            query_results(
                value@->Lst_0,
                valid_facts_spec(
                    value@->Lst_0,
                    old(parent)@.declaration + old(curr)@.declaration,
                    (old(parent)@.declaration + old(curr)@.declaration).len() as int,
                ),
                valid_facts_spec(
                    value@->Lst_0,
                    old(parent)@.declaration + old(curr)@.declaration,
                    (old(parent)@.declaration + old(curr)@.declaration).len() as int,
                ).len() as int,
            ),
        ) && same_scope(final(parent)@, old(parent)@) && same_scope(final(curr)@, old(curr)@)
            && final(output)@ == old(output)@,
        (keyword@ == ".eval"@ && value@ is Lst && q6_shape(
            value@->Lst_0,
            old(parent)@.declaration + old(curr)@.declaration,
        ) && old(curr)@.return_value is None && fuel >= 1) ==> r is Ok && r->Ok_0@
            == TermV::Lst(value@->Lst_0[1]->Lst_0 + value@->Lst_0[2]->Lst_0) && same_scope(
            final(parent)@,
            old(parent)@,
        ) && same_scope(final(curr)@, old(curr)@) && final(output)@ == old(output)@,
        !known_unary(keyword@) ==> r == Err::<Token, EvalError>(EvalError::UnknownOperator)
            && same_scope(final(parent)@, old(parent)@) && same_scope(final(curr)@, old(curr)@)
            && final(output)@ == old(output)@,
    decreases fuel, 1int, value@.height(),
{
    proof {
        lemma_keywords_distinct();
    }
    if str_eq(keyword.as_str(), ".print") {
        let s = render_token(value);
        output.append(s.as_str());
        return Ok(Token::Bool(true));
    }
    if str_eq(keyword.as_str(), ".return") {
        let d = value.duplicate();
        parent.return_value = Some(d);
        proof {
            assert(parent@.return_value == Some(value@));
            assert(parent@.declaration == old(parent)@.declaration);
            assert(parent@.variables == old(parent)@.variables);
            if value@.no_unknown() && old(parent)@.clean() {
                assert(parent@.clean());
            }
        }
        return Ok(value.duplicate());
    }
    if str_eq(keyword.as_str(), ".load") {
        match value {
            Token::Str(path) => {
                match lookup_file(files, path) {
                    None => {
                        return Ok(Token::Bool(false));
                    },
                    Some(contents) => {
                        proof {
                            lookup_found_small(files@, path@);
                        }
                        if fuel == 0 {
                            return Err(EvalError::UnknownOperator);
                        }
                        let p = crate::parser::Parser {  };
                        proof {
                            crate::parser::lemma_parse_clean(contents@);
                        }
                        match p.parse(contents) {
                            Err(_) => {
                                return Err(EvalError::UnknownOperator);
                            },
                            Ok(ast) => {
                                return eval_at(files, output, curr, ast, fuel - 1);
                            },
                        }
                    },
                }
            },
            _ => {
                return Err(EvalError::UnknownOperator);
            },
        }
    }
    if str_eq(keyword.as_str(), ".declare") || str_eq(keyword.as_str(), ".dec") {
        let ghost pre = parent.declaration@;
        parent.declaration.push(value.duplicate());
        proof {
            lemma_view_seq_push(pre, parent.declaration@[pre.len() as int]);
            assert(parent.declaration@ =~= pre.push(parent.declaration@[pre.len() as int]));
            assert(parent@.declaration == old(parent)@.declaration.push(value@));
            assert forall|j: int| 0 <= j < parent@.declaration.len() implies (
            #[trigger] parent@.declaration[j]).wf() by {
                if j < old(parent)@.declaration.len() {
                    assert(parent@.declaration[j] == old(parent)@.declaration[j]);
                } else {
                    assert(parent@.declaration[j] == value@);
                }
            };
            assert(parent@.variables == old(parent)@.variables);
            assert(parent@.return_value == old(parent)@.return_value);
            assert(parent@.wf());
            if value@.no_unknown() && old(parent)@.clean() {
                assert forall|j: int| 0 <= j < parent@.declaration.len() implies (
                #[trigger] parent@.declaration[j]).no_unknown() by {
                    if j < old(parent)@.declaration.len() {
                        assert(parent@.declaration[j] == old(parent)@.declaration[j]);
                    } else {
                        assert(parent@.declaration[j] == value@);
                    }
                };
                assert(parent@.clean());
            }
        }
        return Ok(Token::Bool(true));
    }
    if str_eq(keyword.as_str(), ".match") {
        let ghost pdecls = view_seq(parent.declaration@);
        proof {
            lemma_view_seq_len(parent.declaration@);
        }
        let mut res: Vec<Token> = Vec::new();
        proof {
            assert(view_seq(res@) =~= Seq::<TermV>::empty());
        }
        let mut i: usize = 0;
        while i < parent.declaration.len()
            invariant
                i <= parent.declaration@.len(),
                view_seq(res@) == match_results(value@, pdecls, i as int),
                forall|j: int| 0 <= j < res@.len() ==> (#[trigger] res@[j]@).wf(),
            decreases parent.declaration@.len() - i,
        {
            proof {
                lemma_view_seq_index(parent.declaration@, i as int);
            }
            let m = match match_declaration(value, &parent.declaration[i]) {
                Ok(t) => t,
                Err(e) => {
                    return Err(e);
                },
            };
            let skip = match &m {
                Token::Bool(b) => !*b,
                _ => false,
            };
            if !skip {
                let ghost pre = res@;
                res.push(m);
                proof {
                    lemma_view_seq_push(pre, res@[pre.len() as int]);
                    assert(res@ =~= pre.push(res@[pre.len() as int]));
                }
            }
            i += 1;
        }
        proof {
            lemma_view_seq_len(res@);
            assert forall|j: int| 0 <= j < view_seq(res@).len() implies (#[trigger] view_seq(
                res@,
            )[j]).wf() by {
                lemma_view_seq_index(res@, j);
            };
            if value@.no_unknown() && old(parent)@.clean() {
                lemma_match_results_clean(value@, pdecls, pdecls.len() as int);
                assert forall|j: int| 0 <= j < view_seq(res@).len() implies (
                #[trigger] view_seq(res@)[j]).no_unknown() by {
                    lemma_view_seq_index(res@, j);
                    assert(view_seq(res@)[j] == match_results(
                        value@,
                        pdecls,
                        pdecls.len() as int,
                    )[j]);
                };
            }
        }
        return Ok(Token::Lst(res));
    }
    if str_eq(keyword.as_str(), ".eval") {
        return eval_query(files, output, parent, curr, value.duplicate(), fuel);
    }
    if str_eq(keyword.as_str(), ".head") {
        match value {
            Token::Lst(tokens) => {
                proof {
                    lemma_view_seq_len(tokens@);
                }
                if tokens.len() > 0 {
                    proof {
                        lemma_view_seq_index(tokens@, 0);
                        if value@.no_unknown() {
                            assert(value@->Lst_0[0].no_unknown());
                        }
                    }
                    return Ok(tokens[0].duplicate());
                }
                return Err(EvalError::UnknownOperator);
            },
            _ => {
                return Err(EvalError::UnknownOperator);
            },
        }
    }
    if str_eq(keyword.as_str(), ".back") {
        match value {
            Token::Lst(tokens) => {
                proof {
                    lemma_view_seq_len(tokens@);
                }
                if tokens.len() > 0 {
                    proof {
                        lemma_view_seq_index(tokens@, tokens@.len() - 1);
                        if value@.no_unknown() {
                            assert(value@->Lst_0[tokens@.len() - 1].no_unknown());
                        }
                    }
                    return Ok(tokens[tokens.len() - 1].duplicate());
                }
                return Err(EvalError::UnknownOperator);
            },
            _ => {
                return Err(EvalError::UnknownOperator);
            },
        }
    }
    Err(EvalError::UnknownOperator)
}

/// A file the lookup found is small enough to parse.
proof fn lookup_found_small(fs: Seq<(String, String)>, path: Seq<char>)
    requires
        files_wf(fs),
        lookup_file_spec(fs, path) is Some,
    ensures
        lookup_file_spec(fs, path)->Some_0.len() < 0x7fff_0000,
    decreases fs.len(),
{
    if fs.len() > 0 {
        if fs[0].0@ == path {
        } else {
            assert(files_wf(fs.drop_first())) by {
                assert(forall|i: int|
                    0 <= i < fs.drop_first().len() ==> (#[trigger] fs.drop_first()[i]) == fs[i
                        + 1]);
            };
            lookup_found_small(fs.drop_first(), path);
        }
    }
}

/// Resolve a query against the declared facts of the parent and current
/// scopes: nested lists are pre-resolved as queries themselves, matching
/// facts produce binding entries, and a query no fact matches falls back to
/// ordinary reduction, rewriting `.or` to `.union` first.
#[verifier::loop_isolation(false)]
#[verifier::rlimit(100)]
fn eval_query(
    files: &Vec<(String, String)>,
    output: &mut String,
    parent: &mut EvalState,
    curr: &mut EvalState,
    token: Token,
    fuel: u64,
) -> (r: Result<Token, EvalError>)
    requires
        token@.wf(),
        old(parent)@.wf(),
        old(curr)@.wf(),
        files_wf(files@),
    ensures
        final(parent)@.wf(),
        final(curr)@.wf(),
        r is Ok ==> r->Ok_0@.wf(),
        old(output)@.is_prefix_of(final(output)@),
        same_scope(final(parent)@, old(parent)@),
        final(curr)@.return_value == old(curr)@.return_value,
        (token@.no_unknown() && old(parent)@.clean() && old(curr)@.clean()) ==> final(curr)@.clean() && (r is Ok ==> r->Ok_0@.no_unknown()),
        !(token@ is Lst) ==> r is Ok && r->Ok_0@ == token@ && same_scope(
            final(parent)@,
            old(parent)@,
        ) && same_scope(final(curr)@, old(curr)@) && final(output)@ == old(output)@,
        (token@ is Lst && all_atomic(token@->Lst_0) && valid_facts_spec(
            token@->Lst_0,
            old(parent)@.declaration + old(curr)@.declaration,
            (old(parent)@.declaration + old(curr)@.declaration).len() as int,
        ).len() > 0) ==> r is Ok && r->Ok_0@ == TermV::Lst(
            query_results(
                token@->Lst_0,
                valid_facts_spec(
                    token@->Lst_0,
                    old(parent)@.declaration + old(curr)@.declaration,
                    (old(parent)@.declaration + old(curr)@.declaration).len() as int,
                ),
                valid_facts_spec(
                    token@->Lst_0,
                    old(parent)@.declaration + old(curr)@.declaration,
                    (old(parent)@.declaration + old(curr)@.declaration).len() as int,
                ).len() as int,
            ),
        ) && same_scope(final(parent)@, old(parent)@) && same_scope(final(curr)@, old(curr)@)
            && final(output)@ == old(output)@,
        (token@ is Lst && all_atomic(token@->Lst_0) && !dispatchable(token@->Lst_0)
            && valid_facts_spec(
            token@->Lst_0,
            old(parent)@.declaration + old(curr)@.declaration,
            (old(parent)@.declaration + old(curr)@.declaration).len() as int,
        ).len() == 0 && old(curr)@.return_value is None && fuel >= 1) ==> r is Ok && r->Ok_0@
            == token@ && same_scope(final(parent)@, old(parent)@) && same_scope(
            final(curr)@,
            old(curr)@,
        ) && final(output)@ == old(output)@,
        (token@ is Lst && q6_shape(
            token@->Lst_0,
            old(parent)@.declaration + old(curr)@.declaration,
        ) && old(curr)@.return_value is None && fuel >= 1) ==> r is Ok && r->Ok_0@
            == TermV::Lst(token@->Lst_0[1]->Lst_0 + token@->Lst_0[2]->Lst_0) && same_scope(
            final(parent)@,
            old(parent)@,
        ) && same_scope(final(curr)@, old(curr)@) && final(output)@ == old(output)@,
        ({
            let el = token@->Lst_0;
            let dvq = old(parent)@.declaration + old(curr)@.declaration;
            (token@ is Lst && all_atomic(el) && valid_facts_spec(el, dvq, dvq.len() as int).len()
                == 0 && old(curr)@.return_value is None && fuel >= 1 && el.len() == 3 && el[0]
                is BinaryOp) ==> r is Ok && r->Ok_0@ == unknown_to_lst(
                binop_spec(el[0]->BinaryOp_0, el[1], el[2]),
                el,
            ) && same_scope(final(curr)@, old(curr)@) && final(output)@ == old(output)@
        }),
        ({
            let el = token@->Lst_0;
            let dvq = old(parent)@.declaration + old(curr)@.declaration;
            (token@ is Lst && all_atomic(el) && valid_facts_spec(el, dvq, dvq.len() as int).len()
                == 0 && old(curr)@.return_value is None && fuel >= 1 && el.len() == 3 && el[0]
                is Keyword && known_binary(el[0]->Keyword_0) && el[0]->Keyword_0 != ".or"@)
                ==> r is Ok && r->Ok_0@ == unknown_to_lst(
                binkw_spec(el[0]->Keyword_0, el[1], el[2]),
                el,
            ) && same_scope(final(curr)@, old(curr)@) && final(output)@ == old(output)@
        }),
        ({
            let el = token@->Lst_0;
            let dvq = old(parent)@.declaration + old(curr)@.declaration;
            (token@ is Lst && all_atomic(el) && valid_facts_spec(el, dvq, dvq.len() as int).len()
                == 0 && old(curr)@.return_value is None && fuel >= 1 && el.len() == 3 && el[0]
                is Keyword && !known_binary(el[0]->Keyword_0)) ==> r == Err::<
                Token,
                EvalError,
            >(EvalError::UnknownOperator) && same_scope(final(curr)@, old(curr)@) && final(output)@ == old(output)@
        }),
    decreases fuel, 0int, token@.height(),
{
    let ghost tv = token@;
    let mut declarations = duplicate_tokens(&parent.declaration);
    let mut more = duplicate_tokens(&curr.declaration);
    let ghost da = declarations@;
    let ghost db = more@;
    declarations.append(&mut more);
    let ghost dv = view_seq(declarations@);
    proof {
        assert(declarations@ == da + db);
        lemma_view_seq_concat(da, db);
        assert(dv == parent@.declaration + curr@.declaration);
        lemma_view_seq_len(declarations@);
        assert forall|j: int| 0 <= j < dv.len() implies (#[trigger] dv[j]).wf() by {
            lemma_view_seq_index(declarations@, j);
            if j < parent@.declaration.len() {
                assert(dv[j] == parent@.declaration[j]);
            } else {
                assert(dv[j] == curr@.declaration[j - parent@.declaration.len()]);
            }
        };
        if parent@.clean() && curr@.clean() {
            assert forall|j: int| 0 <= j < dv.len() implies (#[trigger] dv[j]).no_unknown() by {
                lemma_view_seq_index(declarations@, j);
                if j < parent@.declaration.len() {
                    assert(dv[j] == parent@.declaration[j]);
                } else {
                    assert(dv[j] == curr@.declaration[j - parent@.declaration.len()]);
                }
            };
        }
    }
    match token {
        Token::Lst(lst) => {
            let ghost vin = view_seq(lst@);
            proof {
                lemma_view_seq_len(lst@);
                assert(tv == TermV::Lst(vin));
            }
            // pre-resolve nested lists as queries of their own
            let mut new_lst: Vec<Token> = Vec::new();
            let mut i: usize = 0;
            while i < lst.len()
                invariant
                    i <= lst@.len(),
                    forall|j: int| 0 <= j < new_lst@.len() ==> (#[trigger] new_lst@[j]@).wf(),
                    parent@.wf(),
                    curr@.wf(),
                    old(output)@.is_prefix_of(output@),
                    same_scope(parent@, old(parent)@),
                    curr@.return_value == old(curr)@.return_value,
                    (tv.no_unknown() && old(parent)@.clean() && old(curr)@.clean()) ==> (
                    forall|j: int|
                        0 <= j < new_lst@.len() ==> (#[trigger] new_lst@[j]@).no_unknown())
                        && curr@.clean(),
                    (all_atomic(vin) || (q6_shape(vin, dv) && old(curr)@.return_value is None
                        && fuel >= 1)) ==> view_seq(new_lst@) == vin.take(i as int) && parent@
                        == old(parent)@ && curr@ == old(curr)@ && output@ == old(output)@,
                decreases lst@.len() - i,
            {
                proof {
                    lemma_view_seq_index(lst@, i as int);
                    lemma_height_seq_bound(vin, i as int);
                    if tv.no_unknown() {
                        assert(vin[i as int].no_unknown());
                        assert(lst@[i as int]@.no_unknown());
                    }
                }
                let is_sub = match &lst[i] {
                    Token::Lst(_) => true,
                    _ => false,
                };
                if is_sub {
                    proof {
                        if q6_shape(vin, dv) && old(curr)@.return_value is None && fuel >= 1 {
                            assert(i == 1 || i == 2);
                        }
                    }
                    let ghost outpre = output@;
                    let sub = match eval_query(
                        files,
                        output,
                        parent,
                        curr,
                        lst[i].duplicate(),
                        fuel,
                    ) {
                        Ok(t) => t,
                        Err(e) => {
                            proof {
                                lemma_prefix_trans(old(output)@, outpre, output@);
                            }
                            return Err(e);
                        },
                    };
                    proof {
                        lemma_prefix_trans(old(output)@, outpre, output@);
                    }
                    let ghost pre = new_lst@;
                    new_lst.push(sub);
                    proof {
                        lemma_view_seq_push(pre, new_lst@[pre.len() as int]);
                        assert(new_lst@ =~= pre.push(new_lst@[pre.len() as int]));
                        if q6_shape(vin, dv) && old(curr)@.return_value is None && fuel >= 1 {
                            assert(sub@ == vin[i as int]);
                            assert(vin.take(i as int).push(vin[i as int]) =~= vin.take(
                                i + 1,
                            ));
                        }
                    }
                } else {
                    let ghost pre = new_lst@;
                    new_lst.push(lst[i].duplicate());
                    proof {
                        lemma_view_seq_push(pre, new_lst@[pre.len() as int]);
                        assert(new_lst@ =~= pre.push(new_lst@[pre.len() as int]));
                        if all_atomic(vin) || (q6_shape(vin, dv) && old(curr)@.return_value
                            is None && fuel >= 1) {
                            assert(vin.take(i as int).push(vin[i as int]) =~= vin.take(
                                i + 1,
                            ));
                        }
                    }
                }
                i += 1;
            }
            let ghost qv = view_seq(new_lst@);
            proof {
                lemma_view_seq_len(new_lst@);
                if all_atomic(vin) || (q6_shape(vin, dv) && old(curr)@.return_value is None
                    && fuel >= 1) {
                    assert(vin.take(lst@.len() as int) =~= vin);
                    assert(qv == vin);
                }
            }
            // gather the facts that match
            let mut valid_facts: Vec<Token> = Vec::new();
            let mut f: usize = 0;
            while f < declarations.len()
                invariant
                    f <= declarations@.len(),
                    view_seq(valid_facts@) == valid_facts_spec(qv, dv, f as int),
                    forall|j: int|
                        0 <= j < valid_facts@.len() ==> (#[trigger] valid_facts@[j]@).wf(),
                decreases declarations@.len() - f,
            {
                proof {
                    lemma_view_seq_index(declarations@, f as int);
                }
                match &declarations[f] {
                    Token::Lst(fl) => {
                        let ghost fv = view_seq(fl@);
                        proof {
                            lemma_view_seq_len(fl@);
                            assert(dv[f as int] == TermV::Lst(fv));
                        }
                        if fl.len() != new_lst.len() {
                            proof {
                                assert(!fact_matches(qv, dv[f as int]));
                            }
                        } else {
                            let mut valid = true;
                            let mut p: usize = 0;
                            while valid && p < new_lst.len()
                                invariant
                                    p <= new_lst@.len(),
                                    new_lst@.len() == fl@.len(),
                                    valid ==> forall|q: int|
                                        0 <= q < p ==> qpos_ok(qv[q], fv[q]),
                                    !valid ==> !fact_matches(qv, dv[f as int]),
                                decreases new_lst@.len() - p,
                            {
                                proof {
                                    lemma_view_seq_index(new_lst@, p as int);
                                    lemma_view_seq_index(fl@, p as int);
                                }
                                let skip_pos = match &new_lst[p] {
                                    Token::Var(_) => true,
                                    Token::Wildcard(_) => true,
                                    _ => false,
                                };
                                if !skip_pos {
                                    proof {
                                        lemma_view_seq_len(fl@);
                                        assert(dv[f as int].wf());
                                        assert(forall|q2: int|
                                            0 <= q2 < dv[f as int]->Lst_0.len() ==> (
                                            #[trigger] dv[f as int]->Lst_0[q2]).wf());
                                        assert(dv[f as int]->Lst_0 == fv);
                                        assert(fv[p as int] == dv[f as int]->Lst_0[p as int]);
                                        assert(fv[p as int].wf());
                                        lemma_eq_total(qv[p as int], fv[p as int]);
                                    }
                                    let op = binop_eq_name();
                                    let cmp = match eval_binary_operator(
                                        &new_lst[p],
                                        &op,
                                        &fl[p],
                                    ) {
                                        Ok(t) => t,
                                        Err(e) => {
                                            return Err(e);
                                        },
                                    };
                                    let matched = match &cmp {
                                        Token::Bool(bb) => *bb,
                                        _ => {
                                            proof {
                                                assert(false);
                                            }
                                            true
                                        },
                                    };
                                    if !matched {
                                        valid = false;
                                        proof {
                                            assert(!qpos_ok(qv[p as int], fv[p as int]));
                                        }
                                    }
                                }
                                p += 1;
                            }
                            if valid {
                                proof {
                                    assert(fact_matches(qv, dv[f as int]));
                                }
                                let ghost pre = valid_facts@;
                                valid_facts.push(declarations[f].duplicate());
                                proof {
                                    lemma_view_seq_push(pre, valid_facts@[pre.len() as int]);
                                    assert(valid_facts@ =~= pre.push(
                                        valid_facts@[pre.len() as int],
                                    ));
                                }
                            }
                        }
                    },
                    _ => {
                        proof {
                            assert(!fact_matches(qv, dv[f as int]));
                        }
                    },
                }
                f += 1;
            }
            let ghost vfv = view_seq(valid_facts@);
            proof {
                lemma_view_seq_len(valid_facts@);
                lemma_valid_facts_match(qv, dv, dv.len() as int);
            }
            if valid_facts.len() == 0 {
                // no fact matched: rewrite `.or` to `.union` and reduce
                let is_or = if new_lst.len() == 3 {
                    proof {
                        lemma_view_seq_index(new_lst@, 0);
                    }
                    match &new_lst[0] {
                        Token::Keyword(k) => str_eq(k.as_str(), ".or"),
                        _ => false,
                    }
                } else {
                    false
                };
                let token2: Token = if is_or {
                    proof {
                        lemma_view_seq_index(new_lst@, 1);
                        lemma_view_seq_index(new_lst@, 2);
                    }
                    let mut v: Vec<Token> = Vec::new();
                    v.push(Token::Keyword(union_name()));
                    v.push(new_lst[1].duplicate());
                    v.push(new_lst[2].duplicate());
                    proof {
                        assert(view_seq(v@) =~= seq![TermV::Keyword(".union"@), qv[1], qv[2]])
                            by {
                            lemma_view_seq_len(v@);
                            lemma_view_seq_index(v@, 0);
                            lemma_view_seq_index(v@, 1);
                            lemma_view_seq_index(v@, 2);
                        };
                    }
                    proof {
                        lemma_view_seq_len(v@);
                        assert forall|j: int| 0 <= j < view_seq(v@).len() implies (
                        #[trigger] view_seq(v@)[j]).wf() by {
                            lemma_view_seq_index(new_lst@, 1);
                            lemma_view_seq_index(new_lst@, 2);
                        };
                    }
                    Token::Lst(v)
                } else {
                    proof {
                        assert forall|j: int| 0 <= j < view_seq(new_lst@).len() implies (
                        #[trigger] view_seq(new_lst@)[j]).wf() by {
                            lemma_view_seq_index(new_lst@, j);
                        };
                    }
                    Token::Lst(new_lst)
                };
                if fuel == 0 {
                    return Err(EvalError::UnknownOperator);
                }
                proof {
                    if tv.no_unknown() && old(parent)@.clean() && old(curr)@.clean() {
                        assert forall|j: int| 0 <= j < qv.len() implies (
                        #[trigger] qv[j]).no_unknown() by {
                            lemma_view_seq_index(new_lst@, j);
                        };
                        assert(token2@.no_unknown()) by {
                            let t2 = token2@->Lst_0;
                            assert forall|j: int| 0 <= j < t2.len() implies (
                            #[trigger] t2[j]).no_unknown() by {
                                if is_or {
                                    if j == 1 {
                                        assert(t2[1] == qv[1]);
                                    } else if j == 2 {
                                        assert(t2[2] == qv[2]);
                                    }
                                } else {
                                    assert(t2[j] == qv[j]);
                                }
                            };
                        };
                    }
                    if all_atomic(vin) {
                        assert forall|j: int| 0 <= j < qv.len() implies self_eval(
                            #[trigger] qv[j],
                        ) by {}
                        assert(quiet_elems(qv));
                        if !is_or {
                            assert(token2@ == TermV::Lst(qv));
                        }
                    }
                    if q6_shape(vin, dv) && old(curr)@.return_value is None {
                        assert(is_or);
                        assert(quiet_elems(seq![TermV::Keyword(".union"@), qv[1], qv[2]]))
                            by {
                            let u = seq![TermV::Keyword(".union"@), qv[1], qv[2]];
                            assert forall|j: int| 0 <= j < u.len() implies self_eval(
                                #[trigger] u[j],
                            ) by {
                                if j == 1 {
                                    assert(u[1] == vin[1]);
                                    assert(all_atomic(vin[1]->Lst_0));
                                    assert forall|m: int|
                                        0 <= m < vin[1]->Lst_0.len() implies self_eval(
                                        #[trigger] vin[1]->Lst_0[m],
                                    ) by {}
                                    assert(quiet_elems(vin[1]->Lst_0));
                                    assert(self_eval(vin[1]));
                                } else if j == 2 {
                                    assert(u[2] == vin[2]);
                                    assert(all_atomic(vin[2]->Lst_0));
                                    assert forall|m: int|
                                        0 <= m < vin[2]->Lst_0.len() implies self_eval(
                                        #[trigger] vin[2]->Lst_0[m],
                                    ) by {}
                                    assert(quiet_elems(vin[2]->Lst_0));
                                    assert(self_eval(vin[2]));
                                }
                            }
                        }
                    }
                }
                let ghost outpre = output@;
                let rr = eval_at(files, output, curr, token2, fuel - 1);
                proof {
                    lemma_prefix_trans(old(output)@, outpre, output@);
                }
                return rr;
            }
            // build one binding entry per matching fact
            let mut ret: Vec<Token> = Vec::new();
            let mut g: usize = 0;
            while g < valid_facts.len()
                invariant
                    g <= valid_facts@.len(),
                    view_seq(ret@) == query_results(qv, vfv, g as int),
                    forall|j: int| 0 <= j < ret@.len() ==> (#[trigger] ret@[j]@).wf(),
                decreases valid_facts@.len() - g,
            {
                proof {
                    lemma_view_seq_index(valid_facts@, g as int);
                    assert(fact_matches(qv, vfv[g as int]));
                }
                match &valid_facts[g] {
                    Token::Lst(fl) => {
                        let ghost fv = view_seq(fl@);
                        proof {
                            lemma_view_seq_len(fl@);
                            assert(vfv[g as int] == TermV::Lst(fv));
                        }
                        let mut vars: Vec<Token> = Vec::new();
                        let mut p: usize = 0;
                        while p < new_lst.len()
                            invariant
                                p <= new_lst@.len(),
                                new_lst@.len() == fl@.len(),
                                view_seq(vars@) == query_entry(qv, fv, p as int),
                                forall|j: int|
                                    0 <= j < vars@.len() ==> (#[trigger] vars@[j]@).wf(),
                            decreases new_lst@.len() - p,
                        {
                            proof {
                                lemma_view_seq_index(new_lst@, p as int);
                                lemma_view_seq_index(fl@, p as int);
                            }
                            let is_var = match &new_lst[p] {
                                Token::Var(_) => true,
                                _ => false,
                            };
                            if is_var {
                                proof {
                                    lemma_view_seq_len(fl@);
                                    assert(vfv[g as int].wf());
                                    assert(forall|q2: int|
                                        0 <= q2 < vfv[g as int]->Lst_0.len() ==> (
                                        #[trigger] vfv[g as int]->Lst_0[q2]).wf());
                                    assert(vfv[g as int]->Lst_0 == fv);
                                    assert(fv[p as int] == vfv[g as int]->Lst_0[p as int]);
                                    assert(fv[p as int].wf());
                                }
                                let mut el: Vec<Token> = Vec::new();
                                el.push(Token::BinaryOp(binop_eq_name()));
                                el.push(new_lst[p].duplicate());
                                el.push(fl[p].duplicate());
                                proof {
                                    assert(view_seq(el@) =~= seq![
                                        TermV::BinaryOp("="@),
                                        qv[p as int],
                                        fv[p as int],
                                    ]) by {
                                        lemma_view_seq_len(el@);
                                        lemma_view_seq_index(el@, 0);
                                        lemma_view_seq_index(el@, 1);
                                        lemma_view_seq_index(el@, 2);
                                    };
                                }
                                let entry = Token::Lst(el);
                                proof {
                                    let ev = entry@->Lst_0;
                                    assert(ev == seq![
                                        TermV::BinaryOp("="@),
                                        qv[p as int],
                                        fv[p as int],
                                    ]);
                                    assert(qv[p as int].wf());
                                    assert forall|j: int| 0 <= j < ev.len() implies (
                                    #[trigger] ev[j]).wf() by {
                                        if j == 0 {
                                            assert(ev[0] == TermV::BinaryOp("="@));
                                        } else if j == 1 {
                                            assert(ev[1] == qv[p as int]);
                                        } else {
                                            assert(ev[2] == fv[p as int]);
                                        }
                                    };
                                    assert(entry@.wf());
                                }
                                let ghost pre = vars@;
                                vars.push(entry);
                                proof {
                                    lemma_view_seq_push(pre, vars@[pre.len() as int]);
                                    assert(vars@ =~= pre.push(vars@[pre.len() as int]));
                                }
                            }
                            p += 1;
                        }
                        let ghost pre = ret@;
                        proof {
                            lemma_view_seq_len(vars@);
                            assert forall|j: int| 0 <= j < view_seq(vars@).len() implies (
                            #[trigger] view_seq(vars@)[j]).wf() by {
                                lemma_view_seq_index(vars@, j);
                            };
                        }
                        ret.push(Token::Lst(vars));
                        proof {
                            lemma_view_seq_push(pre, ret@[pre.len() as int]);
                            assert(ret@ =~= pre.push(ret@[pre.len() as int]));
                        }
                    },
                    _ => {
                        proof {
                            assert(vfv[g as int] is Lst);
                            assert(false);
                        }
                    },
                }
                g += 1;
            }
            proof {
                lemma_view_seq_len(ret@);
                assert forall|j: int| 0 <= j < view_seq(ret@).len() implies (#[trigger] view_seq(
                    ret@,
                )[j]).wf() by {
                    lemma_view_seq_index(ret@, j);
                };
                if tv.no_unknown() && old(parent)@.clean() && old(curr)@.clean() {
                    lemma_valid_facts_clean(qv, dv, dv.len() as int);
                    lemma_valid_facts_match(qv, dv, dv.len() as int);
                    assert(forall|j: int|
                        0 <= j < qv.len() ==> (#[trigger] qv[j]).no_unknown()) by {
                        assert forall|j: int| 0 <= j < qv.len() implies (
                        #[trigger] qv[j]).no_unknown() by {
                            lemma_view_seq_index(new_lst@, j);
                        };
                    };
                    assert(forall|j: int|
                        0 <= j < vfv.len() ==> (#[trigger] vfv[j]) is Lst && vfv[j].no_unknown()
                            && vfv[j]->Lst_0.len() == qv.len()) by {
                        assert forall|j: int| 0 <= j < vfv.len() implies (#[trigger] vfv[j])
                            is Lst && vfv[j].no_unknown() && vfv[j]->Lst_0.len() == qv.len() by {
                            assert(fact_matches(qv, vfv[j]));
                        };
                    };
                    lemma_query_results_clean(qv, vfv, vfv.len() as int);
                    assert forall|j: int| 0 <= j < view_seq(ret@).len() implies (
                    #[trigger] view_seq(ret@)[j]).no_unknown() by {
                        lemma_view_seq_index(ret@, j);
                        assert(view_seq(ret@)[j] == query_results(qv, vfv, vfv.len() as int)[j]);
                    };
                }
            }
            Ok(Token::Lst(ret))
        },
        t => Ok(t),
    }
}

/// The query's results carry one binding entry per matching fact, in
/// declaration order: the entry at each position is built from exactly the
/// matching fact at that position.
pub proof fn lemma_query_order(q: Seq<TermV>, facts: Seq<TermV>, i: int)
    requires
        0 <= i,
    ensures
        query_results(q, facts, i).len() == i,
        forall|j: int|
            0 <= j < i ==> #[trigger] query_results(q, facts, i)[j] == TermV::Lst(
                query_entry(q, facts[j]->Lst_0, q.len() as int),
            ),
    decreases i,
{
    if i > 0 {
        lemma_query_order(q, facts, i - 1);
    }
}

/// A wildcard in a query constrains nothing: the position accepts any fact
/// element at all.
pub proof fn lemma_wildcard_matches_anything(q: TermV, f: TermV)
    requires
        q is Wildcard,
    ensures
        qpos_ok(q, f),
{
}

/// Only variable positions contribute bindings: a position that holds no
/// variable, a wildcard included, adds nothing to a result entry.
pub proof fn lemma_non_var_adds_no_binding(q: Seq<TermV>, f: Seq<TermV>, i: int)
    requires
        0 < i,
        !(q[i - 1] is Var),
    ensures
        query_entry(q, f, i) == query_entry(q, f, i - 1),
{
}

/// Union concatenates: every element of the first list first, in order,
/// then every element of the second, nothing dropped and nothing added.
pub proof fn lemma_union_concatenates(a: Seq<TermV>, b: Seq<TermV>)
    ensures
        binkw_spec(".union"@, TermV::Lst(a), TermV::Lst(b)) == TermV::Lst(a + b),
        (a + b).len() == a.len() + b.len(),
        forall|i: int| 0 <= i < a.len() ==> (a + b)[i] == a[i],
        forall|i: int| 0 <= i < b.len() ==> (a + b)[a.len() + i] == b[i],
{
}

/// The kept facts appear in declaration order: the filter only ever
/// appends, so extending the scanned prefix preserves what was kept.
pub proof fn lemma_valid_facts_monotone(q: Seq<TermV>, decls: Seq<TermV>, i: int, j: int)
    requires
        0 <= i <= j,
    ensures
        valid_facts_spec(q, decls, i).is_prefix_of(valid_facts_spec(q, decls, j)),
    decreases j - i,
{
    if j > i {
        lemma_valid_facts_monotone(q, decls, i, j - 1);
        let a = valid_facts_spec(q, decls, i);
        let b = valid_facts_spec(q, decls, j - 1);
        let c = valid_facts_spec(q, decls, j);
        if fact_matches(q, decls[j - 1]) {
            assert(c == b.push(decls[j - 1]));
        }
        assert(c.subrange(0, a.len() as int) =~= a);
    } else {
        let a = valid_facts_spec(q, decls, i);
        assert(a.subrange(0, a.len() as int) =~= a);
    }
}

/// Every fact the filter keeps matches the query.
proof fn lemma_valid_facts_match(q: Seq<TermV>, decls: Seq<TermV>, i: int)
    ensures
        forall|j: int|
            0 <= j < valid_facts_spec(q, decls, i).len() ==> fact_matches(
                q,
                #[trigger] valid_facts_spec(q, decls, i)[j],
            ),
    decreases i,
{
    if i > 0 {
        lemma_valid_facts_match(q, decls, i - 1);
        let prev = valid_facts_spec(q, decls, i - 1);
        let cur = valid_facts_spec(q, decls, i);
        if fact_matches(q, decls[i - 1]) {
            assert(cur == prev.push(decls[i - 1]));
            assert forall|j: int| 0 <= j < cur.len() implies fact_matches(
                q,
                #[trigger] cur[j],
            ) by {
                if j < prev.len() {
                    assert(cur[j] == prev[j]);
                } else {
                    assert(cur[j] == decls[i - 1]);
                }
            };
        }
    }
}

} // verus!

verus! {

/// The step budget an evaluation starts with: file loads and query
/// fallbacks consume it, so every evaluation terminates.
pub const EVAL_FUEL: u64 = 0x1000_0000;

/// The evaluator: a current scope that persists across top-level
/// evaluations, a table of loadable files, and the text printed so far.
#[derive(Debug)]
pub struct Evaluator {
    curr_state: EvalState,
    files: Vec<(String, String)>,
    output: String,
}

impl Evaluator {
    /// The model of the persistent scope.
    pub closed spec fn state(self) -> StateM {
        self.curr_state@
    }

    /// The table of loadable files.
    pub closed spec fn file_table(self) -> Seq<(String, String)> {
        self.files@
    }

    /// Everything printed so far.
    pub closed spec fn out(self) -> Seq<char> {
        self.output@
    }

    /// The evaluator's invariant: the scope holds well-formed terms and
    /// every file in the table is small enough to parse.
    pub closed spec fn inv(self) -> bool {
        &&& self.curr_state@.wf()
        &&& files_wf(self.files@)
    }

    /// A fresh evaluator: empty scope, no files, nothing printed.
    pub fn new() -> (r: Self)
        ensures
            r.inv(),
            r.state().declaration == Seq::<TermV>::empty(),
            r.state().variables == Seq::<(Seq<char>, TermV)>::empty(),
            r.state().return_value is None,
            r.state().clean(),
            r.file_table() == Seq::<(String, String)>::empty(),
            r.out() == Seq::<char>::empty(),
    {
        Evaluator { curr_state: EvalState::new(), files: Vec::new(), output: String::new() }
    }

    /// Make a file's contents available to `.load` under the given path.
    /// The earliest entry for a path wins.
    pub fn provide_file(&mut self, path: String, contents: String)
        requires
            old(self).inv(),
            contents@.len() < 0x7fff_0000,
        ensures
            final(self).inv(),
            final(self).file_table() == old(self).file_table().push((path, contents)),
            final(self).state() == old(self).state(),
            final(self).out() == old(self).out(),
    {
        self.files.push((path, contents));
    }

    /// Hand out everything printed so far and clear the buffer.
    pub fn take_output(&mut self) -> (r: String)
        requires
            old(self).inv(),
        ensures
            final(self).inv(),
            r@ == old(self).out(),
            final(self).out() == Seq::<char>::empty(),
            final(self).state() == old(self).state(),
            final(self).file_table() == old(self).file_table(),
    {
        let r = self.output.clone();
        self.output = String::new();
        r
    }

    /// Evaluate one term. A fresh nested scope is seeded from the
    /// persistent scope; on completion the nested scope's outcome is folded
    /// back: declarations replaced wholesale, variables merged with the
    /// nested values taking precedence. An atom evaluates to itself and
    /// leaves every part of the evaluator unchanged.
    pub fn eval_token(&mut self, token: Token) -> (r: Result<Token, EvalError>)
        requires
            old(self).inv(),
            token@.wf(),
        ensures
            final(self).inv(),
            r is Ok ==> r->Ok_0@.wf(),
            old(self).out().is_prefix_of(final(self).out()),
            final(self).file_table() == old(self).file_table(),
            final(self).state().return_value == old(self).state().return_value,
            token@ is Lst && old(self).state().return_value is Some ==> r is Ok,
            (token@.no_unknown() && old(self).state().clean()) ==> final(self).state().clean()
                && (r is Ok ==> r->Ok_0@.no_unknown()),
            (old(self).state().return_value is None && pure_eval(token@) is Some) ==> r is Ok
                && r->Ok_0@ == pure_eval(token@)->Some_0 && same_scope(
                final(self).state(),
                old(self).state(),
            ) && final(self).out() == old(self).out(),
            !(token@ is Lst) ==> r is Ok && r->Ok_0@ == token@ && same_scope(
                final(self).state(),
                old(self).state(),
            ) && final(self).out() == old(self).out(),
            (token@ is Lst && quiet_elems(token@->Lst_0) && old(self).state().return_value
                is None && !dispatchable(token@->Lst_0)) ==> r is Ok && r->Ok_0@ == token@
                && same_scope(final(self).state(), old(self).state()) && final(self).out()
                == old(self).out(),
            (token@ is Lst && quiet_elems(token@->Lst_0) && old(self).state().return_value
                is None && token@->Lst_0.len() == 3 && token@->Lst_0[0] is BinaryOp) ==> r
                is Ok && r->Ok_0@ == unknown_to_lst(
                binop_spec(token@->Lst_0[0]->BinaryOp_0, token@->Lst_0[1], token@->Lst_0[2]),
                token@->Lst_0,
            ) && same_scope(final(self).state(), old(self).state()) && final(self).out() == old(self).out(),
            (token@ is Lst && quiet_elems(token@->Lst_0) && old(self).state().return_value
                is None && token@->Lst_0.len() == 3 && token@->Lst_0[0] is Keyword
                && known_binary(token@->Lst_0[0]->Keyword_0)) ==> r is Ok && r->Ok_0@
                == unknown_to_lst(
                binkw_spec(token@->Lst_0[0]->Keyword_0, token@->Lst_0[1], token@->Lst_0[2]),
                token@->Lst_0,
            ) && same_scope(final(self).state(), old(self).state()) && final(self).out() == old(self).out(),
            (token@ is Lst && quiet_elems(token@->Lst_0) && old(self).state().return_value
                is None && token@->Lst_0.len() == 3 && token@->Lst_0[0] is Keyword
                && !known_binary(token@->Lst_0[0]->Keyword_0)) ==> r == Err::<
                Token,
                EvalError,
            >(EvalError::UnknownOperator) && same_scope(
                final(self).state(),
                old(self).state(),
            ) && final(self).out() == old(self).out(),
            (token@ is Lst && quiet_elems(token@->Lst_0) && old(self).state().return_value
                is None && token@->Lst_0.len() == 2 && token@->Lst_0[0] is Keyword && (
            token@->Lst_0[0]->Keyword_0 == ".declare"@ || token@->Lst_0[0]->Keyword_0
                == ".dec"@)) ==> r is Ok && r->Ok_0@ == TermV::Bool(true) && final(self).state().declaration == old(self).state().declaration.push(token@->Lst_0[1])
                && final(self).state().variables == old(self).state().variables && final(self).state().return_value == old(self).state().return_value && final(self).out()
                == old(self).out(),
            (token@ is Lst && quiet_elems(token@->Lst_0) && old(self).state().return_value
                is None && token@->Lst_0.len() == 2 && token@->Lst_0[0] == TermV::Keyword(
                ".match"@,
            )) ==> r is Ok && r->Ok_0@ == TermV::Lst(
                match_results(
                    token@->Lst_0[1],
                    old(self).state().declaration,
                    old(self).state().declaration.len() as int,
                ),
            ) && same_scope(final(self).state(), old(self).state()) && final(self).out() == old(self).out(),
            (token@ is Lst && quiet_elems(token@->Lst_0) && old(self).state().return_value
                is None && token@->Lst_0.len() == 2 && token@->Lst_0[0] == TermV::Keyword(
                ".eval"@,
            ) && token@->Lst_0[1] is Lst && all_atomic(token@->Lst_0[1]->Lst_0)
                && valid_facts_spec(
                token@->Lst_0[1]->Lst_0,
                old(self).state().declaration,
                old(self).state().declaration.len() as int,
            ).len() > 0) ==> r is Ok && r->Ok_0@ == TermV::Lst(
                query_results(
                    token@->Lst_0[1]->Lst_0,
                    valid_facts_spec(
                        token@->Lst_0[1]->Lst_0,
                        old(self).state().declaration,
                        old(self).state().declaration.len() as int,
                    ),
                    valid_facts_spec(
                        token@->Lst_0[1]->Lst_0,
                        old(self).state().declaration,
                        old(self).state().declaration.len() as int,
                    ).len() as int,
                ),
            ) && same_scope(final(self).state(), old(self).state()) && final(self).out() == old(self).out(),
            (token@ is Lst && quiet_elems(token@->Lst_0) && old(self).state().return_value
                is None && token@->Lst_0.len() == 2 && token@->Lst_0[0] == TermV::Keyword(
                ".eval"@,
            ) && token@->Lst_0[1] is Lst && q6_shape(
                token@->Lst_0[1]->Lst_0,
                old(self).state().declaration,
            )) ==> r is Ok && r->Ok_0@ == TermV::Lst(
                token@->Lst_0[1]->Lst_0[1]->Lst_0 + token@->Lst_0[1]->Lst_0[2]->Lst_0,
            ) && same_scope(final(self).state(), old(self).state()) && final(self).out() == old(self).out(),
            (token@ is Lst && quiet_elems(token@->Lst_0) && old(self).state().return_value
                is None && token@->Lst_0.len() == 2 && token@->Lst_0[0] == TermV::Keyword(
                ".print"@,
            )) ==> r is Ok && r->Ok_0@ == TermV::Bool(true) && same_scope(
                final(self).state(),
                old(self).state(),
            ) && final(self).out() == old(self).out() + render_full(token@->Lst_0[1]),
            (token@ is Lst && quiet_elems(token@->Lst_0) && old(self).state().return_value
                is None && token@->Lst_0.len() == 2 && token@->Lst_0[0] == TermV::Keyword(
                ".return"@,
            )) ==> r is Ok && r->Ok_0@ == token@->Lst_0[1] && same_scope(
                final(self).state(),
                old(self).state(),
            ) && final(self).out() == old(self).out(),
            (token@ is Lst && quiet_elems(token@->Lst_0) && old(self).state().return_value
                is None && token@->Lst_0.len() == 2 && token@->Lst_0[0] == TermV::Keyword(
                ".head"@,
            ) && token@->Lst_0[1] is Lst && token@->Lst_0[1]->Lst_0.len() > 0) ==> r is Ok
                && r->Ok_0@ == unknown_to_lst(token@->Lst_0[1]->Lst_0[0], token@->Lst_0)
                && same_scope(final(self).state(), old(self).state()) && final(self).out()
                == old(self).out(),
            (token@ is Lst && quiet_elems(token@->Lst_0) && old(self).state().return_value
                is None && token@->Lst_0.len() == 2 && token@->Lst_0[0] == TermV::Keyword(
                ".back"@,
            ) && token@->Lst_0[1] is Lst && token@->Lst_0[1]->Lst_0.len() > 0) ==> r is Ok
                && r->Ok_0@ == unknown_to_lst(token@->Lst_0[1]->Lst_0.last(), token@->Lst_0)
                && same_scope(final(self).state(), old(self).state()) && final(self).out()
                == old(self).out(),
    {
        eval_at(&self.files, &mut self.output, &mut self.curr_state, token, EVAL_FUEL)
    }
}

} // verus!

verus! {

impl StateM {
    /// The `Unknown` sentinel appears nowhere in the scope.
    pub open spec fn clean(self) -> bool {
        &&& forall|i: int|
            0 <= i < self.declaration.len() ==> (#[trigger] self.declaration[i]).no_unknown()
        &&& forall|i: int|
            0 <= i < self.variables.len() ==> (#[trigger] self.variables[i]).1.no_unknown()
        &&& self.return_value matches Some(t) ==> t.no_unknown()
    }
}

proof fn lemma_clist_clean(a: Seq<TermV>, b: Seq<TermV>, i: int)
    requires
        0 <= i <= a.len(),
        i <= b.len(),
        forall|j: int| 0 <= j < a.len() ==> (#[trigger] a[j]).no_unknown(),
        forall|j: int| 0 <= j < b.len() ==> (#[trigger] b[j]).no_unknown(),
    ensures
        clist_fold(a, b, i) matches Some(s) ==> forall|j: int|
            0 <= j < s.len() ==> (#[trigger] s[j]).no_unknown(),
    decreases i,
{
    if i > 0 {
        lemma_clist_clean(a, b, i - 1);
    }
}

proof fn lemma_match_decl_clean(x: TermV, t: TermV)
    requires
        x.no_unknown(),
        t.no_unknown(),
    ensures
        match_decl_spec(x, t).no_unknown(),
{
    match (x, t) {
        (TermV::Lst(s), TermV::Lst(f)) => {
            if s.len() == f.len() {
                assert(forall|j: int|
                    0 <= j < x->Lst_0.len() ==> (#[trigger] x->Lst_0[j]).no_unknown());
                assert(forall|j: int|
                    0 <= j < t->Lst_0.len() ==> (#[trigger] t->Lst_0[j]).no_unknown());
                lemma_clist_clean(s, f, s.len() as int);
            }
        },
        _ => {},
    }
}

proof fn lemma_match_results_clean(x: TermV, decls: Seq<TermV>, i: int)
    requires
        x.no_unknown(),
        i <= decls.len(),
        forall|j: int| 0 <= j < decls.len() ==> (#[trigger] decls[j]).no_unknown(),
    ensures
        forall|j: int|
            0 <= j < match_results(x, decls, i).len() ==> (#[trigger] match_results(
                x,
                decls,
                i,
            )[j]).no_unknown(),
    decreases i,
{
    if i > 0 {
        lemma_match_results_clean(x, decls, i - 1);
        lemma_match_decl_clean(x, decls[i - 1]);
        let prev = match_results(x, decls, i - 1);
        let cur = match_results(x, decls, i);
        if match_decl_spec(x, decls[i - 1]) != TermV::Bool(false) {
            assert(cur == prev.push(match_decl_spec(x, decls[i - 1])));
            assert forall|j: int| 0 <= j < cur.len() implies (#[trigger] cur[j]).no_unknown()
                by {
                if j < prev.len() {
                    assert(cur[j] == prev[j]);
                } else {
                    assert(cur[j] == match_decl_spec(x, decls[i - 1]));
                }
            };
        }
    }
}

proof fn lemma_query_entry_clean(q: Seq<TermV>, f: Seq<TermV>, i: int)
    requires
        forall|j: int| 0 <= j < q.len() ==> (#[trigger] q[j]).no_unknown(),
        forall|j: int| 0 <= j < f.len() ==> (#[trigger] f[j]).no_unknown(),
        i <= q.len(),
        i <= f.len(),
    ensures
        forall|j: int|
            0 <= j < query_entry(q, f, i).len() ==> (#[trigger] query_entry(
                q,
                f,
                i,
            )[j]).no_unknown(),
    decreases i,
{
    if i > 0 {
        lemma_query_entry_clean(q, f, i - 1);
        let prev = query_entry(q, f, i - 1);
        let cur = query_entry(q, f, i);
        if q[i - 1] is Var {
            let e = TermV::Lst(seq![TermV::BinaryOp("="@), q[i - 1], f[i - 1]]);
            assert forall|m: int| 0 <= m < e->Lst_0.len() implies (
            #[trigger] e->Lst_0[m]).no_unknown() by {
                if m == 1 {
                    assert(e->Lst_0[1] == q[i - 1]);
                } else if m == 2 {
                    assert(e->Lst_0[2] == f[i - 1]);
                }
            };
            assert(e.no_unknown());
            assert(cur == prev.push(e));
            assert forall|j: int| 0 <= j < cur.len() implies (#[trigger] cur[j]).no_unknown()
                by {
                if j < prev.len() {
                    assert(cur[j] == prev[j]);
                } else {
                    assert(cur[j] == e);
                }
            };
        }
    }
}

proof fn lemma_query_results_clean(q: Seq<TermV>, facts: Seq<TermV>, i: int)
    requires
        forall|j: int| 0 <= j < q.len() ==> (#[trigger] q[j]).no_unknown(),
        forall|j: int|
            0 <= j < facts.len() ==> (#[trigger] facts[j]) is Lst && facts[j].no_unknown()
                && facts[j]->Lst_0.len() == q.len(),
        0 <= i <= facts.len(),
    ensures
        forall|j: int|
            0 <= j < query_results(q, facts, i).len() ==> (#[trigger] query_results(
                q,
                facts,
                i,
            )[j]).no_unknown(),
    decreases i,
{
    if i > 0 {
        lemma_query_results_clean(q, facts, i - 1);
        let f = facts[i - 1]->Lst_0;
        assert(forall|m: int| 0 <= m < f.len() ==> (#[trigger] f[m]).no_unknown()) by {
            assert(facts[i - 1].no_unknown());
        };
        lemma_query_entry_clean(q, f, q.len() as int);
        let e = TermV::Lst(query_entry(q, f, q.len() as int));
        assert(forall|m: int|
            0 <= m < e->Lst_0.len() ==> (#[trigger] e->Lst_0[m]).no_unknown());
        assert(e.no_unknown());
        let prev = query_results(q, facts, i - 1);
        let cur = query_results(q, facts, i);
        assert(cur == prev.push(e));
        assert forall|j: int| 0 <= j < cur.len() implies (#[trigger] cur[j]).no_unknown() by {
            if j < prev.len() {
                assert(cur[j] == prev[j]);
            } else {
                assert(cur[j] == e);
            }
        };
    }
}

proof fn lemma_valid_facts_clean(q: Seq<TermV>, decls: Seq<TermV>, i: int)
    requires
        forall|j: int| 0 <= j < decls.len() ==> (#[trigger] decls[j]).no_unknown(),
        0 <= i <= decls.len(),
    ensures
        forall|j: int|
            0 <= j < valid_facts_spec(q, decls, i).len() ==> (#[trigger] valid_facts_spec(
                q,
                decls,
                i,
            )[j]).no_unknown(),
    decreases i,
{
    if i > 0 {
        lemma_valid_facts_clean(q, decls, i - 1);
        let prev = valid_facts_spec(q, decls, i - 1);
        let cur = valid_facts_spec(q, decls, i);
        if fact_matches(q, decls[i - 1]) {
            assert forall|j: int| 0 <= j < cur.len() implies (#[trigger] cur[j]).no_unknown() by {
                if j < prev.len() {
                    assert(cur[j] == prev[j]);
                } else {
                    assert(cur[j] == decls[i - 1]);
                }
            };
        }
    }
}

proof fn lemma_merged_vars_clean(
    child: Seq<(Seq<char>, TermV)>,
    parent: Seq<(Seq<char>, TermV)>,
    i: int,
)
    requires
        0 <= i <= parent.len(),
        forall|j: int| 0 <= j < child.len() ==> (#[trigger] child[j]).1.no_unknown(),
        forall|j: int| 0 <= j < parent.len() ==> (#[trigger] parent[j]).1.no_unknown(),
    ensures
        forall|j: int|
            0 <= j < merged_vars(child, parent, i).len() ==> (#[trigger] merged_vars(
                child,
                parent,
                i,
            )[j]).1.no_unknown(),
    decreases i,
{
    if i > 0 {
        lemma_merged_vars_clean(child, parent, i - 1);
        let prev = merged_vars(child, parent, i - 1);
        if !has_key(prev, parent[i - 1].0) {
            assert(merged_vars(child, parent, i) == prev.push(parent[i - 1]));
        }
    } else {
        assert(merged_vars(child, parent, i) == child);
    }
}

} // verus!
