//! The tagged-union term type shared by the parser and the evaluator, its
//! mathematical model, and the exact rational carried by numeric literals.

use vstd::prelude::*;

verus! {

/// A numeric literal, kept as an exact rational `num / den`.
///
/// Well-formed values keep `den` positive and both parts small enough that a
/// cross product of two well-formed values fits comfortably in an `i128`.
#[derive(Debug, Clone, Copy, PartialEq, Eq, Structural)]
pub struct Num {
    pub num: i64,
    pub den: i64,
}

/// Magnitude bound on numerator and denominator of a well-formed `Num`.
pub const NUM_LIMIT: i64 = 0x4000_0000_0000_0000;

impl Num {
    /// Well-formedness: positive bounded denominator, bounded numerator.
    pub open spec fn wf(self) -> bool {
        &&& 1 <= self.den <= NUM_LIMIT
        &&& -NUM_LIMIT <= self.num <= NUM_LIMIT
    }

    /// `self` and `other` denote the same rational, by cross multiplication.
    pub open spec fn same_value(self, other: Num) -> bool {
        self.num * other.den == other.num * self.den
    }

    /// The integer `i` as a `Num`.
    pub fn from_int(i: i64) -> (r: Num)
        requires
            -NUM_LIMIT <= i <= NUM_LIMIT,
        ensures
            r.wf(),
            r == (Num { num: i, den: 1 }),
    {
        Num { num: i, den: 1 }
    }
}

/// The term type: the homoiconic value and AST node of the language.
#[derive(Debug)]
pub enum Token {
    /// The only composite: an ordered list of terms, both code and data.
    Lst(Vec<Token>),
    /// A logic variable, written with a leading uppercase letter.
    Var(String),
    /// A string literal, quoted or bare.
    Str(String),
    /// A dotted identifier naming a special form, such as `.print`.
    Keyword(String),
    /// A numeric literal.
    Number(Num),
    /// A boolean literal, written `true` or `false`.
    Bool(bool),
    /// A binary operator atom, such as `+` or `>=`.
    BinaryOp(String),
    /// A unary operator atom: `!`.
    UnaryOp(String),
    /// An underscore-prefixed name that matches anything and binds nothing.
    Wildcard(String),
    /// Sentinel for "no applicable rule"; never part of well-formed output.
    Unknown,
}

/// The mathematical model of a term: the same tree with strings as character
/// sequences. All contracts in this crate speak of terms through this model.
pub enum TermV {
    Lst(Seq<TermV>),
    Var(Seq<char>),
    Str(Seq<char>),
    Keyword(Seq<char>),
    Number(Num),
    Bool(bool),
    BinaryOp(Seq<char>),
    UnaryOp(Seq<char>),
    Wildcard(Seq<char>),
    Unknown,
}

/// Model of a sequence of terms, elementwise.
pub open spec fn view_seq(s: Seq<Token>) -> Seq<TermV>
    decreases s,
{
    if s.len() == 0 {
        Seq::empty()
    } else {
        seq![s[0]@] + view_seq(s.drop_first())
    }
}

impl View for Token {
    type V = TermV;

    open spec fn view(&self) -> TermV
        decreases self,
    {
        match self {
            Token::Lst(l) => TermV::Lst(view_seq(l@)),
            Token::Var(s) => TermV::Var(s@),
            Token::Str(s) => TermV::Str(s@),
            Token::Keyword(s) => TermV::Keyword(s@),
            Token::Number(n) => TermV::Number(*n),
            Token::Bool(b) => TermV::Bool(*b),
            Token::BinaryOp(s) => TermV::BinaryOp(s@),
            Token::UnaryOp(s) => TermV::UnaryOp(s@),
            Token::Wildcard(s) => TermV::Wildcard(s@),
            Token::Unknown => TermV::Unknown,
        }
    }
}

pub broadcast proof fn lemma_view_seq_len(s: Seq<Token>)
    ensures
        #[trigger] view_seq(s).len() == s.len(),
    decreases s,
{
    if s.len() > 0 {
        lemma_view_seq_len(s.drop_first());
        assert(view_seq(s) == seq![s[0]@] + view_seq(s.drop_first()));
        assert(view_seq(s.drop_first()).len() == s.len() - 1);
        assert((seq![s[0]@] + view_seq(s.drop_first())).len() == s.len());
    } else {
        assert(view_seq(s) == Seq::<TermV>::empty());
    }
}

pub broadcast proof fn lemma_view_seq_index(s: Seq<Token>, i: int)
    requires
        0 <= i < s.len(),
    ensures
        #[trigger] view_seq(s)[i] == s[i]@,
    decreases s,
{
    lemma_view_seq_len(s);
    lemma_view_seq_len(s.drop_first());
    assert(view_seq(s) == seq![s[0]@] + view_seq(s.drop_first()));
    if i > 0 {
        lemma_view_seq_index(s.drop_first(), i - 1);
        assert(view_seq(s)[i] == view_seq(s.drop_first())[i - 1]);
        assert(s.drop_first()[i - 1] == s[i]);
    } else {
        assert(view_seq(s)[0] == s[0]@);
    }
}

pub broadcast proof fn lemma_view_seq_push(s: Seq<Token>, t: Token)
    ensures
        #[trigger] view_seq(s.push(t)) == view_seq(s).push(t@),
    decreases s,
{
    let sp = s.push(t);
    lemma_view_seq_len(s);
    lemma_view_seq_len(sp);
    if s.len() == 0 {
        assert(sp.drop_first().len() == 0);
        assert(view_seq(sp.drop_first()) == Seq::<TermV>::empty());
        assert(view_seq(sp) == seq![sp[0]@] + view_seq(sp.drop_first()));
        assert(sp[0] == t);
        assert(view_seq(s) == Seq::<TermV>::empty());
        assert(view_seq(sp) =~= view_seq(s).push(t@));
    } else {
        lemma_view_seq_push(s.drop_first(), t);
        assert(sp.drop_first() =~= s.drop_first().push(t));
        assert(view_seq(sp) == seq![sp[0]@] + view_seq(sp.drop_first()));
        assert(view_seq(s) == seq![s[0]@] + view_seq(s.drop_first()));
        assert(sp[0] == s[0]);
        assert(view_seq(sp) =~= view_seq(s).push(t@));
    }
}

impl TermV {
    /// Structural height of a model term: atoms are zero, a list is one more
    /// than its tallest element.
    pub open spec fn height(self) -> nat
        decreases self,
    {
        match self {
            TermV::Lst(l) => 1 + Self::height_seq(l),
            _ => 0,
        }
    }

    /// Height of the tallest term in a sequence (zero when empty).
    pub open spec fn height_seq(s: Seq<TermV>) -> nat
        decreases s,
    {
        if s.len() == 0 {
            0
        } else {
            let h0 = s[0].height();
            let hr = Self::height_seq(s.drop_first());
            if h0 >= hr {
                h0
            } else {
                hr
            }
        }
    }

    /// Every number inside the term is a well-formed rational.
    pub open spec fn wf(self) -> bool
        decreases self,
    {
        match self {
            TermV::Lst(l) => forall|i: int| 0 <= i < l.len() ==> (#[trigger] l[i]).wf(),
            TermV::Number(n) => n.wf(),
            _ => true,
        }
    }

    /// The `Unknown` sentinel appears nowhere in the term: it signals "no
    /// applicable rule" inside the evaluator and never belongs to
    /// well-formed output.
    pub open spec fn no_unknown(self) -> bool
        decreases self,
    {
        match self {
            TermV::Lst(l) => forall|i: int| 0 <= i < l.len() ==> (#[trigger] l[i]).no_unknown(),
            TermV::Unknown => false,
            _ => true,
        }
    }
}

/// An element of a sequence is no taller than the sequence's tallest element.
pub proof fn lemma_height_seq_bound(s: Seq<TermV>, i: int)
    requires
        0 <= i < s.len(),
    ensures
        s[i].height() <= TermV::height_seq(s),
    decreases s,
{
    assert(TermV::height_seq(s) == if s[0].height() >= TermV::height_seq(s.drop_first()) {
        s[0].height()
    } else {
        TermV::height_seq(s.drop_first())
    });
    if i > 0 {
        lemma_height_seq_bound(s.drop_first(), i - 1);
        assert(s.drop_first()[i - 1] == s[i]);
    }
}

impl Token {
    /// Deep copy; the copy has the same model as the original.
    #[verifier::loop_isolation(false)]
    pub fn duplicate(&self) -> (r: Token)
        ensures
            r@ == self@,
        decreases self@.height(),
    {
        match self {
            Token::Lst(l) => {
                let mut out: Vec<Token> = Vec::new();
                let ghost orig = l@;
                proof {
                    assert(orig.take(0) =~= Seq::<Token>::empty());
                    assert(view_seq(out@) == view_seq(orig.take(0)));
                }
                let mut i: usize = 0;
                while i < l.len()
                    invariant
                        i <= l.len(),
                        l@ == orig,
                        view_seq(out@) == view_seq(orig.take(i as int)),
                    decreases l@.len() - i,
                {
                    let ghost pre = out@;
                    proof {
                        lemma_view_seq_len(l@);
                        lemma_view_seq_index(l@, i as int);
                        lemma_height_seq_bound(view_seq(l@), i as int);
                        assert(self@ == TermV::Lst(view_seq(l@)));
                        assert(self@.height() == 1 + TermV::height_seq(view_seq(l@)));
                        assert(l@[i as int]@.height() < self@.height());
                    }
                    let c = l[i].duplicate();
                    out.push(c);
                    proof {
                        lemma_view_seq_push(pre, c);
                        lemma_view_seq_push(orig.take(i as int), orig[i as int]);
                        assert(orig.take(i as int).push(orig[i as int]) =~= orig.take(
                            i as int + 1,
                        ));
                    }
                    i += 1;
                }
                proof {
                    assert(orig.take(l@.len() as int) =~= orig);
                }
                Token::Lst(out)
            },
            Token::Var(s) => Token::Var(s.clone()),
            Token::Str(s) => Token::Str(s.clone()),
            Token::Keyword(s) => Token::Keyword(s.clone()),
            Token::Number(n) => Token::Number(*n),
            Token::Bool(b) => Token::Bool(*b),
            Token::BinaryOp(s) => Token::BinaryOp(s.clone()),
            Token::UnaryOp(s) => Token::UnaryOp(s.clone()),
            Token::Wildcard(s) => Token::Wildcard(s.clone()),
            Token::Unknown => Token::Unknown,
        }
    }
}

/// Deep copy of a term vector; the copy has the same elementwise model.
#[verifier::loop_isolation(false)]
pub fn duplicate_tokens(v: &Vec<Token>) -> (r: Vec<Token>)
    ensures
        view_seq(r@) == view_seq(v@),
{
    let mut out: Vec<Token> = Vec::new();
    proof {
        assert(v@.take(0) =~= Seq::<Token>::empty());
        assert(view_seq(out@) == view_seq(v@.take(0)));
    }
    let mut i: usize = 0;
    while i < v.len()
        invariant
            i <= v.len(),
            view_seq(out@) == view_seq(v@.take(i as int)),
        decreases v@.len() - i,
    {
        let ghost pre = out@;
        let c = v[i].duplicate();
        out.push(c);
        proof {
            lemma_view_seq_push(pre, c);
            lemma_view_seq_push(v@.take(i as int), v@[i as int]);
            assert(v@.take(i as int).push(v@[i as int]) =~= v@.take(i as int + 1));
        }
        i += 1;
    }
    proof {
        assert(v@.take(v@.len() as int) =~= v@);
    }
    out
}

} // verus!
