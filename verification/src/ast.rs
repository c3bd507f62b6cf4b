//! The expression tree: groups of sub-expressions with atoms at the leaves,
//! together with its mathematical model and well-formedness.

use vstd::prelude::*;
use vstd::string::StrSliceExecFns;

use crate::numeral::digit_of;
use crate::numeral::digits_val;
use crate::numeral::lemma_digits_val_prefix;
use crate::numeral::reads_as_u32;
use crate::numeral::u32_of_digits;

verus! {

/// A leaf of the tree: identifier text, or an unsigned 32-bit number.
#[derive(Debug, PartialEq, Eq)]
pub enum Atom {
    Ident(String),
    Num(u32),
}

/// An S-expression: a parenthesized group of sub-expressions, or an atom.
#[derive(Debug, PartialEq, Eq)]
pub enum Expr {
    Group(Vec<Expr>),
    Atom(Atom),
}

/// The model of an `Atom`: its text as a character sequence, or its number.
#[verifier::ext_equal]
pub enum AtomModel {
    Ident(Seq<char>),
    Num(u32),
}

/// The model of an `Expr`: the same tree over sequences.
#[verifier::ext_equal]
pub enum ExprModel {
    Group(Seq<ExprModel>),
    Atom(AtomModel),
}

impl View for Atom {
    type V = AtomModel;

    open spec fn view(&self) -> AtomModel {
        match self {
            Atom::Ident(s) => AtomModel::Ident(s@),
            Atom::Num(n) => AtomModel::Num(*n),
        }
    }
}

/// The models of a sequence of expressions, in order.
pub open spec fn exprs_view(es: Seq<Expr>) -> Seq<ExprModel>
    decreases es,
{
    if es.len() == 0 {
        Seq::empty()
    } else {
        seq![es[0]@] + exprs_view(es.drop_first())
    }
}

impl View for Expr {
    type V = ExprModel;

    open spec fn view(&self) -> ExprModel
        decreases self,
    {
        match self {
            Expr::Group(es) => ExprModel::Group(exprs_view(es@)),
            Expr::Atom(a) => ExprModel::Atom(a@),
        }
    }
}

/// `exprs_view` is pointwise `view`.
pub proof fn lemma_exprs_view(es: Seq<Expr>)
    ensures
        exprs_view(es).len() == es.len(),
        forall|i: int| 0 <= i < es.len() ==> exprs_view(es)[i] == #[trigger] es[i]@,
    decreases es,
{
    if es.len() > 0 {
        lemma_exprs_view(es.drop_first());
        assert(exprs_view(es) == seq![es[0]@] + exprs_view(es.drop_first()));
        assert forall|i: int| 0 <= i < es.len() implies exprs_view(es)[i] == #[trigger] es[i]@ by {
            if i > 0 {
                assert(es.drop_first()[i - 1] == es[i]);
                assert(exprs_view(es)[i] == (seq![es[0]@] + exprs_view(es.drop_first()))[i]);
            }
        }
    }
}

/// `exprs_view` distributes over appending one expression.
pub proof fn lemma_exprs_view_push(es: Seq<Expr>, e: Expr)
    ensures
        exprs_view(es.push(e)) == exprs_view(es).push(e@),
{
    lemma_exprs_view(es);
    lemma_exprs_view(es.push(e));
    assert forall|i: int| 0 <= i < es.len() + 1 implies exprs_view(es.push(e))[i] == exprs_view(
        es,
    ).push(e@)[i] by {
        assert(exprs_view(es.push(e))[i] == es.push(e)[i]@);
        if i < es.len() {
            assert(es.push(e)[i] == es[i]);
        } else {
            assert(es.push(e)[i] == e);
        }
    }
    assert(exprs_view(es.push(e)) =~= exprs_view(es).push(e@));
}

/// The characters with structural meaning: they end an atom and never
/// occur inside one.
pub open spec fn is_delimiter(c: char) -> bool {
    c == '(' || c == ')' || c == ' '
}

/// How the tokenizer classifies flushed atom text: text that reads as a
/// 32-bit unsigned integer becomes a number, anything else stays identifier
/// text.
pub open spec fn classify(text: Seq<char>) -> AtomModel {
    if reads_as_u32(text) {
        AtomModel::Num(u32_of_digits(text))
    } else {
        AtomModel::Ident(text)
    }
}

/// An atom as the parser produces it: identifier text is non-empty, contains
/// no delimiter, and does not itself read as a number (else it would have
/// been classified as one).
pub open spec fn wf_atom(a: AtomModel) -> bool {
    match a {
        AtomModel::Ident(text) => {
            &&& text.len() > 0
            &&& forall|i: int| 0 <= i < text.len() ==> !is_delimiter(#[trigger] text[i])
            &&& !reads_as_u32(text)
        },
        AtomModel::Num(_) => true,
    }
}

/// A tree as the parser produces it: every atom in it is well formed.
pub open spec fn wf_expr(e: ExprModel) -> bool
    decreases e,
{
    match e {
        ExprModel::Group(es) => forall|i: int| 0 <= i < es.len() ==> wf_expr(#[trigger] es[i]),
        ExprModel::Atom(a) => wf_atom(a),
    }
}

impl Atom {
    /// Classify one token's text: a numeral in 32-bit range becomes `Num`,
    /// anything else — empty, signed, non-digit, or out of range — `Ident`.
    pub fn new(s: String) -> (a: Atom)
        ensures
            a@ == classify(s@),
    {
        let n = s.as_str().unicode_len();
        let start: usize = if n > 0 && s.as_str().get_char(0) == '+' {
            1
        } else {
            0
        };
        proof {
            assert(s@.subrange(start as int, n as int) =~= crate::numeral::numeral_body(s@));
        }
        if start == n {
            return Atom::Ident(s);
        }
        let ghost body = crate::numeral::numeral_body(s@);
        let mut val: u32 = 0;
        let mut i: usize = start;
        while i < n
            invariant
                start <= i <= n,
                n == s@.len(),
                start < n,
                body == s@.subrange(start as int, n as int),
                body == crate::numeral::numeral_body(s@),
                crate::numeral::all_digits(body.take(i - start)),
                val == digits_val(body.take(i - start)),
            decreases n - i,
        {
            let c = s.as_str().get_char(i);
            match digit_of(c) {
                None => {
                    proof {
                        assert(body[i - start] == c);
                        assert(!crate::numeral::is_digit(body[i - start]));
                        assert(!crate::numeral::all_digits(body));
                        assert(!reads_as_u32(s@));
                    }
                    return Atom::Ident(s);
                },
                Some(d) => {
                    proof {
                        assert(body.take(i - start + 1).drop_last() =~= body.take(i - start));
                        assert(body.take(i - start + 1).last() == body[i - start]);
                        assert(body[i - start] == c);
                        assert(crate::numeral::digit_val(c) == d);
                        assert(digits_val(body.take(i - start + 1)) == val * 10 + d);
                    }
                    if val > (u32::MAX - d) / 10 {
                        proof {
                            assert(val * 10 + d > u32::MAX) by {
                                assert(val >= (u32::MAX - d) / 10 + 1);
                                assert(((u32::MAX - d) / 10 + 1) * 10 == ((u32::MAX - d) / 10)
                                    * 10 + 10);
                                assert(((u32::MAX - d) / 10) * 10 + 10 > u32::MAX - d);
                                assert(val * 10 >= ((u32::MAX - d) / 10 + 1) * 10) by (
                                nonlinear_arith)
                                    requires
                                        val >= (u32::MAX - d) / 10 + 1,
                                ;
                            }
                            lemma_digits_val_prefix(body, i - start + 1);
                            assert(digits_val(body) > u32::MAX);
                            assert(!reads_as_u32(s@));
                        }
                        return Atom::Ident(s);
                    }
                    val = val * 10 + d;
                    i = i + 1;
                },
            }
        }
        proof {
            assert(body.take(n - start) =~= body);
        }
        Atom::Num(val)
    }
}

} // verus!
