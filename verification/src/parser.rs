//! The structural parser: a stack of open contexts turns the token sequence
//! into one expression tree, enforcing balanced parentheses and exactly one
//! top-level form.

use vstd::prelude::*;

use crate::ast::exprs_view;
use crate::ast::lemma_exprs_view_push;
use crate::ast::Atom;
use crate::ast::Expr;
use crate::ast::ExprModel;
use crate::tokenizer::spec_tokenize;
use crate::tokenizer::tokenize;
use crate::tokenizer::tokens_view;
use crate::tokenizer::Token;
use crate::tokenizer::TokenModel;

verus! {

/// Why parsing fails.
#[derive(Debug, PartialEq, Eq, Structural, Clone, Copy)]
pub enum ParseError {
    /// A closing parenthesis arrived with no group open.
    UnbalancedParen,
    /// The input ended with this many groups still open.
    UnclosedParen(usize),
    /// The top level held this many expressions instead of exactly one.
    WrongTopLevelCount(usize),
}

/// What parsing yields at the model level, with unbounded counts.
#[verifier::ext_equal]
pub enum ParseOutcome {
    Parsed(ExprModel),
    UnbalancedParen,
    UnclosedParen(nat),
    WrongTopLevelCount(nat),
}

/// The parser's state: for each open context, the expressions collected so
/// far at that depth. The bottom entry is the root context of top-level
/// expressions; it is never closed.
pub open spec fn init_stack() -> Seq<Seq<ExprModel>> {
    seq![Seq::<ExprModel>::empty()]
}

/// One transition of the automaton: `(` opens a context, `)` closes the
/// newest one into a group appended to its parent — or fails when only the
/// root context is left — and an atom joins the newest context.
pub open spec fn step(stack: Seq<Seq<ExprModel>>, t: TokenModel) -> Option<Seq<Seq<ExprModel>>> {
    match t {
        TokenModel::Lparen => Some(stack.push(Seq::<ExprModel>::empty())),
        TokenModel::Rparen => {
            if stack.len() >= 2 {
                let group = ExprModel::Group(stack.last());
                let popped = stack.drop_last();
                Some(popped.update(popped.len() - 1, popped.last().push(group)))
            } else {
                None
            }
        },
        TokenModel::Atom(a) => Some(
            stack.update(stack.len() - 1, stack.last().push(ExprModel::Atom(a))),
        ),
    }
}

/// Run the automaton over a token sequence, stopping at the first unmatched
/// closing parenthesis.
pub open spec fn run(stack: Seq<Seq<ExprModel>>, ts: Seq<TokenModel>) -> Option<
    Seq<Seq<ExprModel>>,
>
    decreases ts.len(),
{
    if ts.len() == 0 {
        Some(stack)
    } else {
        match step(stack, ts[0]) {
            None => None,
            Some(next) => run(next, ts.drop_first()),
        }
    }
}

/// Running over concatenated tokens runs over each part in turn.
pub proof fn lemma_run_append(stack: Seq<Seq<ExprModel>>, a: Seq<TokenModel>, b: Seq<TokenModel>)
    ensures
        run(stack, a + b) == (match run(stack, a) {
            None => None::<Seq<Seq<ExprModel>>>,
            Some(mid) => run(mid, b),
        }),
    decreases a.len(),
{
    if a.len() == 0 {
        assert(a + b =~= b);
    } else {
        assert((a + b)[0] == a[0]);
        assert((a + b).drop_first() =~= a.drop_first() + b);
        match step(stack, a[0]) {
            None => {},
            Some(next) => {
                lemma_run_append(next, a.drop_first(), b);
            },
        }
    }
}

/// Running one more token is one more transition.
pub proof fn lemma_run_snoc(stack: Seq<Seq<ExprModel>>, ts: Seq<TokenModel>, t: TokenModel)
    ensures
        run(stack, ts.push(t)) == (match run(stack, ts) {
            None => None::<Seq<Seq<ExprModel>>>,
            Some(mid) => step(mid, t),
        }),
{
    assert(ts.push(t) =~= ts + seq![t]);
    lemma_run_append(stack, ts, seq![t]);
    match run(stack, ts) {
        None => {},
        Some(mid) => {
            assert(run(mid, seq![t]) == (match step(mid, t) {
                None => None::<Seq<Seq<ExprModel>>>,
                Some(next) => run(next, seq![t].drop_first()),
            }));
            match step(mid, t) {
                None => {},
                Some(next) => {
                    assert(seq![t].drop_first() =~= Seq::<TokenModel>::empty());
                },
            }
        },
    }
}

/// What structural parsing of a token sequence yields: the single top-level
/// expression, or the failure the tokens force.
pub open spec fn spec_parse_tokens(ts: Seq<TokenModel>) -> ParseOutcome {
    match run(init_stack(), ts) {
        None => ParseOutcome::UnbalancedParen,
        Some(stack) => {
            if stack.len() != 1 {
                ParseOutcome::UnclosedParen((stack.len() - 1) as nat)
            } else if stack[0].len() != 1 {
                ParseOutcome::WrongTopLevelCount(stack[0].len())
            } else {
                ParseOutcome::Parsed(stack[0][0])
            }
        },
    }
}

/// What parsing the input text yields.
pub open spec fn spec_parse(s: Seq<char>) -> ParseOutcome {
    spec_parse_tokens(spec_tokenize(s))
}

/// Whether an executable parse result is exactly the model outcome.
pub open spec fn outcome_matches(r: Result<Expr, ParseError>, o: ParseOutcome) -> bool {
    match r {
        Result::Ok(e) => o == ParseOutcome::Parsed(e@),
        Result::Err(ParseError::UnbalancedParen) => o == ParseOutcome::UnbalancedParen,
        Result::Err(ParseError::UnclosedParen(k)) => o == ParseOutcome::UnclosedParen(k as nat),
        Result::Err(ParseError::WrongTopLevelCount(k)) => o == ParseOutcome::WrongTopLevelCount(
            k as nat,
        ),
    }
}

/// The models of the parser's exec stack, outermost context first.
pub open spec fn stack_view(cs: Seq<Vec<Expr>>) -> Seq<Seq<ExprModel>> {
    cs.map_values(|v: Vec<Expr>| exprs_view(v@))
}

/// An owned copy of an atom with the same model.
fn dup_atom(a: &Atom) -> (r: Atom)
    ensures
        r@ == a@,
{
    match a {
        Atom::Ident(s) => Atom::Ident(s.clone()),
        Atom::Num(n) => Atom::Num(*n),
    }
}

/// Assemble the token sequence into the single top-level expression, or
/// report exactly how the tokens are malformed.
pub fn parse_tokens(tokens: Vec<Token>) -> (r: Result<Expr, ParseError>)
    ensures
        outcome_matches(r, spec_parse_tokens(tokens_view(tokens@))),
{
    let ghost ts = tokens_view(tokens@);
    let mut contexts: Vec<Vec<Expr>> = Vec::new();
    contexts.push(Vec::new());
    proof {
        assert(ts.take(0) =~= Seq::<TokenModel>::empty());
        assert(stack_view(contexts@) =~= init_stack());
    }
    let n = tokens.len();
    let mut i: usize = 0;
    while i < n
        invariant
            i <= n,
            n == tokens@.len(),
            ts == tokens_view(tokens@),
            contexts@.len() >= 1,
            run(init_stack(), ts.take(i as int)) == Some(stack_view(contexts@)),
        decreases n - i,
    {
        let ghost st0 = stack_view(contexts@);
        proof {
            lemma_run_snoc(init_stack(), ts.take(i as int), ts[i as int]);
            assert(ts.take(i as int + 1) =~= ts.take(i as int).push(ts[i as int]));
            assert(ts[i as int] == tokens@[i as int]@);
        }
        match &tokens[i] {
            Token::Lparen => {
                contexts.push(Vec::new());
                proof {
                    assert(stack_view(contexts@) =~= st0.push(Seq::<ExprModel>::empty()));
                }
            },
            Token::Rparen => {
                if contexts.len() < 2 {
                    proof {
                        assert(run(init_stack(), ts.take(i as int + 1)) is None);
                        assert(ts =~= ts.take(i as int + 1) + ts.skip(i as int + 1));
                        lemma_run_append(
                            init_stack(),
                            ts.take(i as int + 1),
                            ts.skip(i as int + 1),
                        );
                    }
                    return Err(ParseError::UnbalancedParen);
                }
                let group = contexts.pop().unwrap();
                let mut parent = contexts.pop().unwrap();
                let ghost parent0 = parent@;
                parent.push(Expr::Group(group));
                contexts.push(parent);
                proof {
                    lemma_exprs_view_push(parent0, Expr::Group(group));
                    assert(exprs_view(group@) == st0.last());
                    assert(stack_view(contexts@) =~= step(st0, ts[i as int])->Some_0);
                }
            },
            Token::Atom(a) => {
                let owned = dup_atom(a);
                let mut top = contexts.pop().unwrap();
                let ghost top0 = top@;
                top.push(Expr::Atom(owned));
                contexts.push(top);
                proof {
                    lemma_exprs_view_push(top0, Expr::Atom(owned));
                    assert(stack_view(contexts@) =~= step(st0, ts[i as int])->Some_0);
                }
            },
        }
        i = i + 1;
    }
    proof {
        assert(ts.take(n as int) =~= ts);
    }
    if contexts.len() != 1 {
        return Err(ParseError::UnclosedParen(contexts.len() - 1));
    }
    let ghost final_stack = stack_view(contexts@);
    let mut root = contexts.pop().unwrap();
    proof {
        assert(final_stack[0] == exprs_view(root@));
        crate::ast::lemma_exprs_view(root@);
    }
    if root.len() != 1 {
        return Err(ParseError::WrongTopLevelCount(root.len()));
    }
    let ghost root0 = root@;
    let e = root.pop().unwrap();
    proof {
        assert(exprs_view(root0)[0] == e@);
    }
    Ok(e)
}

/// Parse one S-expression out of the input text.
pub fn parse(input: &str) -> (r: Result<Expr, ParseError>)
    ensures
        outcome_matches(r, spec_parse(input@)),
        r is Ok ==> crate::ast::wf_expr(r->Ok_0@),
{
    proof {
        crate::laws::lemma_parse_wf(input@);
    }
    let tokens = tokenize(input);
    parse_tokens(tokens)
}

} // verus!
