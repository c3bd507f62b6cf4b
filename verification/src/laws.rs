//! The laws that tie the pieces together: rendering a well-formed tree and
//! parsing the text again reproduces the tree exactly, and parsing canonical
//! text then rendering gives the text back.

use vstd::prelude::*;

use crate::ast::classify;
use crate::ast::is_delimiter;
use crate::ast::wf_atom;
use crate::ast::wf_expr;
use crate::ast::AtomModel;
use crate::ast::ExprModel;
use crate::numeral::all_digits;
use crate::numeral::is_digit;
use crate::numeral::lemma_dec_digits;
use crate::numeral::lemma_dec_digits_reads_back;
use crate::parser::init_stack;
use crate::parser::lemma_run_append;
use crate::parser::run;
use crate::parser::spec_parse;
use crate::parser::spec_parse_tokens;
use crate::parser::step;
use crate::parser::ParseOutcome;
use crate::render::render_atom;
use crate::render::render_children;
use crate::render::render_expr;
use crate::tokenizer::flush;
use crate::tokenizer::scan;
use crate::tokenizer::spec_tokenize;
use crate::tokenizer::TokenModel;

verus! {

/// The tokens that one expression's canonical text produces.
pub open spec fn expr_tokens(e: ExprModel) -> Seq<TokenModel>
    decreases e,
{
    match e {
        ExprModel::Atom(a) => seq![TokenModel::Atom(a)],
        ExprModel::Group(es) => seq![TokenModel::Lparen] + children_tokens(es) + seq![
            TokenModel::Rparen,
        ],
    }
}

/// The tokens of a group's children, in order.
pub open spec fn children_tokens(es: Seq<ExprModel>) -> Seq<TokenModel>
    decreases es,
{
    if es.len() == 0 {
        Seq::<TokenModel>::empty()
    } else {
        expr_tokens(es[0]) + children_tokens(es.drop_first())
    }
}

/// Scanning text without delimiters only extends the pending atom buffer.
proof fn lemma_scan_plain(text: Seq<char>, rest: Seq<char>, buf: Seq<char>)
    requires
        forall|i: int| 0 <= i < text.len() ==> !is_delimiter(#[trigger] text[i]),
    ensures
        scan(text + rest, buf) == scan(rest, buf + text),
    decreases text.len(),
{
    if text.len() == 0 {
        assert(text + rest =~= rest);
        assert(buf + text =~= buf);
    } else {
        assert((text + rest)[0] == text[0]);
        assert(!is_delimiter(text[0]));
        assert((text + rest).drop_first() =~= text.drop_first() + rest);
        lemma_scan_plain(text.drop_first(), rest, buf.push(text[0]));
        assert(buf.push(text[0]) + text.drop_first() =~= buf + text);
    }
}

/// The text of a well-formed atom: non-empty, free of delimiters, and it
/// classifies back to the very same atom.
proof fn lemma_atom_text(a: AtomModel)
    requires
        wf_atom(a),
    ensures
        render_atom(a).len() > 0,
        forall|i: int| 0 <= i < render_atom(a).len() ==> !is_delimiter(#[trigger] render_atom(a)[i]),
        classify(render_atom(a)) == a,
{
    match a {
        AtomModel::Ident(_) => {},
        AtomModel::Num(n) => {
            lemma_dec_digits(n as nat);
            lemma_dec_digits_reads_back(n);
            let text = render_atom(a);
            assert(all_digits(text));
            assert forall|i: int| 0 <= i < text.len() implies !is_delimiter(
                #[trigger] text[i],
            ) by {
                assert(is_digit(text[i]));
            }
        },
    }
}

/// Tokenizing the canonical text of a well-formed expression, followed by
/// text that opens with a delimiter or is empty, yields the expression's
/// tokens followed by the tokens of the remaining text.
proof fn lemma_scan_render(e: ExprModel, rest: Seq<char>)
    requires
        wf_expr(e),
        rest.len() == 0 || is_delimiter(rest[0]),
    ensures
        scan(render_expr(e) + rest, Seq::<char>::empty()) == expr_tokens(e) + scan(
            rest,
            Seq::<char>::empty(),
        ),
    decreases e,
{
    let empty = Seq::<char>::empty();
    match e {
        ExprModel::Atom(a) => {
            lemma_atom_text(a);
            let text = render_atom(a);
            lemma_scan_plain(text, rest, empty);
            assert(empty + text =~= text);
            assert(flush(text) =~= seq![TokenModel::Atom(a)]);
            if rest.len() == 0 {
                assert(scan(rest, text) == flush(text));
                assert(scan(rest, empty) == flush(empty));
                assert(expr_tokens(e) + scan(rest, empty) =~= flush(text));
            } else {
                let tail = rest.drop_first();
                if rest[0] == '(' {
                    assert(scan(rest, text) == flush(text) + seq![TokenModel::Lparen] + scan(
                        tail,
                        empty,
                    ));
                    assert(scan(rest, empty) == flush(empty) + seq![TokenModel::Lparen] + scan(
                        tail,
                        empty,
                    ));
                } else if rest[0] == ')' {
                    assert(scan(rest, text) == flush(text) + seq![TokenModel::Rparen] + scan(
                        tail,
                        empty,
                    ));
                    assert(scan(rest, empty) == flush(empty) + seq![TokenModel::Rparen] + scan(
                        tail,
                        empty,
                    ));
                } else {
                    assert(rest[0] == ' ');
                    assert(scan(rest, text) == flush(text) + scan(tail, empty));
                    assert(scan(rest, empty) == flush(empty) + scan(tail, empty));
                }
                assert(scan(render_expr(e) + rest, empty) =~= expr_tokens(e) + scan(rest, empty));
            }
        },
        ExprModel::Group(es) => {
            let inner = render_children(es);
            let closing = seq![')'] + rest;
            let whole = render_expr(e) + rest;
            assert(whole[0] == '(');
            assert(whole.drop_first() =~= inner + closing);
            assert(scan(whole, empty) == flush(empty) + seq![TokenModel::Lparen] + scan(
                inner + closing,
                empty,
            ));
            assert(closing[0] == ')');
            lemma_scan_render_children(es, closing);
            assert(closing.drop_first() =~= rest);
            assert(scan(closing, empty) == flush(empty) + seq![TokenModel::Rparen] + scan(
                rest,
                empty,
            ));
            assert(scan(whole, empty) =~= expr_tokens(e) + scan(rest, empty));
        },
    }
}

/// The same for a group's children: their joined texts, followed by text
/// opening with a delimiter, tokenize to the children's tokens in turn.
proof fn lemma_scan_render_children(es: Seq<ExprModel>, rest: Seq<char>)
    requires
        forall|i: int| 0 <= i < es.len() ==> wf_expr(#[trigger] es[i]),
        rest.len() > 0,
        is_delimiter(rest[0]),
    ensures
        scan(render_children(es) + rest, Seq::<char>::empty()) == children_tokens(es) + scan(
            rest,
            Seq::<char>::empty(),
        ),
    decreases es,
{
    let empty = Seq::<char>::empty();
    if es.len() == 0 {
        assert(render_children(es) + rest =~= rest);
        assert(children_tokens(es) + scan(rest, empty) =~= scan(rest, empty));
    } else if es.len() == 1 {
        lemma_scan_render(es[0], rest);
        assert(children_tokens(es.drop_first()) =~= Seq::<TokenModel>::empty());
        assert(children_tokens(es) =~= expr_tokens(es[0]));
        assert(scan(render_children(es) + rest, empty) =~= children_tokens(es) + scan(rest, empty));
    } else {
        let tail = es.drop_first();
        let tail_text = render_children(tail) + rest;
        let spaced = seq![' '] + tail_text;
        assert(render_children(es) + rest =~= render_expr(es[0]) + spaced);
        lemma_scan_render(es[0], spaced);
        assert(spaced.drop_first() =~= tail_text);
        assert(scan(spaced, empty) == flush(empty) + scan(tail_text, empty));
        lemma_scan_render_children(tail, rest);
        assert(children_tokens(es) =~= expr_tokens(es[0]) + children_tokens(tail));
        assert(scan(render_children(es) + rest, empty) =~= children_tokens(es) + scan(rest, empty));
    }
}

/// Tokenizing the canonical text of a well-formed expression yields exactly
/// its tokens.
pub proof fn lemma_tokenize_render(e: ExprModel)
    requires
        wf_expr(e),
    ensures
        spec_tokenize(render_expr(e)) == expr_tokens(e),
{
    let empty = Seq::<char>::empty();
    lemma_scan_render(e, empty);
    assert(render_expr(e) + empty =~= render_expr(e));
    assert(scan(empty, empty) == flush(empty));
    assert(expr_tokens(e) + flush(empty) =~= expr_tokens(e));
}

/// Pushing one expression onto the newest context of a stack.
pub open spec fn push_onto_top(stack: Seq<Seq<ExprModel>>, e: ExprModel) -> Seq<Seq<ExprModel>> {
    stack.update(stack.len() - 1, stack.last().push(e))
}

/// Running an expression's tokens appends that expression to the newest
/// context, whatever stack the automaton starts from.
proof fn lemma_run_expr_tokens(stack: Seq<Seq<ExprModel>>, e: ExprModel)
    requires
        stack.len() >= 1,
    ensures
        run(stack, expr_tokens(e)) == Some(push_onto_top(stack, e)),
    decreases e,
{
    match e {
        ExprModel::Atom(a) => {
            let ts = expr_tokens(e);
            assert(ts[0] == TokenModel::Atom(a));
            assert(step(stack, ts[0]) == Some(push_onto_top(stack, e)));
            assert(ts.drop_first() =~= Seq::<TokenModel>::empty());
        },
        ExprModel::Group(es) => {
            let opened = stack.push(Seq::<ExprModel>::empty());
            assert(run(stack, seq![TokenModel::Lparen]) == Some(opened)) by {
                assert(seq![TokenModel::Lparen][0] == TokenModel::Lparen);
                assert(step(stack, TokenModel::Lparen) == Some(opened));
                assert(seq![TokenModel::Lparen].drop_first() =~= Seq::<TokenModel>::empty());
                assert(run(opened, Seq::<TokenModel>::empty()) == Some(opened));
            }
            lemma_run_children_tokens(opened, es);
            let filled = opened.update(opened.len() - 1, opened.last() + es);
            assert(opened.last() + es =~= es);
            assert(filled =~= stack.push(es));
            lemma_run_append(stack, seq![TokenModel::Lparen], children_tokens(es));
            assert(run(stack, seq![TokenModel::Lparen] + children_tokens(es)) == Some(filled));
            lemma_run_append(
                stack,
                seq![TokenModel::Lparen] + children_tokens(es),
                seq![TokenModel::Rparen],
            );
            assert(expr_tokens(e) =~= (seq![TokenModel::Lparen] + children_tokens(es)) + seq![
                TokenModel::Rparen,
            ]);
            assert(run(filled, seq![TokenModel::Rparen]) == Some(push_onto_top(stack, e))) by {
                assert(filled.len() == stack.len() + 1 >= 2);
                assert(filled.last() == es);
                assert(filled.drop_last() =~= stack);
                assert(step(filled, TokenModel::Rparen) == Some(push_onto_top(stack, e)));
                assert(seq![TokenModel::Rparen][0] == TokenModel::Rparen);
                assert(seq![TokenModel::Rparen].drop_first() =~= Seq::<TokenModel>::empty());
                assert(run(push_onto_top(stack, e), Seq::<TokenModel>::empty()) == Some(
                    push_onto_top(stack, e),
                ));
            }
        },
    }
}

/// Running the children's tokens appends them all to the newest context.
proof fn lemma_run_children_tokens(stack: Seq<Seq<ExprModel>>, es: Seq<ExprModel>)
    requires
        stack.len() >= 1,
    ensures
        run(stack, children_tokens(es)) == Some(
            stack.update(stack.len() - 1, stack.last() + es),
        ),
    decreases es,
{
    if es.len() == 0 {
        assert(stack.last() + es =~= stack.last());
        assert(stack.update(stack.len() - 1, stack.last()) =~= stack);
    } else {
        lemma_run_expr_tokens(stack, es[0]);
        let mid = push_onto_top(stack, es[0]);
        lemma_run_children_tokens(mid, es.drop_first());
        lemma_run_append(stack, expr_tokens(es[0]), children_tokens(es.drop_first()));
        assert(mid.len() == stack.len());
        assert(mid.last() == stack.last().push(es[0]));
        assert(mid.update(mid.len() - 1, mid.last() + es.drop_first()) =~= stack.update(
            stack.len() - 1,
            stack.last() + es,
        )) by {
            assert(stack.last().push(es[0]) + es.drop_first() =~= stack.last() + es);
        }
    }
}

/// Parsing inverts rendering: a well-formed expression tree, rendered and
/// parsed again, comes back exactly.
pub proof fn lemma_parse_render_inverse(e: ExprModel)
    requires
        wf_expr(e),
    ensures
        spec_parse(render_expr(e)) == ParseOutcome::Parsed(e),
{
    lemma_tokenize_render(e);
    lemma_run_expr_tokens(init_stack(), e);
    let done = push_onto_top(init_stack(), e);
    assert(done =~= seq![seq![e]]);
    assert(spec_parse_tokens(expr_tokens(e)) == ParseOutcome::Parsed(e));
}

/// A token as the tokenizer produces it: any atom in it is well formed.
pub open spec fn token_wf(t: TokenModel) -> bool {
    match t {
        TokenModel::Atom(a) => wf_atom(a),
        _ => true,
    }
}

pub open spec fn tokens_wf(ts: Seq<TokenModel>) -> bool {
    forall|i: int| 0 <= i < ts.len() ==> token_wf(#[trigger] ts[i])
}

proof fn lemma_tokens_wf_concat(a: Seq<TokenModel>, b: Seq<TokenModel>)
    requires
        tokens_wf(a),
        tokens_wf(b),
    ensures
        tokens_wf(a + b),
{
    assert forall|i: int| 0 <= i < (a + b).len() implies token_wf(#[trigger] (a + b)[i]) by {
        if i < a.len() {
            assert((a + b)[i] == a[i]);
        } else {
            assert((a + b)[i] == b[i - a.len()]);
        }
    }
}

/// The scanner only emits well-formed tokens, as long as its pending buffer
/// holds no delimiter characters — and it never does.
proof fn lemma_scan_wf(s: Seq<char>, buf: Seq<char>)
    requires
        forall|i: int| 0 <= i < buf.len() ==> !is_delimiter(#[trigger] buf[i]),
    ensures
        tokens_wf(scan(s, buf)),
    decreases s.len(),
{
    let empty = Seq::<char>::empty();
    assert(tokens_wf(flush(buf))) by {
        if buf.len() > 0 {
            assert(wf_atom(classify(buf)));
            assert(flush(buf)[0] == TokenModel::Atom(classify(buf)));
        }
    }
    if s.len() > 0 {
        if s[0] == '(' {
            lemma_scan_wf(s.drop_first(), empty);
            assert(tokens_wf(seq![TokenModel::Lparen])) by {
                assert(seq![TokenModel::Lparen][0] == TokenModel::Lparen);
            }
            lemma_tokens_wf_concat(flush(buf), seq![TokenModel::Lparen]);
            lemma_tokens_wf_concat(
                flush(buf) + seq![TokenModel::Lparen],
                scan(s.drop_first(), empty),
            );
        } else if s[0] == ')' {
            lemma_scan_wf(s.drop_first(), empty);
            assert(tokens_wf(seq![TokenModel::Rparen])) by {
                assert(seq![TokenModel::Rparen][0] == TokenModel::Rparen);
            }
            lemma_tokens_wf_concat(flush(buf), seq![TokenModel::Rparen]);
            lemma_tokens_wf_concat(
                flush(buf) + seq![TokenModel::Rparen],
                scan(s.drop_first(), empty),
            );
        } else if s[0] == ' ' {
            lemma_scan_wf(s.drop_first(), empty);
            lemma_tokens_wf_concat(flush(buf), scan(s.drop_first(), empty));
        } else {
            assert(forall|i: int|
                0 <= i < buf.push(s[0]).len() ==> !is_delimiter(#[trigger] buf.push(s[0])[i]));
            lemma_scan_wf(s.drop_first(), buf.push(s[0]));
        }
    }
}

/// A stack all of whose collected expressions are well formed.
pub open spec fn stack_wf(stack: Seq<Seq<ExprModel>>) -> bool {
    forall|i: int, j: int|
        0 <= i < stack.len() && 0 <= j < stack[i].len() ==> wf_expr(#[trigger] stack[i][j])
}

/// The automaton preserves well-formedness of everything it collects.
proof fn lemma_run_wf(stack: Seq<Seq<ExprModel>>, ts: Seq<TokenModel>)
    requires
        stack.len() >= 1,
        stack_wf(stack),
        tokens_wf(ts),
        run(stack, ts) is Some,
    ensures
        run(stack, ts)->Some_0.len() >= 1,
        stack_wf(run(stack, ts)->Some_0),
    decreases ts.len(),
{
    if ts.len() > 0 {
        assert(token_wf(ts[0]));
        assert(tokens_wf(ts.drop_first())) by {
            assert(forall|i: int|
                0 <= i < ts.drop_first().len() ==> ts.drop_first()[i] == #[trigger] ts[i + 1]);
        }
        match step(stack, ts[0]) {
            None => {},
            Some(next) => {
                assert(next.len() >= 1 && stack_wf(next)) by {
                    match ts[0] {
                        TokenModel::Lparen => {
                            assert forall|i: int, j: int|
                                0 <= i < next.len() && 0 <= j < next[i].len() implies wf_expr(
                                #[trigger] next[i][j],
                            ) by {
                                assert(i < stack.len() && next[i] == stack[i]);
                            }
                        },
                        TokenModel::Rparen => {
                            let group = ExprModel::Group(stack.last());
                            let popped = stack.drop_last();
                            assert(wf_expr(group)) by {
                                assert(forall|j: int|
                                    0 <= j < stack.last().len() ==> wf_expr(
                                        #[trigger] stack[stack.len() - 1][j],
                                    ));
                            }
                            assert forall|i: int, j: int|
                                0 <= i < next.len() && 0 <= j < next[i].len() implies wf_expr(
                                #[trigger] next[i][j],
                            ) by {
                                if i < next.len() - 1 {
                                    assert(next[i] == stack[i]);
                                } else {
                                    assert(next[i] == popped.last().push(group));
                                    if j < next[i].len() - 1 {
                                        assert(next[i][j] == stack[i][j]);
                                    } else {
                                        assert(next[i][j] == group);
                                    }
                                }
                            }
                        },
                        TokenModel::Atom(a) => {
                            assert(wf_atom(a));
                            assert forall|i: int, j: int|
                                0 <= i < next.len() && 0 <= j < next[i].len() implies wf_expr(
                                #[trigger] next[i][j],
                            ) by {
                                if i < next.len() - 1 {
                                    assert(next[i] == stack[i]);
                                } else {
                                    if j < next[i].len() - 1 {
                                        assert(next[i][j] == stack[i][j]);
                                    } else {
                                        assert(next[i][j] == ExprModel::Atom(a));
                                    }
                                }
                            }
                        },
                    }
                }
                lemma_run_wf(next, ts.drop_first());
            },
        }
    }
}

/// Whatever parsing accepts is well formed: its identifier atoms are
/// non-empty, hold no delimiter, and do not read as numbers.
pub proof fn lemma_parse_wf(s: Seq<char>)
    ensures
        spec_parse(s) is Parsed ==> wf_expr(spec_parse(s)->Parsed_0),
{
    if spec_parse(s) is Parsed {
        lemma_scan_wf(s, Seq::<char>::empty());
        let ts = spec_tokenize(s);
        assert(stack_wf(init_stack())) by {
            assert(init_stack()[0].len() == 0);
        }
        lemma_run_wf(init_stack(), ts);
        let done = run(init_stack(), ts)->Some_0;
        assert(spec_parse(s)->Parsed_0 == done[0][0]);
        assert(wf_expr(done[0][0]));
    }
}

/// Canonical text: the rendering of some well-formed expression — one
/// space between siblings, no other whitespace.
pub open spec fn canonical(s: Seq<char>) -> bool {
    exists|e: ExprModel| wf_expr(e) && s == render_expr(e)
}

/// Rendering inverts parsing on canonical text: such text parses, and
/// rendering the parsed tree gives the identical text back.
pub proof fn lemma_render_parse_round_trip(s: Seq<char>)
    requires
        canonical(s),
    ensures
        spec_parse(s) is Parsed,
        render_expr(spec_parse(s)->Parsed_0) == s,
{
    let e = choose|e: ExprModel| wf_expr(e) && s == render_expr(e);
    lemma_parse_render_inverse(e);
}

} // verus!
