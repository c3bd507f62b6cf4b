//! The tokenizer: a left-to-right scan that cuts the input text into
//! parentheses and classified atoms, buffering atom text until a delimiter
//! or the end of the input flushes it.

use vstd::prelude::*;
use vstd::string::StrSliceExecFns;
use vstd::string::StringExecFns;

use crate::ast::classify;
use crate::ast::Atom;
use crate::ast::AtomModel;

verus! {

/// One lexical unit of the input text.
#[derive(Debug, PartialEq, Eq)]
pub enum Token {
    Lparen,
    Rparen,
    Atom(Atom),
}

/// The model of a token.
#[verifier::ext_equal]
pub enum TokenModel {
    Lparen,
    Rparen,
    Atom(AtomModel),
}

impl View for Token {
    type V = TokenModel;

    open spec fn view(&self) -> TokenModel {
        match self {
            Token::Lparen => TokenModel::Lparen,
            Token::Rparen => TokenModel::Rparen,
            Token::Atom(a) => TokenModel::Atom(a@),
        }
    }
}

/// The models of a sequence of tokens, in order.
pub open spec fn tokens_view(ts: Seq<Token>) -> Seq<TokenModel> {
    ts.map_values(|t: Token| t@)
}

pub proof fn lemma_tokens_view_push(ts: Seq<Token>, t: Token)
    ensures
        tokens_view(ts.push(t)) == tokens_view(ts).push(t@),
{
    assert(tokens_view(ts.push(t)) =~= tokens_view(ts).push(t@));
}

/// What flushing the scanner's buffer emits: one classified atom token, or
/// nothing when no atom text is pending.
pub open spec fn flush(buf: Seq<char>) -> Seq<TokenModel> {
    if buf.len() > 0 {
        seq![TokenModel::Atom(classify(buf))]
    } else {
        Seq::<TokenModel>::empty()
    }
}

/// The tokens of `s` when scanning starts with `buf` as pending atom text.
/// A parenthesis or a space flushes the pending text and the parenthesis
/// adds its own token; any other character extends the pending text; the
/// end of the input flushes once more, standing for the space that
/// conceptually ends it.
pub open spec fn scan(s: Seq<char>, buf: Seq<char>) -> Seq<TokenModel>
    decreases s.len(),
{
    if s.len() == 0 {
        flush(buf)
    } else if s[0] == '(' {
        flush(buf) + seq![TokenModel::Lparen] + scan(s.drop_first(), Seq::empty())
    } else if s[0] == ')' {
        flush(buf) + seq![TokenModel::Rparen] + scan(s.drop_first(), Seq::empty())
    } else if s[0] == ' ' {
        flush(buf) + scan(s.drop_first(), Seq::empty())
    } else {
        scan(s.drop_first(), buf.push(s[0]))
    }
}

/// The token sequence of the input text.
pub open spec fn spec_tokenize(s: Seq<char>) -> Seq<TokenModel> {
    scan(s, Seq::<char>::empty())
}

/// Cut the input into its tokens, materialized in order.
pub fn tokenize(s: &str) -> (tokens: Vec<Token>)
    ensures
        tokens_view(tokens@) == spec_tokenize(s@),
{
    let n = s.unicode_len();
    let mut tokens: Vec<Token> = Vec::new();
    let mut buf = String::new();
    let mut i: usize = 0;
    proof {
        assert(s@.skip(0) =~= s@);
        assert(tokens_view(tokens@) =~= Seq::<TokenModel>::empty());
        assert(buf@ =~= Seq::<char>::empty());
        assert(tokens_view(tokens@) + scan(s@.skip(0), buf@) =~= spec_tokenize(s@));
    }
    while i < n
        invariant
            i <= n,
            n == s@.len(),
            tokens_view(tokens@) + scan(s@.skip(i as int), buf@) == spec_tokenize(s@),
        decreases n - i,
    {
        let ghost rest = s@.skip(i as int);
        let ghost toks0 = tokens_view(tokens@);
        let ghost buf0 = buf@;
        proof {
            assert(rest.drop_first() =~= s@.skip(i as int + 1));
            assert(rest[0] == s@[i as int]);
        }
        let c = s.get_char(i);
        if c == '(' || c == ')' || c == ' ' {
            if !buf.as_str().is_empty() {
                let ghost pre = tokens@;
                let text = buf;
                buf = String::new();
                let a = Atom::new(text);
                tokens.push(Token::Atom(a));
                proof {
                    lemma_tokens_view_push(pre, Token::Atom(a));
                }
            }
            proof {
                assert(tokens_view(tokens@) =~= toks0 + flush(buf0));
            }
            if c == '(' {
                let ghost pre = tokens@;
                tokens.push(Token::Lparen);
                proof {
                    lemma_tokens_view_push(pre, Token::Lparen);
                }
            } else if c == ')' {
                let ghost pre = tokens@;
                tokens.push(Token::Rparen);
                proof {
                    lemma_tokens_view_push(pre, Token::Rparen);
                }
            }
            proof {
                assert(buf@ =~= Seq::<char>::empty());
                if c == '(' {
                    assert(tokens_view(tokens@) =~= toks0 + flush(buf0) + seq![TokenModel::Lparen]);
                    assert(scan(rest, buf0) == flush(buf0) + seq![TokenModel::Lparen] + scan(
                        rest.drop_first(),
                        Seq::<char>::empty(),
                    ));
                    assert(tokens_view(tokens@) + scan(s@.skip(i as int + 1), buf@)
                        =~= spec_tokenize(s@));
                } else if c == ')' {
                    assert(tokens_view(tokens@) =~= toks0 + flush(buf0) + seq![TokenModel::Rparen]);
                    assert(scan(rest, buf0) == flush(buf0) + seq![TokenModel::Rparen] + scan(
                        rest.drop_first(),
                        Seq::<char>::empty(),
                    ));
                    assert(tokens_view(tokens@) + scan(s@.skip(i as int + 1), buf@)
                        =~= spec_tokenize(s@));
                } else {
                    assert(scan(rest, buf0) == flush(buf0) + scan(
                        rest.drop_first(),
                        Seq::<char>::empty(),
                    ));
                    assert(tokens_view(tokens@) + scan(s@.skip(i as int + 1), buf@)
                        =~= spec_tokenize(s@));
                }
            }
        } else {
            let piece = s.substring_char(i, i + 1);
            buf.append(piece);
            proof {
                assert(buf@ =~= buf0.push(rest[0]));
                assert(scan(rest, buf0) == scan(rest.drop_first(), buf0.push(rest[0])));
            }
        }
        i = i + 1;
    }
    proof {
        assert(s@.skip(n as int) =~= Seq::<char>::empty());
    }
    if !buf.as_str().is_empty() {
        let ghost pre = tokens@;
        let a = Atom::new(buf);
        tokens.push(Token::Atom(a));
        proof {
            lemma_tokens_view_push(pre, Token::Atom(a));
            assert(tokens_view(tokens@) =~= spec_tokenize(s@));
        }
    } else {
        proof {
            assert(tokens_view(tokens@) =~= spec_tokenize(s@));
        }
    }
    tokens
}

} // verus!
