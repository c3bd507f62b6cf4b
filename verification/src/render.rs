//! The renderer: the canonical text of an expression tree — children joined
//! by single spaces inside parentheses, atoms as their literal text.

use vstd::prelude::*;
use vstd::string::StringExecFns;

use crate::ast::Atom;
use crate::ast::AtomModel;
use crate::ast::Expr;
use crate::ast::ExprModel;
use crate::numeral::dec_digits;
use crate::numeral::push_dec_digits;

verus! {

/// The text of an atom: identifier text as written, a number as its decimal
/// digits without sign or leading zeros.
pub open spec fn render_atom(a: AtomModel) -> Seq<char> {
    match a {
        AtomModel::Ident(text) => text,
        AtomModel::Num(n) => dec_digits(n as nat),
    }
}

/// The canonical text of an expression.
pub open spec fn render_expr(e: ExprModel) -> Seq<char>
    decreases e,
{
    match e {
        ExprModel::Group(es) => seq!['('] + render_children(es) + seq![')'],
        ExprModel::Atom(a) => render_atom(a),
    }
}

/// The texts of a group's children, joined by single spaces.
pub open spec fn render_children(es: Seq<ExprModel>) -> Seq<char>
    decreases es,
{
    if es.len() == 0 {
        Seq::<char>::empty()
    } else if es.len() == 1 {
        render_expr(es[0])
    } else {
        render_expr(es[0]) + seq![' '] + render_children(es.drop_first())
    }
}

/// Joining one more child appends one space and its text.
pub proof fn lemma_render_children_snoc(es: Seq<ExprModel>, i: int)
    requires
        1 <= i < es.len(),
    ensures
        render_children(es.take(i + 1)) == render_children(es.take(i)) + seq![' ']
            + render_expr(es[i]),
    decreases i,
{
    if i == 1 {
        assert(es.take(1) =~= seq![es[0]]);
        assert(es.take(2) =~= seq![es[0], es[1]]);
        assert(es.take(2).drop_first() =~= seq![es[1]]);
        assert(render_children(seq![es[1]]) == render_expr(es[1]));
        assert(render_children(es.take(2)) == render_expr(es[0]) + seq![' '] + render_expr(es[1]));
        assert(render_children(es.take(1)) == render_expr(es[0]));
    } else {
        let tail = es.drop_first();
        lemma_render_children_snoc(tail, i - 1);
        assert(es.take(i + 1).drop_first() =~= tail.take(i));
        assert(es.take(i).drop_first() =~= tail.take(i - 1));
        assert(es.take(i + 1)[0] == es[0]);
        assert(es.take(i)[0] == es[0]);
        assert(tail[i - 1] == es[i]);
        assert(render_children(es.take(i + 1)) == render_expr(es[0]) + seq![' ']
            + render_children(tail.take(i)));
        assert(render_children(es.take(i)) == render_expr(es[0]) + seq![' '] + render_children(
            tail.take(i - 1),
        ));
        assert(render_children(es.take(i + 1)) =~= render_children(es.take(i)) + seq![' ']
            + render_expr(es[i]));
    }
}

/// Append the canonical text of `e` to the output.
fn render_into(e: &Expr, out: &mut String)
    ensures
        final(out)@ == old(out)@ + render_expr(e@),
    decreases *e,
{
    match e {
        Expr::Atom(a) => {
            match a {
                Atom::Ident(text) => {
                    out.append(text.as_str());
                },
                Atom::Num(n) => {
                    push_dec_digits(*n, out);
                },
            }
        },
        Expr::Group(es) => {
            let ghost base = out@;
            let ghost models = crate::ast::exprs_view(es@);
            proof {
                crate::ast::lemma_exprs_view(es@);
            }
            out.append("(");
            proof {
                reveal_strlit("(");
                assert(out@ =~= base + seq!['(']);
            }
            let n = es.len();
            let mut i: usize = 0;
            while i < n
                invariant
                    i <= n,
                    n == es@.len(),
                    *e == Expr::Group(*es),
                    models == crate::ast::exprs_view(es@),
                    models.len() == n,
                    forall|j: int| 0 <= j < n ==> models[j] == #[trigger] es@[j]@,
                    out@ == base + seq!['('] + render_children(models.take(i as int)),
                decreases n - i,
            {
                if i > 0 {
                    out.append(" ");
                    proof {
                        reveal_strlit(" ");
                    }
                }
                let ghost mid = out@;
                proof {
                    assert((*e)->Group_0 == *es);
                    assert(decreases_to!(*e => (*e)->Group_0));
                    assert(decreases_to!(*es => es@));
                    assert(decreases_to!(es@ => es@[i as int]));
                    assert(decreases_to!(*e => es@[i as int]));
                }
                render_into(&es[i], out);
                proof {
                    assert(out@ == mid + render_expr(models[i as int]));
                    if i == 0 {
                        assert(models.take(1) =~= seq![models[0]]);
                        assert(render_children(models.take(1)) == render_expr(models[0]));
                        assert(render_children(models.take(0int)) =~= Seq::<char>::empty());
                        assert(out@ =~= base + seq!['('] + render_children(models.take(1)));
                    } else {
                        lemma_render_children_snoc(models, i as int);
                        assert(out@ =~= base + seq!['('] + render_children(
                            models.take(i as int + 1),
                        ));
                    }
                }
                i = i + 1;
            }
            out.append(")");
            proof {
                reveal_strlit(")");
                assert(models.take(n as int) =~= models);
                assert(render_expr(e@) == seq!['('] + render_children(models) + seq![')']);
                assert(out@ =~= base + render_expr(e@));
            }
        },
    }
}

impl Expr {
    /// The canonical text of this expression.
    pub fn render(&self) -> (s: String)
        ensures
            s@ == render_expr(self@),
    {
        let mut out = String::new();
        render_into(self, &mut out);
        proof {
            assert(out@ =~= render_expr(self@));
        }
        out
    }
}

impl Atom {
    /// The text of this atom.
    pub fn render(&self) -> (s: String)
        ensures
            s@ == render_atom(self@),
    {
        match self {
            Atom::Ident(text) => text.clone(),
            Atom::Num(n) => {
                let mut out = String::new();
                push_dec_digits(*n, &mut out);
                proof {
                    assert(out@ =~= render_atom(self@));
                }
                out
            },
        }
    }
}

} // verus!
