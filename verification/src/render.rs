//! Rendering trees and patterns back to their textual grammar: the label,
//! then the children in square brackets, comma separated, only when there
//! are any; a capture variable renders as its name.

use vstd::prelude::*;

use crate::tree::{
    forest_view, lemma_forest_view, lemma_pattern_forest_view, pattern_forest_view, Pattern,
    PatternView, Tree, TreeView,
};

verus! {

/// The decimal digits of `n`, most significant first.
pub open spec fn dec_digits(n: nat) -> Seq<u8>
    decreases n,
{
    if n < 10 {
        seq![(48 + n) as u8]
    } else {
        dec_digits(n / 10).push((48 + n % 10) as u8)
    }
}

/// The rendering of a tree: its label, then `[`, the children comma
/// separated, and `]`, only when there are children.
pub open spec fn spec_render_tree(t: TreeView) -> Seq<u8>
    decreases t, 1int,
{
    if t.children.len() == 0 {
        dec_digits(t.value as nat)
    } else {
        dec_digits(t.value as nat) + seq![91u8] + spec_render_forest(t.children) + seq![93u8]
    }
}

/// The renderings of the given trees, comma separated.
pub open spec fn spec_render_forest(cs: Seq<TreeView>) -> Seq<u8>
    decreases cs, 0int,
{
    if cs.len() == 0 {
        Seq::empty()
    } else if cs.len() == 1 {
        spec_render_tree(cs.last())
    } else {
        spec_render_forest(cs.drop_last()) + seq![44u8] + spec_render_tree(cs.last())
    }
}

/// The rendering of a pattern: a variable is its name; a node renders as a
/// tree does.
pub open spec fn spec_render_pattern(p: PatternView) -> Seq<u8>
    decreases p, 1int,
{
    match p {
        PatternView::Var(name) => name,
        PatternView::Node { value, children } => if children.len() == 0 {
            dec_digits(value as nat)
        } else {
            dec_digits(value as nat) + seq![91u8] + spec_render_pattern_forest(children)
                + seq![93u8]
        },
    }
}

/// The renderings of the given patterns, comma separated.
pub open spec fn spec_render_pattern_forest(ps: Seq<PatternView>) -> Seq<u8>
    decreases ps, 0int,
{
    if ps.len() == 0 {
        Seq::empty()
    } else if ps.len() == 1 {
        spec_render_pattern(ps.last())
    } else {
        spec_render_pattern_forest(ps.drop_last()) + seq![44u8] + spec_render_pattern(ps.last())
    }
}

/// Appends the decimal digits of `n`.
fn push_u32(n: u32, out: &mut Vec<u8>)
    ensures
        final(out)@ == old(out)@ + dec_digits(n as nat),
    decreases n,
{
    if n < 10 {
        out.push(48 + (n as u8));
        proof {
            assert(out@ =~= old(out)@ + dec_digits(n as nat));
        }
    } else {
        push_u32(n / 10, out);
        out.push(48 + ((n % 10) as u8));
        proof {
            assert(out@ =~= old(out)@ + dec_digits(n as nat));
        }
    }
}

/// Appends the rendering of `t`.
fn push_tree(t: &Tree, out: &mut Vec<u8>)
    ensures
        final(out)@ == old(out)@ + spec_render_tree(t@),
    decreases *t,
{
    push_u32(t.value, out);
    let n = t.children.len();
    if n == 0 {
        proof {
            lemma_forest_view(t.children@);
        }
        return ;
    }
    out.push(91);
    let ghost tv = forest_view(t.children@);
    let ghost base = old(out)@ + dec_digits(t.value as nat) + seq![91u8];
    proof {
        lemma_forest_view(t.children@);
        assert(out@ =~= base + spec_render_forest(tv.take(0)));
    }
    let mut i: usize = 0;
    #[verifier::loop_isolation(false)]
    while i < n
        invariant
            i <= n,
            out@ == base + spec_render_forest(tv.take(i as int)),
        decreases n - i,
    {
        if i > 0 {
            out.push(44);
        }
        push_tree(&t.children[i], out);
        proof {
            assert(tv.take(i + 1 as int).drop_last() =~= tv.take(i as int));
            assert(tv.take(i + 1 as int).last() == tv[i as int]);
            assert(out@ =~= base + spec_render_forest(tv.take(i + 1 as int)));
        }
        i += 1;
    }
    out.push(93);
    proof {
        assert(tv.take(n as int) =~= tv);
        assert(out@ =~= old(out)@ + spec_render_tree(t@));
    }
}

/// The textual rendering of `t`, as bytes of the grammar.
pub fn render_tree(t: &Tree) -> (r: Vec<u8>)
    ensures
        r@ == spec_render_tree(t@),
{
    let mut out: Vec<u8> = Vec::new();
    push_tree(t, &mut out);
    proof {
        assert(out@ =~= spec_render_tree(t@));
    }
    out
}

/// Appends all of `bytes`.
fn push_bytes(bytes: &Vec<u8>, out: &mut Vec<u8>)
    ensures
        final(out)@ == old(out)@ + bytes@,
{
    let n = bytes.len();
    let mut i: usize = 0;
    #[verifier::loop_isolation(false)]
    while i < n
        invariant
            i <= n,
            out@ == old(out)@ + bytes@.take(i as int),
        decreases n - i,
    {
        out.push(bytes[i]);
        proof {
            assert(out@ =~= old(out)@ + bytes@.take(i + 1 as int));
        }
        i += 1;
    }
    proof {
        assert(bytes@.take(n as int) =~= bytes@);
    }
}

/// Appends the rendering of `p`.
fn push_pattern(p: &Pattern, out: &mut Vec<u8>)
    ensures
        final(out)@ == old(out)@ + spec_render_pattern(p@),
    decreases *p,
{
    match p {
        Pattern::Var(name) => {
            push_bytes(name, out);
        },
        Pattern::Node { value, children } => {
            push_u32(*value, out);
            let n = children.len();
            if n == 0 {
                proof {
                    lemma_pattern_forest_view(children@);
                }
                return ;
            }
            out.push(91);
            let ghost pv = pattern_forest_view(children@);
            let ghost base = old(out)@ + dec_digits(*value as nat) + seq![91u8];
            proof {
                lemma_pattern_forest_view(children@);
                assert(out@ =~= base + spec_render_pattern_forest(pv.take(0)));
            }
            let mut i: usize = 0;
            #[verifier::loop_isolation(false)]
            while i < n
                invariant
                    i <= n,
                    out@ == base + spec_render_pattern_forest(pv.take(i as int)),
                decreases n - i,
            {
                if i > 0 {
                    out.push(44);
                }
                push_pattern(&children[i], out);
                proof {
                    assert(pv.take(i + 1 as int).drop_last() =~= pv.take(i as int));
                    assert(pv.take(i + 1 as int).last() == pv[i as int]);
                    assert(out@ =~= base + spec_render_pattern_forest(pv.take(i + 1 as int)));
                }
                i += 1;
            }
            out.push(93);
            proof {
                assert(pv.take(n as int) =~= pv);
                assert(out@ =~= old(out)@ + spec_render_pattern(p@));
            }
        },
    }
}

/// The textual rendering of `p`, as bytes of the grammar.
pub fn render_pattern(p: &Pattern) -> (r: Vec<u8>)
    ensures
        r@ == spec_render_pattern(p@),
{
    let mut out: Vec<u8> = Vec::new();
    push_pattern(p, &mut out);
    proof {
        assert(out@ =~= spec_render_pattern(p@));
    }
    out
}

} // verus!
