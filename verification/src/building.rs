//! Substitution: instantiating a pattern into a concrete tree given a
//! binding of capture names to trees.
//!
//! Substitution is pure: it mutates neither the pattern, the binding, nor
//! any tree reachable from the binding, and its result is a function of its
//! inputs alone. A pattern that refers to a name the binding lacks is a
//! usage error, reported as `EngineError::UnboundVariable` rather than made
//! to stand for some default tree.

use vstd::prelude::*;

use crate::engine::EngineError;
use crate::matching::{lemma_pattern_children_vars, pattern_children_vars, pattern_vars, Binding};
use crate::tree::{pattern_view, tree_view, Pattern, PatternView, Tree, TreeView};

verus! {

/// The tree obtained by replacing every capture variable of `p` with its
/// tree under `m`. Only meaningful where every variable of `p` is a key of
/// `m`.
pub open spec fn spec_build(p: PatternView, m: Map<Seq<u8>, TreeView>) -> TreeView
    decreases p, 1int,
{
    match p {
        PatternView::Var(name) => m[name],
        PatternView::Node { value, children } => TreeView {
            value,
            children: spec_build_children(children, m),
        },
    }
}

/// The trees obtained by building each pattern of `ps` under `m`, in order.
pub open spec fn spec_build_children(ps: Seq<PatternView>, m: Map<Seq<u8>, TreeView>) -> Seq<
    TreeView,
>
    decreases ps, 0int,
{
    if ps.len() == 0 {
        Seq::empty()
    } else {
        spec_build_children(ps.drop_last(), m).push(spec_build(ps.last(), m))
    }
}

/// Building a sequence of patterns builds each one pointwise.
pub proof fn lemma_build_children_pointwise(ps: Seq<PatternView>, m: Map<Seq<u8>, TreeView>)
    ensures
        spec_build_children(ps, m).len() == ps.len(),
        forall|i: int|
            0 <= i < ps.len() ==> #[trigger] spec_build_children(ps, m)[i] == spec_build(ps[i], m),
    decreases ps.len(),
{
    if ps.len() > 0 {
        lemma_build_children_pointwise(ps.drop_last(), m);
    }
}

/// Builds the tree described by `pat` under the binding `vars`.
///
/// Succeeds exactly when every capture name of `pat` is bound; a reference
/// to an unbound name fails with `UnboundVariable` and no tree is produced.
pub fn subst(pat: &Pattern, vars: &Binding) -> (r: Result<Tree, EngineError>)
    ensures
        r is Ok <==> pattern_vars(pat@).subset_of(vars@.dom()),
        match r {
            Ok(t) => t@ == spec_build(pat@, vars@),
            Err(e) => e == EngineError::UnboundVariable,
        },
    decreases *pat,
{
    match pat {
        Pattern::Var(name) => match vars.get(name) {
            Some(t) => {
                let copy = t.clone();
                proof {
                    assert forall|n: Seq<u8>| pattern_vars(pat@).contains(n) implies vars@
                        .dom().contains(n) by {
                        assert(n == name@);
                    }
                }
                Ok(copy)
            },
            None => {
                proof {
                    assert(pattern_vars(pat@).contains(name@));
                    assert(!vars@.dom().contains(name@));
                }
                Err(EngineError::UnboundVariable)
            },
        },
        Pattern::Node { value, children } => {
            let ghost pv = crate::tree::pattern_forest_view(children@);
            proof {
                crate::tree::lemma_pattern_forest_view(children@);
            }
            let n = children.len();
            let mut out: Vec<Tree> = Vec::new();
            let mut i: usize = 0;
            #[verifier::loop_isolation(false)]
            while i < n
                invariant
                    i <= n,
                    out@.len() == i,
                    forall|j: int| 0 <= j < i ==> #[trigger] tree_view(out@[j]) == spec_build(
                        pv[j],
                        vars@,
                    ),
                    forall|j: int|
                        0 <= j < i ==> #[trigger] pattern_vars(pv[j]).subset_of(vars@.dom()),
                decreases n - i,
            {
                match subst(&children[i], vars) {
                    Ok(t) => {
                        out.push(t);
                    },
                    Err(e) => {
                        proof {
                            assert(pat@ == (PatternView::Node { value: *value, children: pv }));
                            assert(pattern_vars(pat@) == pattern_children_vars(pv));
                            assert(!pattern_vars(pv[i as int]).subset_of(vars@.dom()));
                            assert(exists|w: Seq<u8>|
                                #[trigger] pattern_vars(pv[i as int]).contains(w) && !vars@
                                    .dom().contains(w));
                            let w = choose|w: Seq<u8>|
                                #[trigger] pattern_vars(pv[i as int]).contains(w) && !vars@
                                    .dom().contains(w);
                            lemma_pattern_children_vars(pv);
                            assert(pattern_children_vars(pv).contains(w));
                            assert(pattern_vars(pat@).contains(w));
                        }
                        return Err(e);
                    },
                }
                i += 1;
            }
            proof {
                lemma_build_children_pointwise(pv, vars@);
                crate::tree::lemma_forest_view(out@);
                assert(crate::tree::forest_view(out@) =~= spec_build_children(pv, vars@));
                lemma_pattern_children_vars(pv);
                assert(pat@ == (PatternView::Node { value: *value, children: pv }));
                assert(pattern_vars(pat@) == pattern_children_vars(pv));
                assert forall|w: Seq<u8>| pattern_vars(pat@).contains(w) implies vars@
                    .dom().contains(w) by {
                    assert(pattern_children_vars(pv).contains(w));
                    assert(exists|j: int|
                        0 <= j < pv.len() && #[trigger] pattern_vars(pv[j]).contains(w));
                    let j = choose|j: int|
                        0 <= j < pv.len() && #[trigger] pattern_vars(pv[j]).contains(w);
                    assert(pattern_vars(pv[j]).subset_of(vars@.dom()));
                }
            }
            Ok(Tree { value: *value, children: out })
        },
    }
}

} // verus!
