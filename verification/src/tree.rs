//! The data model: labeled ordered trees and patterns with capture variables,
//! together with their mathematical views.
//!
//! Capture names are byte strings (the textual grammar only ever produces
//! ASCII letters, but nothing here depends on that).

use vstd::prelude::*;

verus! {

/// Mathematical view of a tree: an unsigned label and a sequence of subtrees.
#[verifier::ext_equal]
pub struct TreeView {
    pub value: u32,
    pub children: Seq<TreeView>,
}

/// Mathematical view of a pattern: a capture variable or a labeled node.
#[verifier::ext_equal]
pub enum PatternView {
    Var(Seq<u8>),
    Node { value: u32, children: Seq<PatternView> },
}

/// A labeled, ordered, finite tree: the subject of rewriting.
pub struct Tree {
    pub value: u32,
    pub children: Vec<Tree>,
}

/// A template over trees: a capture variable, which matches any tree, or a
/// node, which matches a tree with the same label and the same arity.
pub enum Pattern {
    Var(Vec<u8>),
    Node { value: u32, children: Vec<Pattern> },
}

pub open spec fn tree_view(t: Tree) -> TreeView
    decreases t, 1int,
{
    TreeView { value: t.value, children: forest_view(t.children@) }
}

pub open spec fn forest_view(ts: Seq<Tree>) -> Seq<TreeView>
    decreases ts, 0int,
{
    if ts.len() == 0 {
        Seq::empty()
    } else {
        forest_view(ts.drop_last()).push(tree_view(ts.last()))
    }
}

impl View for Tree {
    type V = TreeView;

    open spec fn view(&self) -> TreeView {
        tree_view(*self)
    }
}

pub open spec fn pattern_view(p: Pattern) -> PatternView
    decreases p, 1int,
{
    match p {
        Pattern::Var(name) => PatternView::Var(name@),
        Pattern::Node { value, children } => PatternView::Node {
            value,
            children: pattern_forest_view(children@),
        },
    }
}

pub open spec fn pattern_forest_view(ps: Seq<Pattern>) -> Seq<PatternView>
    decreases ps, 0int,
{
    if ps.len() == 0 {
        Seq::empty()
    } else {
        pattern_forest_view(ps.drop_last()).push(pattern_view(ps.last()))
    }
}

impl View for Pattern {
    type V = PatternView;

    open spec fn view(&self) -> PatternView {
        pattern_view(*self)
    }
}

/// The view of a forest is the pointwise view of its trees.
pub proof fn lemma_forest_view(ts: Seq<Tree>)
    ensures
        forest_view(ts).len() == ts.len(),
        forall|i: int| 0 <= i < ts.len() ==> #[trigger] forest_view(ts)[i] == tree_view(ts[i]),
    decreases ts.len(),
{
    if ts.len() > 0 {
        lemma_forest_view(ts.drop_last());
    }
}

/// The view of a pattern forest is the pointwise view of its patterns.
pub proof fn lemma_pattern_forest_view(ps: Seq<Pattern>)
    ensures
        pattern_forest_view(ps).len() == ps.len(),
        forall|i: int|
            0 <= i < ps.len() ==> #[trigger] pattern_forest_view(ps)[i] == pattern_view(ps[i]),
    decreases ps.len(),
{
    if ps.len() > 0 {
        lemma_pattern_forest_view(ps.drop_last());
    }
}

impl Tree {
    /// A leaf: a label with no children.
    pub fn leaf(value: u32) -> (r: Tree)
        ensures
            r@ == (TreeView { value, children: Seq::<TreeView>::empty() }),
    {
        Tree { value, children: Vec::new() }
    }

    /// A node with the given label and children.
    pub fn node(value: u32, children: Vec<Tree>) -> (r: Tree)
        ensures
            r@ == (TreeView { value, children: forest_view(children@) }),
    {
        Tree { value, children }
    }
}

impl Clone for Tree {
    /// A clone is a fresh deep copy with the same view.
    fn clone(&self) -> (r: Tree)
        ensures
            r@ == self@,
        decreases *self,
    {
        let mut children: Vec<Tree> = Vec::new();
        let n = self.children.len();
        let mut i: usize = 0;
        while i < n
            invariant
                i <= n,
                n == self.children@.len(),
                children@.len() == i,
                forall|j: int| 0 <= j < i ==> #[trigger] tree_view(children@[j]) == tree_view(
                    self.children@[j],
                ),
            decreases n - i,
        {
            let c = self.children[i].clone();
            children.push(c);
            i += 1;
        }
        proof {
            lemma_forest_view(children@);
            lemma_forest_view(self.children@);
            assert(forest_view(children@) =~= forest_view(self.children@));
        }
        Tree { value: self.value, children }
    }
}

} // verus!
