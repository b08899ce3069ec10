//! Structural matching of a pattern against a tree, producing a binding of
//! capture names to subtrees.
//!
//! A `Var` occurrence always succeeds and binds its name to the tree it
//! stands against, overwriting any earlier binding of the same name within
//! the same attempt: a repeated name does not force the matched subtrees to
//! be equal. A `Node` pattern succeeds exactly when the label agrees, the
//! arity agrees, and every child matches, strictly left to right.

use vstd::prelude::*;

use crate::tree::{forest_view, pattern_view, tree_view, Pattern, PatternView, Tree, TreeView};

verus! {

/// Whether pattern `p` structurally matches tree `t`.
pub open spec fn spec_matches(p: PatternView, t: TreeView) -> bool
    decreases p, 1int, 0int,
{
    match p {
        PatternView::Var(_) => true,
        PatternView::Node { value, children } => t.value == value && t.children.len()
            == children.len() && spec_matches_children(children, t.children, 0),
    }
}

/// Whether every pattern of `ps[i..]` matches the tree of `ts[i..]` at the
/// same position.
pub open spec fn spec_matches_children(ps: Seq<PatternView>, ts: Seq<TreeView>, i: int) -> bool
    decreases ps, 0int, ps.len() - i,
{
    if 0 <= i < ps.len() {
        spec_matches(ps[i], ts[i]) && spec_matches_children(ps, ts, i + 1)
    } else {
        true
    }
}

/// Children match from `i` on exactly when each one matches pointwise.
pub proof fn lemma_matches_children_iff(ps: Seq<PatternView>, ts: Seq<TreeView>, i: int)
    requires
        0 <= i,
    ensures
        spec_matches_children(ps, ts, i) <==> (forall|j: int|
            i <= j < ps.len() ==> #[trigger] spec_matches(ps[j], ts[j])),
    decreases ps.len() - i,
{
    if 0 <= i < ps.len() {
        lemma_matches_children_iff(ps, ts, i + 1);
        if spec_matches_children(ps, ts, i) {
            assert forall|j: int| i <= j < ps.len() implies #[trigger] spec_matches(
                ps[j],
                ts[j],
            ) by {
                if j > i {
                    assert(spec_matches_children(ps, ts, i + 1));
                }
            }
        }
        if forall|j: int| i <= j < ps.len() ==> #[trigger] spec_matches(ps[j], ts[j]) {
            assert(spec_matches(ps[i], ts[i]));
            assert(forall|j: int| i + 1 <= j < ps.len() ==> #[trigger] spec_matches(ps[j], ts[j]));
            assert(spec_matches_children(ps, ts, i));
        }
    }
}

/// The binding map after matching `p` against `t`, starting from `m`.
/// Children bind left to right; a later binding of a name shadows an
/// earlier one. Only meaningful where `spec_matches(p, t)` holds.
pub open spec fn spec_bind(p: PatternView, t: TreeView, m: Map<Seq<u8>, TreeView>) -> Map<
    Seq<u8>,
    TreeView,
>
    decreases p, 1int, 0int,
{
    match p {
        PatternView::Var(name) => m.insert(name, t),
        PatternView::Node { value, children } => spec_bind_children(children, t.children, 0, m),
    }
}

/// The binding map after matching children `ps[i..]` against `ts[i..]`
/// pairwise, left to right, starting from `m`.
pub open spec fn spec_bind_children(
    ps: Seq<PatternView>,
    ts: Seq<TreeView>,
    i: int,
    m: Map<Seq<u8>, TreeView>,
) -> Map<Seq<u8>, TreeView>
    decreases ps, 0int, ps.len() - i,
{
    if 0 <= i < ps.len() {
        spec_bind_children(ps, ts, i + 1, spec_bind(ps[i], ts[i], m))
    } else {
        m
    }
}

/// The set of capture names occurring in `p`.
pub open spec fn pattern_vars(p: PatternView) -> Set<Seq<u8>>
    decreases p, 1int,
{
    match p {
        PatternView::Var(name) => Set::empty().insert(name),
        PatternView::Node { value, children } => pattern_children_vars(children),
    }
}

/// The set of capture names occurring in any pattern of `ps`.
pub open spec fn pattern_children_vars(ps: Seq<PatternView>) -> Set<Seq<u8>>
    decreases ps, 0int,
{
    if ps.len() == 0 {
        Set::empty()
    } else {
        pattern_children_vars(ps.drop_last()).union(pattern_vars(ps.last()))
    }
}

/// A name occurs in a sequence of patterns exactly when it occurs in one of
/// them.
pub proof fn lemma_pattern_children_vars(ps: Seq<PatternView>)
    ensures
        forall|n: Seq<u8>|
            #[trigger] pattern_children_vars(ps).contains(n) <==> exists|i: int|
                0 <= i < ps.len() && #[trigger] pattern_vars(ps[i]).contains(n),
    decreases ps.len(),
{
    if ps.len() > 0 {
        lemma_pattern_children_vars(ps.drop_last());
        assert forall|n: Seq<u8>| #[trigger] pattern_children_vars(ps).contains(n) implies (exists|
            i: int,
        |
            0 <= i < ps.len() && #[trigger] pattern_vars(ps[i]).contains(n)) by {
            if pattern_children_vars(ps.drop_last()).contains(n) {
                let i = choose|i: int|
                    0 <= i < ps.drop_last().len() && #[trigger] pattern_vars(
                        ps.drop_last()[i],
                    ).contains(n);
                assert(pattern_vars(ps[i]).contains(n));
            } else {
                assert(pattern_vars(ps[ps.len() - 1]).contains(n));
            }
        }
        assert forall|n: Seq<u8>|
            (exists|i: int|
                0 <= i < ps.len() && #[trigger] pattern_vars(ps[i]).contains(
                    n,
                )) implies #[trigger] pattern_children_vars(ps).contains(n) by {
            let i = choose|i: int| 0 <= i < ps.len() && #[trigger] pattern_vars(ps[i]).contains(n);
            if i < ps.len() - 1 {
                assert(ps.drop_last()[i] == ps[i]);
                assert(pattern_children_vars(ps.drop_last()).contains(n));
            }
        }
    }
}

/// A binding of capture names to trees, built fresh per match attempt.
///
/// Entries are kept in insertion order; a later entry for a name shadows an
/// earlier one, so the view is the map in which the last insertion wins.
pub struct Binding {
    entries: Vec<(Vec<u8>, Tree)>,
}

/// The map described by an entry list: later entries shadow earlier ones.
pub open spec fn entries_map(es: Seq<(Vec<u8>, Tree)>) -> Map<Seq<u8>, TreeView>
    decreases es.len(),
{
    if es.len() == 0 {
        Map::empty()
    } else {
        entries_map(es.drop_last()).insert(es.last().0@, tree_view(es.last().1))
    }
}

/// The entry list's map holds exactly the listed keys.
proof fn lemma_entries_map_keys(es: Seq<(Vec<u8>, Tree)>, k: Seq<u8>)
    ensures
        entries_map(es).contains_key(k) <==> exists|i: int| 0 <= i < es.len() && es[i].0@ == k,
    decreases es.len(),
{
    if es.len() > 0 {
        lemma_entries_map_keys(es.drop_last(), k);
        if entries_map(es).contains_key(k) && es.last().0@ != k {
            let i = choose|i: int| 0 <= i < es.drop_last().len() && es.drop_last()[i].0@ == k;
            assert(es[i].0@ == k);
        }
        if exists|i: int| 0 <= i < es.len() && es[i].0@ == k {
            let i = choose|i: int| 0 <= i < es.len() && es[i].0@ == k;
            if i < es.len() - 1 {
                assert(es.drop_last()[i].0@ == k);
            }
        }
    }
}

/// At the key of a last occurrence, the map holds that occurrence's tree.
proof fn lemma_entries_map_last_hit(es: Seq<(Vec<u8>, Tree)>, j: int)
    requires
        0 <= j < es.len(),
        forall|i: int| j < i < es.len() ==> es[i].0@ != es[j].0@,
    ensures
        entries_map(es).contains_key(es[j].0@),
        entries_map(es)[es[j].0@] == tree_view(es[j].1),
    decreases es.len(),
{
    if j < es.len() - 1 {
        assert(forall|i: int| j < i < es.drop_last().len() ==> es.drop_last()[i].0@ != es
            .drop_last()[j].0@);
        lemma_entries_map_last_hit(es.drop_last(), j);
    }
}

impl Binding {
    pub closed spec fn view(&self) -> Map<Seq<u8>, TreeView> {
        entries_map(self.entries@)
    }

    /// An empty binding.
    pub fn new() -> (r: Binding)
        ensures
            r@ == Map::<Seq<u8>, TreeView>::empty(),
    {
        Binding { entries: Vec::new() }
    }

    /// Binds `name` to `tree`, shadowing any earlier binding of `name`.
    pub fn insert(&mut self, name: Vec<u8>, tree: Tree)
        ensures
            final(self)@ == old(self)@.insert(name@, tree@),
    {
        self.entries.push((name, tree));
        proof {
            assert(self.entries@.drop_last() =~= old(self).entries@);
        }
    }

    /// The tree bound to `name`, if any.
    pub fn get(&self, name: &Vec<u8>) -> (r: Option<&Tree>)
        ensures
            match r {
                Some(t) => self@.contains_key(name@) && t@ == self@[name@],
                None => !self@.contains_key(name@),
            },
    {
        let n = self.entries.len();
        let mut i: usize = n;
        while i > 0
            invariant
                i <= n,
                n == self.entries@.len(),
                forall|j: int| i <= j < n ==> self.entries@[j].0@ != name@,
            decreases i,
        {
            i -= 1;
            if bytes_eq(&self.entries[i].0, name) {
                proof {
                    lemma_entries_map_last_hit(self.entries@, i as int);
                }
                return Some(&self.entries[i].1);
            }
        }
        proof {
            lemma_entries_map_keys(self.entries@, name@);
        }
        None
    }
}

/// Byte-string equality.
fn bytes_eq(a: &Vec<u8>, b: &Vec<u8>) -> (r: bool)
    ensures
        r == (a@ == b@),
{
    if a.len() != b.len() {
        return false;
    }
    let mut i: usize = 0;
    while i < a.len()
        invariant
            i <= a.len(),
            a@.len() == b@.len(),
            forall|j: int| 0 <= j < i ==> a@[j] == b@[j],
        decreases a.len() - i,
    {
        if a[i] != b[i] {
            return false;
        }
        i += 1;
    }
    proof {
        assert(a@ =~= b@);
    }
    true
}

/// Matches `pat` against `tree`, recording captures in `vars`.
///
/// Returns whether the match succeeded; on success `vars` holds exactly the
/// bindings of this pattern over its earlier contents. On failure the
/// bindings made before the failing child remain in `vars`, and the caller
/// must discard the binding rather than reuse it.
pub fn identify(tree: &Tree, pat: &Pattern, vars: &mut Binding) -> (r: bool)
    ensures
        r == spec_matches(pat@, tree@),
        r ==> final(vars)@ == spec_bind(pat@, tree@, old(vars)@),
    decreases *pat,
{
    match pat {
        Pattern::Var(name) => {
            let name_copy = name.clone();
            let tree_copy = tree.clone();
            proof {
                assert(name_copy@ =~= name@);
            }
            vars.insert(name_copy, tree_copy);
            true
        },
        Pattern::Node { value, children } => {
            if tree.value != *value {
                return false;
            }
            if tree.children.len() != children.len() {
                proof {
                    crate::tree::lemma_forest_view(tree.children@);
                    crate::tree::lemma_pattern_forest_view(children@);
                }
                return false;
            }
            let ghost pv = crate::tree::pattern_forest_view(children@);
            let ghost tv = forest_view(tree.children@);
            proof {
                crate::tree::lemma_forest_view(tree.children@);
                crate::tree::lemma_pattern_forest_view(children@);
            }
            let n = children.len();
            let mut i: usize = 0;
            #[verifier::loop_isolation(false)]
            while i < n
                invariant
                    i <= n,
                    forall|j: int| 0 <= j < i ==> #[trigger] spec_matches(pv[j], tv[j]),
                    spec_bind_children(pv, tv, 0, old(vars)@) == spec_bind_children(
                        pv,
                        tv,
                        i as int,
                        vars@,
                    ),
                decreases n - i,
            {
                let ok = identify(&tree.children[i], &children[i], vars);
                if !ok {
                    proof {
                        assert(pv[i as int] == pattern_view(children@[i as int]));
                        assert(tv[i as int] == tree_view(tree.children@[i as int]));
                        lemma_matches_children_iff(pv, tv, 0);
                        assert(!spec_matches_children(pv, tv, 0));
                    }
                    return false;
                }
                i += 1;
            }
            proof {
                lemma_matches_children_iff(pv, tv, 0);
            }
            true
        },
    }
}

/// Attempts to unify `pat` against `tree`: the binding of capture names to
/// subtrees on success, or nothing where the label, the arity, or a child
/// mismatches.
pub fn try_match(pat: &Pattern, tree: &Tree) -> (r: Option<Binding>)
    ensures
        r is Some <==> spec_matches(pat@, tree@),
        match r {
            Some(b) => b@ == spec_bind(pat@, tree@, Map::<Seq<u8>, TreeView>::empty()),
            None => !spec_matches(pat@, tree@),
        },
{
    let mut vars = Binding::new();
    if identify(tree, pat, &mut vars) {
        Some(vars)
    } else {
        None
    }
}

} // verus!
