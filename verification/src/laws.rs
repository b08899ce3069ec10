//! Laws of matching and substitution, stated over the mathematical views
//! and proved once and for all.

use vstd::prelude::*;

use crate::building::{lemma_build_children_pointwise, spec_build, spec_build_children};
use crate::matching::{
    lemma_matches_children_iff, lemma_pattern_children_vars, pattern_children_vars, pattern_vars,
    spec_bind, spec_bind_children, spec_matches, spec_matches_children,
};
use crate::tree::{PatternView, TreeView};

verus! {

/// A node pattern matches a tree exactly when the label agrees, the arity
/// agrees, and every child pattern matches the child tree at its position;
/// a variable pattern matches any tree. One mismatch anywhere fails the
/// whole match.
pub proof fn lemma_match_exactness(value: u32, children: Seq<PatternView>, t: TreeView)
    ensures
        spec_matches(PatternView::Node { value, children }, t) <==> (t.value == value
            && t.children.len() == children.len() && (forall|i: int|
            0 <= i < children.len() ==> #[trigger] spec_matches(children[i], t.children[i]))),
{
    lemma_matches_children_iff(children, t.children, 0);
}

/// The set of capture names occurring in the patterns of `ps[i..]`.
pub open spec fn vars_from(ps: Seq<PatternView>, i: int) -> Set<Seq<u8>>
    decreases ps.len() - i,
{
    if 0 <= i < ps.len() {
        pattern_vars(ps[i]).union(vars_from(ps, i + 1))
    } else {
        Set::empty()
    }
}

/// Whether no capture name occurs twice in `p`.
pub open spec fn linear(p: PatternView) -> bool
    decreases p, 1int, 0int,
{
    match p {
        PatternView::Var(_) => true,
        PatternView::Node { value, children } => linear_children(children, 0),
    }
}

/// Whether the patterns of `ps[i..]` are linear with pairwise disjoint
/// capture names.
pub open spec fn linear_children(ps: Seq<PatternView>, i: int) -> bool
    decreases ps, 0int, ps.len() - i,
{
    if 0 <= i < ps.len() {
        linear(ps[i]) && pattern_vars(ps[i]).disjoint(vars_from(ps, i + 1)) && linear_children(
            ps,
            i + 1,
        )
    } else {
        true
    }
}

/// A name occurs in `ps[i..]` exactly when it occurs in one of those
/// patterns.
pub proof fn lemma_vars_from_members(ps: Seq<PatternView>, i: int)
    requires
        0 <= i,
    ensures
        forall|n: Seq<u8>|
            #[trigger] vars_from(ps, i).contains(n) <==> exists|j: int|
                i <= j < ps.len() && #[trigger] pattern_vars(ps[j]).contains(n),
    decreases ps.len() - i,
{
    if i < ps.len() {
        lemma_vars_from_members(ps, i + 1);
        assert forall|n: Seq<u8>| #[trigger] vars_from(ps, i).contains(n) implies (exists|j: int|
            i <= j < ps.len() && #[trigger] pattern_vars(ps[j]).contains(n)) by {
            assert(vars_from(ps, i) == pattern_vars(ps[i]).union(vars_from(ps, i + 1)));
            if pattern_vars(ps[i]).contains(n) {
                assert(i <= i < ps.len() && pattern_vars(ps[i]).contains(n));
            } else {
                assert(vars_from(ps, i + 1).contains(n));
                let j = choose|j: int|
                    i + 1 <= j < ps.len() && #[trigger] pattern_vars(ps[j]).contains(n);
                assert(i <= j < ps.len() && pattern_vars(ps[j]).contains(n));
            }
        }
        assert forall|n: Seq<u8>|
            (exists|j: int|
                i <= j < ps.len() && #[trigger] pattern_vars(ps[j]).contains(
                    n,
                )) implies #[trigger] vars_from(ps, i).contains(n) by {
            assert(vars_from(ps, i) == pattern_vars(ps[i]).union(vars_from(ps, i + 1)));
            let j = choose|j: int| i <= j < ps.len() && #[trigger] pattern_vars(ps[j]).contains(n);
            if j > i {
                assert(i + 1 <= j < ps.len() && pattern_vars(ps[j]).contains(n));
                assert(vars_from(ps, i + 1).contains(n));
            }
        }
    }
}

/// Both ways of collecting the capture names of a pattern sequence agree.
pub proof fn lemma_children_vars_eq(ps: Seq<PatternView>)
    ensures
        pattern_children_vars(ps) == vars_from(ps, 0),
{
    lemma_pattern_children_vars(ps);
    lemma_vars_from_members(ps, 0);
    assert(pattern_children_vars(ps) =~= vars_from(ps, 0));
}

/// Matching binds exactly the pattern's own capture names: every other key
/// keeps the value it had before the match.
pub proof fn lemma_bind_frame(p: PatternView, t: TreeView, m: Map<Seq<u8>, TreeView>)
    ensures
        forall|k: Seq<u8>|
            #[trigger] spec_bind(p, t, m).contains_key(k) <==> m.contains_key(k) || pattern_vars(
                p,
            ).contains(k),
        forall|k: Seq<u8>|
            !pattern_vars(p).contains(k) && m.contains_key(k) ==> #[trigger] spec_bind(p, t, m)[k]
                == m[k],
    decreases p, 1int, 0int,
{
    match p {
        PatternView::Var(name) => {
            assert(spec_bind(p, t, m) == m.insert(name, t));
            assert(pattern_vars(p) == Set::<Seq<u8>>::empty().insert(name));
            assert forall|k: Seq<u8>| #[trigger] spec_bind(p, t, m).contains_key(k) == (
            m.contains_key(k) || pattern_vars(p).contains(k)) by {
                assert(m.insert(name, t).contains_key(k) == (m.contains_key(k) || k == name));
            }
        },
        PatternView::Node { value, children } => {
            lemma_bind_children_frame(children, t.children, 0, m);
            lemma_children_vars_eq(children);
            assert(spec_bind(p, t, m) == spec_bind_children(children, t.children, 0, m));
            assert(pattern_vars(p) == vars_from(children, 0));
        },
    }
}

/// The children's binding pass binds exactly the names of `ps[i..]`.
pub proof fn lemma_bind_children_frame(
    ps: Seq<PatternView>,
    ts: Seq<TreeView>,
    i: int,
    m: Map<Seq<u8>, TreeView>,
)
    requires
        0 <= i,
    ensures
        forall|k: Seq<u8>|
            #[trigger] spec_bind_children(ps, ts, i, m).contains_key(k) <==> m.contains_key(k)
                || vars_from(ps, i).contains(k),
        forall|k: Seq<u8>|
            !vars_from(ps, i).contains(k) && m.contains_key(k) ==> #[trigger] spec_bind_children(
                ps,
                ts,
                i,
                m,
            )[k] == m[k],
    decreases ps, 0int, ps.len() - i,
{
    if i < ps.len() {
        let m1 = spec_bind(ps[i], ts[i], m);
        lemma_bind_frame(ps[i], ts[i], m);
        lemma_bind_children_frame(ps, ts, i + 1, m1);
        assert(spec_bind_children(ps, ts, i, m) == spec_bind_children(ps, ts, i + 1, m1));
        assert(vars_from(ps, i) == pattern_vars(ps[i]).union(vars_from(ps, i + 1)));
        assert forall|k: Seq<u8>| #[trigger] spec_bind_children(ps, ts, i, m).contains_key(k) == (
        m.contains_key(k) || vars_from(ps, i).contains(k)) by {
            assert(spec_bind_children(ps, ts, i + 1, m1).contains_key(k) == (m1.contains_key(k)
                || vars_from(ps, i + 1).contains(k)));
            assert(m1.contains_key(k) == (m.contains_key(k) || pattern_vars(ps[i]).contains(k)));
        }
        assert forall|k: Seq<u8>|
            !vars_from(ps, i).contains(k) && m.contains_key(k) implies #[trigger] spec_bind_children(
            ps,
            ts,
            i,
            m,
        )[k] == m[k] by {
            assert(!pattern_vars(ps[i]).contains(k));
            assert(!vars_from(ps, i + 1).contains(k));
            assert(spec_bind(ps[i], ts[i], m)[k] == m[k]);
            assert(m1.contains_key(k));
            assert(spec_bind_children(ps, ts, i + 1, m1)[k] == m1[k]);
        }
    } else {
        assert(vars_from(ps, i) =~= Set::<Seq<u8>>::empty());
    }
}

/// Substituting under any map that agrees with the match's own binding on
/// the pattern's capture names rebuilds the matched tree, provided the
/// pattern is linear.
proof fn lemma_build_from_bind(
    p: PatternView,
    t: TreeView,
    m: Map<Seq<u8>, TreeView>,
    big: Map<Seq<u8>, TreeView>,
)
    requires
        spec_matches(p, t),
        linear(p),
        forall|k: Seq<u8>|
            #[trigger] pattern_vars(p).contains(k) ==> big.contains_key(k) && big[k] == spec_bind(
                p,
                t,
                m,
            )[k],
    ensures
        spec_build(p, big) == t,
    decreases p, 1int, 0int,
{
    match p {
        PatternView::Var(name) => {
            assert(pattern_vars(p) == Set::<Seq<u8>>::empty().insert(name));
            assert(pattern_vars(p).contains(name));
            assert(spec_bind(p, t, m) == m.insert(name, t));
            assert(big[name] == m.insert(name, t)[name]);
            assert(spec_build(p, big) == big[name]);
        },
        PatternView::Node { value, children } => {
            lemma_children_vars_eq(children);
            assert(spec_matches_children(children, t.children, 0));
            assert(linear_children(children, 0));
            assert(spec_bind(p, t, m) == spec_bind_children(children, t.children, 0, m));
            assert(pattern_vars(p) == vars_from(children, 0));
            lemma_build_from_bind_children(children, t.children, 0, m, big);
            lemma_build_children_pointwise(children, big);
            assert(spec_build_children(children, big) =~= t.children);
        },
    }
}

/// As `lemma_build_from_bind`, for the children from position `i` on.
proof fn lemma_build_from_bind_children(
    ps: Seq<PatternView>,
    ts: Seq<TreeView>,
    i: int,
    m: Map<Seq<u8>, TreeView>,
    big: Map<Seq<u8>, TreeView>,
)
    requires
        0 <= i,
        ps.len() == ts.len(),
        spec_matches_children(ps, ts, i),
        linear_children(ps, i),
        forall|k: Seq<u8>|
            #[trigger] vars_from(ps, i).contains(k) ==> big.contains_key(k) && big[k]
                == spec_bind_children(ps, ts, i, m)[k],
    ensures
        forall|j: int| i <= j < ps.len() ==> #[trigger] spec_build(ps[j], big) == ts[j],
    decreases ps, 0int, ps.len() - i,
{
    if i < ps.len() {
        let m1 = spec_bind(ps[i], ts[i], m);
        lemma_bind_frame(ps[i], ts[i], m);
        lemma_bind_children_frame(ps, ts, i + 1, m1);
        assert forall|k: Seq<u8>| #[trigger] pattern_vars(ps[i]).contains(k) implies big
            .contains_key(k) && big[k] == m1[k] by {
            assert(vars_from(ps, i).contains(k));
            assert(!vars_from(ps, i + 1).contains(k));
            assert(spec_bind_children(ps, ts, i, m) == spec_bind_children(ps, ts, i + 1, m1));
            assert(m1.contains_key(k));
            assert(spec_bind_children(ps, ts, i + 1, m1)[k] == m1[k]);
        }
        lemma_build_from_bind(ps[i], ts[i], m, big);
        assert forall|k: Seq<u8>| #[trigger] vars_from(ps, i + 1).contains(k) implies big
            .contains_key(k) && big[k] == spec_bind_children(ps, ts, i + 1, m1)[k] by {
            assert(vars_from(ps, i).contains(k));
        }
        lemma_build_from_bind_children(ps, ts, i + 1, m1, big);
        assert forall|j: int| i <= j < ps.len() implies #[trigger] spec_build(ps[j], big)
            == ts[j] by {
            if j > i {
                assert(spec_build(ps[j], big) == ts[j]);
            }
        }
    }
}

/// Round trip: a linear pattern that matches a tree binds all of its
/// capture names, and substituting it under that very binding rebuilds the
/// matched tree exactly.
pub proof fn lemma_match_build_round_trip(p: PatternView, t: TreeView)
    requires
        spec_matches(p, t),
        linear(p),
    ensures
        pattern_vars(p).subset_of(spec_bind(p, t, Map::empty()).dom()),
        spec_build(p, spec_bind(p, t, Map::empty())) == t,
{
    let b = spec_bind(p, t, Map::<Seq<u8>, TreeView>::empty());
    lemma_bind_frame(p, t, Map::empty());
    lemma_build_from_bind(p, t, Map::empty(), b);
}

} // verus!
