//! Parsing trees and patterns from their textual grammar.
//!
//! A node is a decimal label optionally followed by `[child,child,...]`;
//! a pattern additionally allows a bare alphabetic name as a capture
//! variable. Parsing consumes the longest well-formed prefix and reports how
//! many bytes it took; the caller decides what to make of a trailing rest.
//! A malformed bracket group is not an error: the label alone is the parse,
//! and the group is left unconsumed. A label too large for the label type
//! fails the whole parse.

use vstd::prelude::*;

use crate::tree::{forest_view, pattern_forest_view, Pattern, PatternView, Tree, TreeView};

verus! {

pub open spec fn is_digit(b: u8) -> bool {
    48 <= b <= 57
}

pub open spec fn is_alpha(b: u8) -> bool {
    (65 <= b <= 90) || (97 <= b <= 122)
}

/// The first position at or after `i` that does not hold a digit.
pub open spec fn digits_end(s: Seq<u8>, i: int) -> int
    decreases s.len() - i,
{
    if 0 <= i < s.len() && is_digit(s[i]) {
        digits_end(s, i + 1)
    } else {
        i
    }
}

/// The first position at or after `i` that does not hold an ASCII letter.
pub open spec fn alpha_end(s: Seq<u8>, i: int) -> int
    decreases s.len() - i,
{
    if 0 <= i < s.len() && is_alpha(s[i]) {
        alpha_end(s, i + 1)
    } else {
        i
    }
}

/// The number denoted by the digits `s[i..j)`, most significant first.
pub open spec fn digits_value(s: Seq<u8>, i: int, j: int) -> nat
    decreases j - i,
{
    if i < j {
        digits_value(s, i, j - 1) * 10 + (s[j - 1] - 48) as nat
    } else {
        0
    }
}

/// Parsing a label at `i`: one or more digits whose value fits the label
/// type, and the position after them. No digit, or a value too large, is a
/// failure.
pub open spec fn spec_parse_u32(s: Seq<u8>, i: int) -> Option<(u32, int)> {
    let j = digits_end(s, i);
    if j == i {
        None
    } else if digits_value(s, i, j) > u32::MAX {
        None
    } else {
        Some((digits_value(s, i, j) as u32, j))
    }
}

/// Parsing a tree at `i`: a label, then optionally `[`, children, `]`.
/// Where the bracket group is malformed the label alone is the parse.
pub open spec fn spec_parse_tree(s: Seq<u8>, i: int) -> Option<(TreeView, int)>
    decreases s.len() - i, 0int,
{
    match spec_parse_u32(s, i) {
        None => None,
        Some((value, j)) => {
            if i < j && j < s.len() && s[j] == 91 {
                let (children, k) = spec_parse_forest(s, j + 1);
                if k < s.len() && s[k] == 93 {
                    Some((TreeView { value, children }, k + 1))
                } else {
                    Some((TreeView { value, children: Seq::empty() }, j))
                }
            } else {
                Some((TreeView { value, children: Seq::empty() }, j))
            }
        },
    }
}

/// Parsing a comma-separated list of trees at `i`; never fails, an empty
/// list consumes nothing.
pub open spec fn spec_parse_forest(s: Seq<u8>, i: int) -> (Seq<TreeView>, int)
    decreases s.len() - i, 2int,
{
    match spec_parse_tree(s, i) {
        None => (Seq::empty(), i),
        Some((t, j)) => if i < j <= s.len() {
            let (rest, k) = spec_parse_forest_tail(s, j);
            (seq![t] + rest, k)
        } else {
            (Seq::empty(), i)
        },
    }
}

/// Parsing `,tree` groups at `i` until one fails; a failing group is left
/// unconsumed, comma included.
pub open spec fn spec_parse_forest_tail(s: Seq<u8>, i: int) -> (Seq<TreeView>, int)
    decreases s.len() - i, 1int,
{
    if 0 <= i < s.len() && s[i] == 44 {
        match spec_parse_tree(s, i + 1) {
            None => (Seq::empty(), i),
            Some((t, j)) => if i + 1 < j <= s.len() {
                let (rest, k) = spec_parse_forest_tail(s, j);
                (seq![t] + rest, k)
            } else {
                (Seq::empty(), i)
            },
        }
    } else {
        (Seq::empty(), i)
    }
}

/// Parsing a pattern at `i`: a bare alphabetic name is a capture variable;
/// anything else parses as a node, like a tree with pattern children.
pub open spec fn spec_parse_pattern(s: Seq<u8>, i: int) -> Option<(PatternView, int)>
    decreases s.len() - i, 0int,
{
    if 0 <= i < s.len() && is_alpha(s[i]) {
        Some((PatternView::Var(s.subrange(i, alpha_end(s, i))), alpha_end(s, i)))
    } else {
        match spec_parse_u32(s, i) {
            None => None,
            Some((value, j)) => {
                if i < j && j < s.len() && s[j] == 91 {
                    let (children, k) = spec_parse_pattern_forest(s, j + 1);
                    if k < s.len() && s[k] == 93 {
                        Some((PatternView::Node { value, children }, k + 1))
                    } else {
                        Some((PatternView::Node { value, children: Seq::empty() }, j))
                    }
                } else {
                    Some((PatternView::Node { value, children: Seq::empty() }, j))
                }
            },
        }
    }
}

/// Parsing a comma-separated list of patterns at `i`; never fails.
pub open spec fn spec_parse_pattern_forest(s: Seq<u8>, i: int) -> (Seq<PatternView>, int)
    decreases s.len() - i, 2int,
{
    match spec_parse_pattern(s, i) {
        None => (Seq::empty(), i),
        Some((p, j)) => if i < j <= s.len() {
            let (rest, k) = spec_parse_pattern_forest_tail(s, j);
            (seq![p] + rest, k)
        } else {
            (Seq::empty(), i)
        },
    }
}

/// Parsing `,pattern` groups at `i` until one fails.
pub open spec fn spec_parse_pattern_forest_tail(s: Seq<u8>, i: int) -> (Seq<PatternView>, int)
    decreases s.len() - i, 1int,
{
    if 0 <= i < s.len() && s[i] == 44 {
        match spec_parse_pattern(s, i + 1) {
            None => (Seq::empty(), i),
            Some((p, j)) => if i + 1 < j <= s.len() {
                let (rest, k) = spec_parse_pattern_forest_tail(s, j);
                (seq![p] + rest, k)
            } else {
                (Seq::empty(), i)
            },
        }
    } else {
        (Seq::empty(), i)
    }
}

proof fn lemma_digits_end_bounds(s: Seq<u8>, i: int)
    requires
        0 <= i <= s.len(),
    ensures
        i <= digits_end(s, i) <= s.len(),
    decreases s.len() - i,
{
    if i < s.len() && is_digit(s[i]) {
        lemma_digits_end_bounds(s, i + 1);
    }
}

proof fn lemma_alpha_end_bounds(s: Seq<u8>, i: int)
    requires
        0 <= i <= s.len(),
    ensures
        i <= alpha_end(s, i) <= s.len(),
    decreases s.len() - i,
{
    if i < s.len() && is_alpha(s[i]) {
        lemma_alpha_end_bounds(s, i + 1);
    }
}

/// A longer digit run never denotes a smaller number.
proof fn lemma_digits_value_monotone(s: Seq<u8>, i: int, j1: int, j2: int)
    requires
        i <= j1 <= j2,
    ensures
        digits_value(s, i, j1) <= digits_value(s, i, j2),
    decreases j2 - j1,
{
    if j1 < j2 {
        lemma_digits_value_monotone(s, i, j1, j2 - 1);
    }
}

/// A parsed tree consumes at least one byte and stays within the input.
proof fn lemma_parse_tree_consumes(s: Seq<u8>, i: int)
    requires
        0 <= i <= s.len(),
    ensures
        (match spec_parse_tree(s, i) {
            Some((t, j)) => i < j <= s.len(),
            None => true,
        }),
    decreases s.len() - i, 0int,
{
    lemma_digits_end_bounds(s, i);
    match spec_parse_u32(s, i) {
        None => {
        },
        Some((value, j)) => {
            if i < j && j < s.len() && s[j] == 91 {
                lemma_parse_forest_consumes(s, j + 1);
            }
        },
    }
}

proof fn lemma_parse_forest_consumes(s: Seq<u8>, i: int)
    requires
        0 <= i <= s.len(),
    ensures
        i <= spec_parse_forest(s, i).1 <= s.len(),
    decreases s.len() - i, 2int,
{
    lemma_parse_tree_consumes(s, i);
    match spec_parse_tree(s, i) {
        None => {
        },
        Some((t, j)) => {
            if i < j <= s.len() {
                lemma_parse_forest_tail_consumes(s, j);
            }
        },
    }
}

proof fn lemma_parse_forest_tail_consumes(s: Seq<u8>, i: int)
    requires
        0 <= i <= s.len(),
    ensures
        i <= spec_parse_forest_tail(s, i).1 <= s.len(),
    decreases s.len() - i, 1int,
{
    if 0 <= i < s.len() && s[i] == 44 {
        lemma_parse_tree_consumes(s, i + 1);
        match spec_parse_tree(s, i + 1) {
            None => {
            },
            Some((t, j)) => {
                if i + 1 < j <= s.len() {
                    lemma_parse_forest_tail_consumes(s, j);
                }
            },
        }
    }
}

/// Parses a label at `i`.
fn parse_u32_at(s: &Vec<u8>, i: usize) -> (r: Option<(u32, usize)>)
    requires
        i <= s@.len(),
    ensures
        (match r {
            Some((v, j)) => spec_parse_u32(s@, i as int) == Some((v, j as int)) && i < j <= s@.len(),
            None => spec_parse_u32(s@, i as int) is None,
        }),
{
    let ghost jend = digits_end(s@, i as int);
    proof {
        lemma_digits_end_bounds(s@, i as int);
    }
    let n = s.len();
    if i == n || !(48 <= s[i] && s[i] <= 57) {
        return None;
    }
    proof {
        assert(digits_end(s@, i as int) == digits_end(s@, i as int + 1));
        lemma_digits_end_bounds(s@, i as int + 1);
    }
    let mut j: usize = i;
    let mut acc: u64 = 0;
    #[verifier::loop_isolation(false)]
    while j < n && 48 <= s[j] && s[j] <= 57
        invariant
            i <= j <= n,
            jend == digits_end(s@, j as int),
            acc == digits_value(s@, i as int, j as int),
            acc <= u32::MAX as u64,
        decreases n - j,
    {
        let d = (s[j] - 48) as u64;
        proof {
            assert(digits_end(s@, j as int) == digits_end(s@, j as int + 1));
            lemma_digits_end_bounds(s@, j as int + 1);
        }
        acc = acc * 10 + d;
        j += 1;
        proof {
            assert(acc == digits_value(s@, i as int, j as int));
        }
        if acc > u32::MAX as u64 {
            proof {
                lemma_digits_value_monotone(s@, i as int, j as int, jend);
            }
            return None;
        }
    }
    proof {
        assert(jend == j as int);
    }
    Some((acc as u32, j))
}

/// Parses a tree at `i`.
fn parse_tree_at(s: &Vec<u8>, i: usize) -> (r: Option<(Tree, usize)>)
    requires
        i <= s@.len(),
    ensures
        (match r {
            Some((t, j)) => spec_parse_tree(s@, i as int) == Some((t@, j as int)) && i < j
                <= s@.len(),
            None => spec_parse_tree(s@, i as int) is None,
        }),
    decreases s@.len() - i, 0int,
{
    let (value, j) = match parse_u32_at(s, i) {
        Some(p) => p,
        None => {
            return None;
        },
    };
    if j < s.len() && s[j] == 91 {
        let mut children: Vec<Tree> = Vec::new();
        let k = parse_forest_at(s, j + 1, &mut children);
        if k < s.len() && s[k] == 93 {
            let tree = Tree { value, children };
            proof {
                assert(tree@ == (TreeView {
                    value,
                    children: spec_parse_forest(s@, j as int + 1).0,
                }));
            }
            Some((tree, k + 1))
        } else {
            let tree = Tree { value, children: Vec::new() };
            proof {
                assert(tree@ == (TreeView { value, children: Seq::<TreeView>::empty() }));
            }
            Some((tree, j))
        }
    } else {
        let tree = Tree { value, children: Vec::new() };
        proof {
            assert(tree@ == (TreeView { value, children: Seq::<TreeView>::empty() }));
        }
        Some((tree, j))
    }
}

/// Parses a comma-separated list of trees at `i`, appending them to `out`.
fn parse_forest_at(s: &Vec<u8>, i: usize, out: &mut Vec<Tree>) -> (k: usize)
    requires
        i <= s@.len(),
    ensures
        forest_view(final(out)@) == forest_view(old(out)@) + spec_parse_forest(s@, i as int).0,
        k as int == spec_parse_forest(s@, i as int).1,
        i <= k <= s@.len(),
    decreases s@.len() - i, 2int,
{
    match parse_tree_at(s, i) {
        None => {
            proof {
                assert(forest_view(out@) =~= forest_view(out@) + Seq::<TreeView>::empty());
            }
            i
        },
        Some((t, j)) => {
            let ghost t_view = t@;
            out.push(t);
            proof {
                assert(out@.drop_last() =~= old(out)@);
                assert(forest_view(out@) == forest_view(old(out)@).push(t_view));
            }
            let k = parse_forest_tail_at(s, j, out);
            proof {
                assert(forest_view(out@) =~= forest_view(old(out)@) + (seq![t_view]
                    + spec_parse_forest_tail(s@, j as int).0));
            }
            k
        },
    }
}

/// Parses `,tree` groups at `i` until one fails, appending them to `out`.
fn parse_forest_tail_at(s: &Vec<u8>, i: usize, out: &mut Vec<Tree>) -> (k: usize)
    requires
        i <= s@.len(),
    ensures
        forest_view(final(out)@) == forest_view(old(out)@) + spec_parse_forest_tail(
            s@,
            i as int,
        ).0,
        k as int == spec_parse_forest_tail(s@, i as int).1,
        i <= k <= s@.len(),
    decreases s@.len() - i, 1int,
{
    if i < s.len() && s[i] == 44 {
        match parse_tree_at(s, i + 1) {
            None => {
                proof {
                    assert(forest_view(out@) =~= forest_view(out@) + Seq::<TreeView>::empty());
                }
                i
            },
            Some((t, j)) => {
                let ghost t_view = t@;
                out.push(t);
                proof {
                    assert(out@.drop_last() =~= old(out)@);
                    assert(forest_view(out@) == forest_view(old(out)@).push(t_view));
                }
                let k = parse_forest_tail_at(s, j, out);
                proof {
                    assert(forest_view(out@) =~= forest_view(old(out)@) + (seq![t_view]
                        + spec_parse_forest_tail(s@, j as int).0));
                }
                k
            },
        }
    } else {
        proof {
            assert(forest_view(out@) =~= forest_view(out@) + Seq::<TreeView>::empty());
        }
        i
    }
}

/// Parses a pattern at `i`.
fn parse_pattern_at(s: &Vec<u8>, i: usize) -> (r: Option<(Pattern, usize)>)
    requires
        i <= s@.len(),
    ensures
        (match r {
            Some((p, j)) => spec_parse_pattern(s@, i as int) == Some((p@, j as int)) && i < j
                <= s@.len(),
            None => spec_parse_pattern(s@, i as int) is None,
        }),
    decreases s@.len() - i, 0int,
{
    let n = s.len();
    if i < n && ((65 <= s[i] && s[i] <= 90) || (97 <= s[i] && s[i] <= 122)) {
        let ghost jend = alpha_end(s@, i as int);
        proof {
            assert(alpha_end(s@, i as int) == alpha_end(s@, i as int + 1));
            lemma_alpha_end_bounds(s@, i as int + 1);
        }
        let mut j: usize = i;
        let mut name: Vec<u8> = Vec::new();
        #[verifier::loop_isolation(false)]
        while j < n && ((65 <= s[j] && s[j] <= 90) || (97 <= s[j] && s[j] <= 122))
            invariant
                i <= j <= n,
                jend == alpha_end(s@, j as int),
                name@ == s@.subrange(i as int, j as int),
            decreases n - j,
        {
            proof {
                assert(alpha_end(s@, j as int) == alpha_end(s@, j as int + 1));
                lemma_alpha_end_bounds(s@, j as int + 1);
            }
            name.push(s[j]);
            j += 1;
            proof {
                assert(name@ =~= s@.subrange(i as int, j as int));
            }
        }
        proof {
            assert(jend == j as int);
        }
        Some((Pattern::Var(name), j))
    } else {
        let (value, j) = match parse_u32_at(s, i) {
            Some(p) => p,
            None => {
                return None;
            },
        };
        if j < s.len() && s[j] == 91 {
            let mut children: Vec<Pattern> = Vec::new();
            let k = parse_pattern_forest_at(s, j + 1, &mut children);
            if k < s.len() && s[k] == 93 {
                let pat = Pattern::Node { value, children };
                proof {
                    assert(pat@ == (PatternView::Node {
                        value,
                        children: spec_parse_pattern_forest(s@, j as int + 1).0,
                    }));
                }
                Some((pat, k + 1))
            } else {
                let pat = Pattern::Node { value, children: Vec::new() };
                proof {
                    assert(pat@ == (PatternView::Node {
                        value,
                        children: Seq::<PatternView>::empty(),
                    }));
                }
                Some((pat, j))
            }
        } else {
            let pat = Pattern::Node { value, children: Vec::new() };
            proof {
                assert(pat@ == (PatternView::Node {
                    value,
                    children: Seq::<PatternView>::empty(),
                }));
            }
            Some((pat, j))
        }
    }
}

/// Parses a comma-separated list of patterns at `i`, appending them to
/// `out`.
fn parse_pattern_forest_at(s: &Vec<u8>, i: usize, out: &mut Vec<Pattern>) -> (k: usize)
    requires
        i <= s@.len(),
    ensures
        pattern_forest_view(final(out)@) == pattern_forest_view(old(out)@)
            + spec_parse_pattern_forest(s@, i as int).0,
        k as int == spec_parse_pattern_forest(s@, i as int).1,
        i <= k <= s@.len(),
    decreases s@.len() - i, 2int,
{
    match parse_pattern_at(s, i) {
        None => {
            proof {
                assert(pattern_forest_view(out@) =~= pattern_forest_view(out@) + Seq::<
                    PatternView,
                >::empty());
            }
            i
        },
        Some((p, j)) => {
            let ghost p_view = p@;
            out.push(p);
            proof {
                assert(out@.drop_last() =~= old(out)@);
                assert(pattern_forest_view(out@) == pattern_forest_view(old(out)@).push(p_view));
            }
            let k = parse_pattern_forest_tail_at(s, j, out);
            proof {
                assert(pattern_forest_view(out@) =~= pattern_forest_view(old(out)@) + (seq![p_view]
                    + spec_parse_pattern_forest_tail(s@, j as int).0));
            }
            k
        },
    }
}

/// Parses `,pattern` groups at `i` until one fails, appending them to
/// `out`.
fn parse_pattern_forest_tail_at(s: &Vec<u8>, i: usize, out: &mut Vec<Pattern>) -> (k: usize)
    requires
        i <= s@.len(),
    ensures
        pattern_forest_view(final(out)@) == pattern_forest_view(old(out)@)
            + spec_parse_pattern_forest_tail(s@, i as int).0,
        k as int == spec_parse_pattern_forest_tail(s@, i as int).1,
        i <= k <= s@.len(),
    decreases s@.len() - i, 1int,
{
    if i < s.len() && s[i] == 44 {
        match parse_pattern_at(s, i + 1) {
            None => {
                proof {
                    assert(pattern_forest_view(out@) =~= pattern_forest_view(out@) + Seq::<
                        PatternView,
                    >::empty());
                }
                i
            },
            Some((p, j)) => {
                let ghost p_view = p@;
                out.push(p);
                proof {
                    assert(out@.drop_last() =~= old(out)@);
                    assert(pattern_forest_view(out@) == pattern_forest_view(old(out)@).push(
                        p_view,
                    ));
                }
                let k = parse_pattern_forest_tail_at(s, j, out);
                proof {
                    assert(pattern_forest_view(out@) =~= pattern_forest_view(old(out)@) + (seq![
                        p_view,
                    ] + spec_parse_pattern_forest_tail(s@, j as int).0));
                }
                k
            },
        }
    } else {
        proof {
            assert(pattern_forest_view(out@) =~= pattern_forest_view(out@) + Seq::<
                PatternView,
            >::empty());
        }
        i
    }
}

/// Parses a tree from the start of `s`: the tree and how many bytes it
/// took, or nothing where no tree starts the input.
pub fn parse_tree(s: &Vec<u8>) -> (r: Option<(Tree, usize)>)
    ensures
        (match r {
            Some((t, n)) => spec_parse_tree(s@, 0) == Some((t@, n as int)) && 0 < n <= s@.len(),
            None => spec_parse_tree(s@, 0) is None,
        }),
{
    parse_tree_at(s, 0)
}

/// Parses a pattern from the start of `s`: the pattern and how many bytes
/// it took, or nothing where no pattern starts the input.
pub fn parse_pattern(s: &Vec<u8>) -> (r: Option<(Pattern, usize)>)
    ensures
        (match r {
            Some((p, n)) => spec_parse_pattern(s@, 0) == Some((p@, n as int)) && 0 < n <= s@.len(),
            None => spec_parse_pattern(s@, 0) is None,
        }),
{
    parse_pattern_at(s, 0)
}

} // verus!
