//! The rule store and the rewriting session: an ordered, append-only list of
//! rules, a current tree, and one transition — apply the rule at a chosen
//! index to the whole current tree.

use vstd::prelude::*;

use crate::building::{spec_build, subst};
use crate::matching::{pattern_vars, spec_bind, spec_matches, try_match};
use crate::tree::{Pattern, PatternView, Tree, TreeView};

verus! {

/// Why a rewrite step was refused.
#[derive(Clone, Copy, Debug, PartialEq, Eq, Structural)]
pub enum EngineError {
    /// The requested rule index does not exist.
    IndexOutOfRange,
    /// The selected rule's left-hand pattern does not match the current
    /// tree at its root.
    NoMatch,
    /// The right-hand pattern refers to a capture name the match did not
    /// bind: the rule itself is malformed.
    UnboundVariable,
}

/// One permitted rewrite: match `from`, then instantiate `to`.
pub struct Rule {
    pub from: Pattern,
    pub to: Pattern,
}

/// Mathematical view of a rule.
#[verifier::ext_equal]
pub struct RuleView {
    pub from: PatternView,
    pub to: PatternView,
}

impl View for Rule {
    type V = RuleView;

    open spec fn view(&self) -> RuleView {
        RuleView { from: self.from@, to: self.to@ }
    }
}

/// An ordered, append-only list of rules, indexed by position.
pub struct RuleStore {
    rules: Vec<Rule>,
}

impl RuleStore {
    pub closed spec fn view(&self) -> Seq<RuleView> {
        self.rules@.map_values(|r: Rule| r@)
    }

    /// An empty store.
    pub fn new() -> (r: RuleStore)
        ensures
            r@ == Seq::<RuleView>::empty(),
    {
        let store = RuleStore { rules: Vec::new() };
        proof {
            assert(store@ =~= Seq::<RuleView>::empty());
        }
        store
    }

    /// Appends a rule and returns its index; indices are stable for the
    /// store's lifetime.
    pub fn add(&mut self, from: Pattern, to: Pattern) -> (index: usize)
        ensures
            final(self)@ == old(self)@.push(RuleView { from: from@, to: to@ }),
            index == old(self)@.len(),
    {
        let ghost from_v = from@;
        let ghost to_v = to@;
        let index = self.rules.len();
        self.rules.push(Rule { from, to });
        proof {
            assert(self@ =~= old(self)@.push(RuleView { from: from_v, to: to_v }));
        }
        index
    }

    /// How many rules the store holds.
    pub fn len(&self) -> (n: usize)
        ensures
            n == self@.len(),
    {
        self.rules.len()
    }

    /// The rule at `index`, or `IndexOutOfRange` if there is none.
    pub fn get(&self, index: usize) -> (r: Result<&Rule, EngineError>)
        ensures
            r is Ok <==> index < self@.len(),
            match r {
                Ok(rule) => rule@ == self@[index as int],
                Err(e) => e == EngineError::IndexOutOfRange,
            },
    {
        if index < self.rules.len() {
            Ok(&self.rules[index])
        } else {
            Err(EngineError::IndexOutOfRange)
        }
    }
}

/// Mathematical view of a session: the rules and the current tree.
#[verifier::ext_equal]
pub struct EngineView {
    pub rules: Seq<RuleView>,
    pub current: TreeView,
}

/// What one rewrite step yields on a given state: the next tree, or the
/// error that refuses it. The rule must match the entire current tree at
/// its root; there is no subterm search.
pub open spec fn spec_step(rules: Seq<RuleView>, current: TreeView, index: int) -> Result<
    TreeView,
    EngineError,
> {
    if !(0 <= index < rules.len()) {
        Err(EngineError::IndexOutOfRange)
    } else if !spec_matches(rules[index].from, current) {
        Err(EngineError::NoMatch)
    } else {
        let binding = spec_bind(rules[index].from, current, Map::empty());
        if !pattern_vars(rules[index].to).subset_of(binding.dom()) {
            Err(EngineError::UnboundVariable)
        } else {
            Ok(spec_build(rules[index].to, binding))
        }
    }
}

/// A rewriting session: a rule store and the current tree. The current tree
/// is replaced wholesale on each successful step; there is no history.
pub struct Engine {
    rules: RuleStore,
    current: Tree,
}

impl View for Engine {
    type V = EngineView;

    closed spec fn view(&self) -> EngineView {
        EngineView { rules: self.rules@, current: self.current@ }
    }
}

impl Engine {
    /// A session starting from `initial` with the given rules.
    pub fn new(rules: RuleStore, initial: Tree) -> (e: Engine)
        ensures
            e@.rules == rules@,
            e@.current == initial@,
    {
        Engine { rules, current: initial }
    }

    /// The current tree.
    pub fn current(&self) -> (t: &Tree)
        ensures
            t@ == self@.current,
    {
        &self.current
    }

    /// How many rules the session holds.
    pub fn rule_count(&self) -> (n: usize)
        ensures
            n == self@.rules.len(),
    {
        self.rules.len()
    }

    /// Applies the rule at `index` to the current tree: matches its
    /// left-hand pattern against the whole tree, builds its right-hand
    /// pattern from the captured bindings, and replaces the current tree
    /// with the result. On any failure the current tree is left unchanged.
    pub fn step(&mut self, index: usize) -> (r: Result<Tree, EngineError>)
        ensures
            match r {
                Ok(t) => spec_step(old(self)@.rules, old(self)@.current, index as int) == Ok::<
                    TreeView,
                    EngineError,
                >(t@) && final(self)@.current == t@,
                Err(e) => spec_step(old(self)@.rules, old(self)@.current, index as int) == Err::<
                    TreeView,
                    EngineError,
                >(e) && final(self)@ == old(self)@,
            },
            final(self)@.rules == old(self)@.rules,
    {
        let rule = match self.rules.get(index) {
            Ok(rule) => rule,
            Err(e) => {
                return Err(e);
            },
        };
        let binding = match try_match(&rule.from, &self.current) {
            Some(binding) => binding,
            None => {
                return Err(EngineError::NoMatch);
            },
        };
        match subst(&rule.to, &binding) {
            Ok(next) => {
                self.current = next;
                let result = self.current.clone();
                Ok(result)
            },
            Err(e) => Err(e),
        }
    }
}

} // verus!
