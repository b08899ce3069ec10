use rewriter::building::subst;
use rewriter::engine::{Engine, EngineError, RuleStore};
use rewriter::matching::{identify, try_match, Binding};
use rewriter::parse::{parse_pattern, parse_tree};
use rewriter::render::{render_pattern, render_tree};
use rewriter::tree::{Pattern, Tree};

fn tree(text: &str) -> Tree {
    let bytes = text.as_bytes().to_vec();
    let (t, n) = parse_tree(&bytes).expect("tree should parse");
    assert_eq!(n, bytes.len(), "tree text should parse whole");
    t
}

fn pattern(text: &str) -> Pattern {
    let bytes = text.as_bytes().to_vec();
    let (p, n) = parse_pattern(&bytes).expect("pattern should parse");
    assert_eq!(n, bytes.len(), "pattern text should parse whole");
    p
}

fn rendered(t: &Tree) -> String {
    String::from_utf8(render_tree(t)).expect("rendering is ASCII")
}

#[test]
fn scenario_swap_children() {
    let mut rules = RuleStore::new();
    rules.add(pattern("1[a,b]"), pattern("1[b,a]"));
    let mut engine = Engine::new(rules, tree("1[2,3]"));
    let next = engine.step(0).expect("rule applies");
    assert_eq!(rendered(&next), "1[3,2]");
    assert_eq!(rendered(engine.current()), "1[3,2]");
}

#[test]
fn scenario_grow_children() {
    let mut rules = RuleStore::new();
    rules.add(pattern("5"), pattern("5[1,2]"));
    let mut engine = Engine::new(rules, tree("5"));
    let next = engine.step(0).expect("rule applies");
    assert_eq!(rendered(&next), "5[1,2]");
}

#[test]
fn scenario_label_mismatch_leaves_tree() {
    let mut rules = RuleStore::new();
    rules.add(pattern("1[a]"), pattern("a"));
    let mut engine = Engine::new(rules, tree("2[3]"));
    assert!(matches!(engine.step(0), Err(EngineError::NoMatch)));
    assert_eq!(rendered(engine.current()), "2[3]");
}

#[test]
fn scenario_arity_mismatch() {
    let mut rules = RuleStore::new();
    rules.add(pattern("1[a,b]"), pattern("1[a]"));
    let mut engine = Engine::new(rules, tree("1[2]"));
    assert!(matches!(engine.step(0), Err(EngineError::NoMatch)));
}

#[test]
fn scenario_index_out_of_range() {
    let mut rules = RuleStore::new();
    rules.add(pattern("1"), pattern("2"));
    rules.add(pattern("2"), pattern("3"));
    let mut engine = Engine::new(rules, tree("1"));
    assert!(matches!(engine.step(3), Err(EngineError::IndexOutOfRange)));
    assert_eq!(rendered(engine.current()), "1");
}

#[test]
fn unbound_variable_fails_loudly() {
    let empty = Binding::new();
    let var = Pattern::Var(b"x".to_vec());
    assert!(matches!(subst(&var, &empty), Err(EngineError::UnboundVariable)));
}

#[test]
fn unbound_variable_in_step() {
    let mut rules = RuleStore::new();
    rules.add(pattern("1[a]"), pattern("1[b]"));
    let mut engine = Engine::new(rules, tree("1[2]"));
    assert!(matches!(engine.step(0), Err(EngineError::UnboundVariable)));
    assert_eq!(rendered(engine.current()), "1[2]");
}

#[test]
fn match_succeeds_exactly_on_structure() {
    assert!(try_match(&pattern("1[2,3]"), &tree("1[2,3]")).is_some());
    assert!(try_match(&pattern("1[a,3]"), &tree("1[2,3]")).is_some());
    assert!(try_match(&pattern("2[2,3]"), &tree("1[2,3]")).is_none());
    assert!(try_match(&pattern("1[2]"), &tree("1[2,3]")).is_none());
    assert!(try_match(&pattern("1[2,4]"), &tree("1[2,3]")).is_none());
    assert!(try_match(&pattern("a"), &tree("1[2,3]")).is_some());
}

#[test]
fn match_is_root_level_only() {
    // the rule must match the entire tree, not a subtree of it
    assert!(try_match(&pattern("2"), &tree("1[2]")).is_none());
}

#[test]
fn round_trip_rebuilds_the_tree() {
    let p = pattern("1[x,y]");
    let t = tree("1[2[4],3]");
    let binding = try_match(&p, &t).expect("fully variable children match");
    let rebuilt = subst(&p, &binding).expect("all names bound");
    assert_eq!(rendered(&rebuilt), "1[2[4],3]");
}

#[test]
fn build_twice_gives_equal_trees_and_keeps_binding() {
    let p = pattern("1[x,x]");
    let t = tree("1[7,7]");
    let binding = try_match(&p, &t).expect("matches");
    let before = binding.get(&b"x".to_vec()).map(rendered);
    let first = subst(&p, &binding).expect("bound");
    let second = subst(&p, &binding).expect("bound");
    assert_eq!(rendered(&first), rendered(&second));
    let after = binding.get(&b"x".to_vec()).map(rendered);
    assert_eq!(before, after);
}

#[test]
fn repeated_name_keeps_the_last_capture() {
    // a repeated capture name does not force equal subtrees: the later
    // occurrence overwrites the earlier binding
    let p = pattern("1[x,x]");
    let t = tree("1[2,3]");
    let mut vars = Binding::new();
    assert!(identify(&t, &p, &mut vars));
    let bound = vars.get(&b"x".to_vec()).expect("x is bound");
    assert_eq!(rendered(bound), "3");
    let built = subst(&p, &vars).expect("bound");
    assert_eq!(rendered(&built), "1[3,3]");
}

#[test]
fn binding_insert_and_lookup() {
    let mut vars = Binding::new();
    assert!(vars.get(&b"x".to_vec()).is_none());
    vars.insert(b"x".to_vec(), tree("1"));
    vars.insert(b"y".to_vec(), tree("2[3]"));
    vars.insert(b"x".to_vec(), tree("4"));
    assert_eq!(vars.get(&b"x".to_vec()).map(rendered), Some("4".to_string()));
    assert_eq!(vars.get(&b"y".to_vec()).map(rendered), Some("2[3]".to_string()));
    assert!(vars.get(&b"z".to_vec()).is_none());
}

#[test]
fn rule_store_indices_are_stable() {
    let mut rules = RuleStore::new();
    assert_eq!(rules.add(pattern("1"), pattern("2")), 0);
    assert_eq!(rules.add(pattern("2"), pattern("3")), 1);
    assert_eq!(rules.len(), 2);
    assert!(rules.get(1).is_ok());
    assert!(matches!(rules.get(2), Err(EngineError::IndexOutOfRange)));
}

#[test]
fn steps_compose() {
    let mut rules = RuleStore::new();
    rules.add(pattern("1[a,b]"), pattern("1[b,a]"));
    rules.add(pattern("1[a,b]"), pattern("2[a]"));
    let mut engine = Engine::new(rules, tree("1[8,9]"));
    engine.step(0).expect("swap applies");
    let next = engine.step(1).expect("second rule applies");
    assert_eq!(rendered(&next), "2[9]");
}

#[test]
fn parse_plain_label() {
    let (t, n) = parse_tree(&b"12".to_vec()).expect("parses");
    assert_eq!(n, 2);
    assert_eq!(rendered(&t), "12");
}

#[test]
fn parse_accepts_leading_zeros() {
    let (t, n) = parse_tree(&b"007".to_vec()).expect("parses");
    assert_eq!(n, 3);
    assert_eq!(rendered(&t), "7");
}

#[test]
fn parse_rejects_oversized_label() {
    assert!(parse_tree(&b"4294967296".to_vec()).is_none());
    let (t, _) = parse_tree(&b"4294967295".to_vec()).expect("largest label parses");
    assert_eq!(rendered(&t), "4294967295");
}

#[test]
fn parse_rejects_empty_and_nonsense() {
    assert!(parse_tree(&b"".to_vec()).is_none());
    assert!(parse_tree(&b"abc".to_vec()).is_none());
    assert!(parse_tree(&b"[1]".to_vec()).is_none());
}

#[test]
fn parse_stops_at_trailing_rest() {
    let (t, n) = parse_tree(&b"1[2,3]xyz".to_vec()).expect("parses a prefix");
    assert_eq!(n, 6);
    assert_eq!(rendered(&t), "1[2,3]");
}

#[test]
fn parse_malformed_group_falls_back_to_label() {
    let (t, n) = parse_tree(&b"1[2".to_vec()).expect("label parses");
    assert_eq!(n, 1);
    assert_eq!(rendered(&t), "1");
    let (t, n) = parse_tree(&b"1[2,]".to_vec()).expect("label parses");
    assert_eq!(n, 1);
    assert_eq!(rendered(&t), "1");
}

#[test]
fn parse_empty_brackets() {
    let (t, n) = parse_tree(&b"1[]".to_vec()).expect("parses");
    assert_eq!(n, 3);
    assert_eq!(rendered(&t), "1");
}

#[test]
fn parse_nested_tree() {
    let (t, n) = parse_tree(&b"10[2[3],4]".to_vec()).expect("parses");
    assert_eq!(n, 10);
    assert_eq!(rendered(&t), "10[2[3],4]");
}

#[test]
fn parse_pattern_variable() {
    let bytes = b"abc".to_vec();
    let (p, n) = parse_pattern(&bytes).expect("parses");
    assert_eq!(n, 3);
    assert_eq!(render_pattern(&p), b"abc".to_vec());
    assert!(matches!(p, Pattern::Var(name) if name == b"abc".to_vec()));
}

#[test]
fn parse_pattern_node_with_variables() {
    let bytes = b"1[a,2[b]]".to_vec();
    let (p, n) = parse_pattern(&bytes).expect("parses");
    assert_eq!(n, 9);
    assert_eq!(render_pattern(&p), b"1[a,2[b]]".to_vec());
}

#[test]
fn render_leaf_and_nested() {
    assert_eq!(rendered(&tree("0")), "0");
    assert_eq!(rendered(&tree("10[2[3],4]")), "10[2[3],4]");
}

#[test]
fn captured_subtree_is_duplicated_not_shared() {
    // one captured subtree may be referenced by several positions of the
    // rewrite result; each position holds its own copy
    let mut rules = RuleStore::new();
    rules.add(pattern("1[a]"), pattern("2[a,a]"));
    let mut engine = Engine::new(rules, tree("1[5[6]]"));
    let next = engine.step(0).expect("applies");
    assert_eq!(rendered(&next), "2[5[6],5[6]]");
}

#[test]
fn constructed_trees_render_like_parsed_ones() {
    let t = Tree::node(1, vec![Tree::leaf(2), Tree::node(3, vec![Tree::leaf(4)])]);
    assert_eq!(rendered(&t), "1[2,3[4]]");
    assert_eq!(rendered(&t), rendered(&tree("1[2,3[4]]")));
}
