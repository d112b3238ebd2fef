use goal::display::print_tree;
use goal::model::{Goal, GoalError, GoalKind, ModifyParent};
use goal::priority::compute_priority_order;
use goal::store::Store;

fn ts(n: u32) -> String {
    format!("2024-01-01 00:{:02}:{:02}", n / 60, n % 60)
}

fn add(s: &mut Store, body: &str, n: u32) -> String {
    s.add_goal(body, None, &GoalKind::Achievable, &ts(n)).expect("add_goal")
}

/// The bodies of the goals as the listing prints them, in its order.
fn listed(s: &Store) -> Vec<String> {
    let text = print_tree(&s.all_goals(), &s.all_priority_edges(), &s.goal_rowids());
    text.lines()
        .map(|l| l.trim_start().splitn(3, "  ").nth(2).unwrap().to_string())
        .collect()
}

fn pos(v: &[String], body: &str) -> usize {
    v.iter().position(|b| b == body).unwrap()
}

#[test]
fn prioritize_basic() {
    let mut s = Store::new();
    let a = add(&mut s, "goal A", 1);
    let b = add(&mut s, "goal B", 2);
    let before = listed(&s);
    assert!(pos(&before, "goal B") < pos(&before, "goal A"), "newer B first before ranking");
    s.add_priority_edge(&a, &b, &ts(3)).unwrap();
    let after = listed(&s);
    assert!(pos(&after, "goal A") < pos(&after, "goal B"), "A first after ranking");
}

#[test]
fn prioritize_cycle_direct() {
    let mut s = Store::new();
    let a = add(&mut s, "goal A", 1);
    let b = add(&mut s, "goal B", 2);
    s.add_priority_edge(&a, &b, &ts(3)).unwrap();
    assert!(matches!(s.add_priority_edge(&b, &a, &ts(4)), Err(GoalError::PriorityCycle)));
}

#[test]
fn prioritize_cycle_transitive() {
    let mut s = Store::new();
    let a = add(&mut s, "goal A", 1);
    let b = add(&mut s, "goal B", 2);
    let c = add(&mut s, "goal C", 3);
    s.add_priority_edge(&a, &b, &ts(4)).unwrap();
    s.add_priority_edge(&b, &c, &ts(5)).unwrap();
    assert!(s.would_create_cycle(&c, &a));
    assert!(matches!(s.add_priority_edge(&c, &a, &ts(6)), Err(GoalError::PriorityCycle)));
}

#[test]
fn prioritize_self_loop() {
    let mut s = Store::new();
    let a = add(&mut s, "goal A", 1);
    assert!(matches!(s.add_priority_edge(&a, &a, &ts(2)), Err(GoalError::SelfPriority)));
}

#[test]
fn prioritize_duplicate() {
    let mut s = Store::new();
    let a = add(&mut s, "goal A", 1);
    let b = add(&mut s, "goal B", 2);
    s.add_priority_edge(&a, &b, &ts(3)).unwrap();
    assert!(matches!(s.add_priority_edge(&a, &b, &ts(4)), Err(GoalError::EdgeExists(_, _))));
}

#[test]
fn prioritize_unknown_goal_fails() {
    let mut s = Store::new();
    let a = add(&mut s, "goal A", 1);
    assert!(matches!(s.add_priority_edge(&a, "a0nothere", &ts(2)), Err(GoalError::NoGoal(ref x)) if x == "a0nothere"));
}

#[test]
fn deprioritize_reverts_ordering() {
    let mut s = Store::new();
    let a = add(&mut s, "goal A", 1);
    let b = add(&mut s, "goal B", 2);
    s.add_priority_edge(&a, &b, &ts(3)).unwrap();
    s.remove_priority_edge(&a, &b, &ts(4)).unwrap();
    let r = listed(&s);
    assert!(pos(&r, "goal B") < pos(&r, "goal A"));
}

#[test]
fn deprioritize_nonexistent_fails() {
    let mut s = Store::new();
    let a = add(&mut s, "goal A", 1);
    let b = add(&mut s, "goal B", 2);
    assert!(matches!(s.remove_priority_edge(&a, &b, &ts(3)), Err(GoalError::NoEdge(_, _))));
}

#[test]
fn undo_prioritize() {
    let mut s = Store::new();
    let a = add(&mut s, "goal A", 1);
    let b = add(&mut s, "goal B", 2);
    s.add_priority_edge(&a, &b, &ts(3)).unwrap();
    s.undo_last().unwrap();
    assert!(s.all_priority_edges().is_empty());
    let r = listed(&s);
    assert!(pos(&r, "goal B") < pos(&r, "goal A"));
}

#[test]
fn undo_deprioritize() {
    let mut s = Store::new();
    let a = add(&mut s, "goal A", 1);
    let b = add(&mut s, "goal B", 2);
    s.add_priority_edge(&a, &b, &ts(3)).unwrap();
    s.remove_priority_edge(&a, &b, &ts(4)).unwrap();
    s.undo_last().unwrap();
    assert_eq!(s.all_priority_edges(), vec![(a.clone(), b.clone())]);
    let r = listed(&s);
    assert!(pos(&r, "goal A") < pos(&r, "goal B"));
}

#[test]
fn undo_delete_restores_edges() {
    let mut s = Store::new();
    let a = add(&mut s, "goal A", 1);
    let b = add(&mut s, "goal B", 2);
    s.add_priority_edge(&a, &b, &ts(3)).unwrap();
    s.remove_goal(&a, &ts(4)).unwrap();
    s.undo_last().unwrap();
    let r = listed(&s);
    assert!(pos(&r, "goal A") < pos(&r, "goal B"), "{:?}", r);
}

#[test]
fn delete_middle_collapses_transitively() {
    let mut s = Store::new();
    let a = add(&mut s, "goal A", 1);
    let b = add(&mut s, "goal B", 2);
    let c = add(&mut s, "goal C", 3);
    s.add_priority_edge(&a, &b, &ts(4)).unwrap();
    s.add_priority_edge(&b, &c, &ts(5)).unwrap();
    s.remove_goal(&b, &ts(6)).unwrap();
    assert!(s.all_priority_edges().contains(&(a.clone(), c.clone())));
    let r = listed(&s);
    assert!(!r.contains(&"goal B".to_string()));
    assert!(pos(&r, "goal A") < pos(&r, "goal C"), "{:?}", r);
}

#[test]
fn undo_delete_middle_restores_original_edges() {
    let mut s = Store::new();
    let a = add(&mut s, "goal A", 1);
    let b = add(&mut s, "goal B", 2);
    let c = add(&mut s, "goal C", 3);
    s.add_priority_edge(&a, &b, &ts(4)).unwrap();
    s.add_priority_edge(&b, &c, &ts(5)).unwrap();
    s.remove_goal(&b, &ts(6)).unwrap();
    s.undo_last().unwrap();
    let edges = s.all_priority_edges();
    assert!(!edges.contains(&(a.clone(), c.clone())), "the collapsing edge is taken out again");
    assert!(edges.contains(&(a.clone(), b.clone())));
    assert!(edges.contains(&(b.clone(), c.clone())));
    let r = listed(&s);
    assert!(pos(&r, "goal A") < pos(&r, "goal B"));
    assert!(pos(&r, "goal B") < pos(&r, "goal C"));
}

#[test]
fn tiebreak_newer_higher_priority() {
    let mut s = Store::new();
    add(&mut s, "goal A", 1);
    add(&mut s, "goal B", 2);
    let r = listed(&s);
    assert!(pos(&r, "goal B") < pos(&r, "goal A"));
}

#[test]
fn linked_beats_unlinked() {
    let mut s = Store::new();
    let a = add(&mut s, "goal A", 1);
    let b = add(&mut s, "goal B", 2);
    add(&mut s, "goal C", 3);
    s.add_priority_edge(&a, &b, &ts(4)).unwrap();
    let r = listed(&s);
    assert!(pos(&r, "goal A") < pos(&r, "goal C"), "{:?}", r);
}

#[test]
fn done_goals_excluded_from_list() {
    let mut s = Store::new();
    let a = add(&mut s, "goal A", 1);
    add(&mut s, "goal B", 2);
    s.set_achieved(&a, true, &ts(3)).unwrap();
    let r = listed(&s);
    assert!(!r.contains(&"goal A".to_string()));
    assert!(r.contains(&"goal B".to_string()));
}

#[test]
fn long_chain_ordering() {
    let mut s = Store::new();
    let ids: Vec<String> = ["goal A", "goal B", "goal C", "goal D", "goal E"]
        .iter()
        .enumerate()
        .map(|(i, b)| add(&mut s, b, i as u32 + 1))
        .collect();
    for i in 0..4 {
        s.add_priority_edge(&ids[i], &ids[i + 1], &ts(10 + i as u32)).unwrap();
    }
    let r = listed(&s);
    assert_eq!(r, vec!["goal A", "goal B", "goal C", "goal D", "goal E"]);
}

#[test]
fn diamond_ordering() {
    let mut s = Store::new();
    let a = add(&mut s, "goal A", 1);
    let b = add(&mut s, "goal B", 2);
    let c = add(&mut s, "goal C", 3);
    let d = add(&mut s, "goal D", 4);
    s.add_priority_edge(&a, &b, &ts(5)).unwrap();
    s.add_priority_edge(&a, &c, &ts(6)).unwrap();
    s.add_priority_edge(&b, &d, &ts(7)).unwrap();
    s.add_priority_edge(&c, &d, &ts(8)).unwrap();
    let r = listed(&s);
    assert!(pos(&r, "goal A") < pos(&r, "goal D"));
    // Among the free goals B and C, the newer comes first.
    assert_eq!(r, vec!["goal A", "goal C", "goal B", "goal D"]);
}

#[test]
fn reparent_migrates_edges() {
    let mut s = Store::new();
    let a = add(&mut s, "goal A", 1);
    let b = add(&mut s, "goal B", 2);
    s.add_priority_edge(&a, &b, &ts(3)).unwrap();
    let new_a = s.modify_goal(&a, None, &ModifyParent::Keep, Some(GoalKind::Continuous), &ts(4)).unwrap();
    assert_ne!(a, new_a);
    assert!(matches!(s.add_priority_edge(&b, &new_a, &ts(5)), Err(GoalError::PriorityCycle)));
}

#[test]
fn prioritize_then_done() {
    let mut s = Store::new();
    let a = add(&mut s, "goal A", 1);
    let b = add(&mut s, "goal B", 2);
    s.add_priority_edge(&a, &b, &ts(3)).unwrap();
    s.set_achieved(&a, true, &ts(4)).unwrap();
    let r = listed(&s);
    assert_eq!(r, vec!["goal B"]);
}

#[test]
fn rank_interactive_records_edge() {
    let mut s = Store::new();
    add(&mut s, "goal A", 1);
    add(&mut s, "goal B", 2);
    let pairs = s.unranked_pairs();
    assert_eq!(pairs.len(), 1);
    let (x, y) = (pairs[0].0.id.clone(), pairs[0].1.id.clone());
    s.add_priority_edge(&x, &y, &ts(3)).unwrap();
    assert!(s.unranked_pairs().is_empty());
}

#[test]
fn rank_interactive_skips_transitively_ranked() {
    let mut s = Store::new();
    let a = add(&mut s, "goal A", 1);
    let b = add(&mut s, "goal B", 2);
    let c = add(&mut s, "goal C", 3);
    s.add_priority_edge(&a, &b, &ts(4)).unwrap();
    s.add_priority_edge(&b, &c, &ts(5)).unwrap();
    assert!(s.unranked_pairs().is_empty());
}

#[test]
fn rank_interactive_no_pairs_when_all_ranked() {
    let mut s = Store::new();
    let a = add(&mut s, "goal A", 1);
    let b = add(&mut s, "goal B", 2);
    s.add_priority_edge(&a, &b, &ts(3)).unwrap();
    assert!(s.unranked_pairs().is_empty());
}

#[test]
fn unranked_pairs_lists_pending_pairs_by_id() {
    let mut s = Store::new();
    let a = add(&mut s, "goal A", 1);
    let b = add(&mut s, "goal B", 2);
    let c = add(&mut s, "goal C", 3);
    s.set_achieved(&c, true, &ts(4)).unwrap();
    let pairs = s.unranked_pairs();
    assert_eq!(pairs.len(), 1);
    let (lo, hi) = if a < b { (a, b) } else { (b, a) };
    assert_eq!(pairs[0].0.id, lo);
    assert_eq!(pairs[0].1.id, hi);
}

#[test]
fn priority_order_with_cycle_keeps_every_goal() {
    let g = |id: &str| Goal {
        id: id.to_string(),
        parent_id: None,
        body: String::new(),
        achieved: false,
        kind: GoalKind::Achievable,
    };
    let goals = vec![g("a0x"), g("a0y"), g("a0z")];
    let edges = vec![
        ("a0x".to_string(), "a0y".to_string()),
        ("a0y".to_string(), "a0x".to_string()),
    ];
    let rowids = vec![("a0x".to_string(), 1), ("a0y".to_string(), 2), ("a0z".to_string(), 3)];
    let order = compute_priority_order(&goals, &edges, &rowids);
    // z is free; x and y wait on each other and come last, in their order.
    assert_eq!(order, vec!["a0z".to_string(), "a0x".to_string(), "a0y".to_string()]);
}

#[test]
fn unranked_pairs_see_rankings_through_done_goals() {
    let mut s = Store::new();
    let a = add(&mut s, "goal A", 1);
    let x = add(&mut s, "goal X", 2);
    let b = add(&mut s, "goal B", 3);
    s.add_priority_edge(&a, &x, &ts(4)).unwrap();
    s.add_priority_edge(&x, &b, &ts(5)).unwrap();
    s.set_achieved(&x, true, &ts(6)).unwrap();
    // A is ranked above B through the done goal X: the pair is ordered.
    assert!(s.unranked_pairs().is_empty());
}

#[test]
fn unranked_pairs_skip_rankings_left_by_deleted_goals() {
    let mut s = Store::new();
    let a = add(&mut s, "goal A", 1);
    let p = add(&mut s, "goal P", 2);
    let c = s.add_goal("goal C", Some(&p), &GoalKind::Achievable, &ts(3)).unwrap();
    let b = add(&mut s, "goal B", 4);
    s.add_priority_edge(&a, &p, &ts(5)).unwrap();
    s.add_priority_edge(&p, &c, &ts(6)).unwrap();
    s.add_priority_edge(&c, &b, &ts(7)).unwrap();
    s.remove_goal(&p, &ts(8)).unwrap();
    // A > P > C > B now runs only through deleted goals: A and B are unranked.
    let pairs = s.unranked_pairs();
    assert_eq!(pairs.len(), 1);
    let (lo, hi) = if a < b { (a, b) } else { (b, a) };
    assert_eq!(pairs[0].0.id, lo);
    assert_eq!(pairs[0].1.id, hi);
}
