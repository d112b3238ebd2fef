use goal::display::print_tree;
use goal::model::{GoalError, GoalKind, ModifyParent};
use goal::store::Store;

fn ts(n: u32) -> String {
    format!("2024-01-01 00:{:02}:{:02}", n / 60, n % 60)
}

fn add(s: &mut Store, body: &str, parent: Option<&str>, kind: GoalKind, n: u32) -> String {
    s.add_goal(body, parent, &kind, &ts(n)).expect("add_goal")
}

fn list(s: &Store) -> String {
    print_tree(&s.all_goals(), &s.all_priority_edges(), &s.goal_rowids())
}

fn modify(s: &mut Store, id: &str, body: Option<&str>, parent: ModifyParent, kind: Option<GoalKind>, n: u32) -> Result<String, GoalError> {
    s.modify_goal(id, body, &parent, kind, &ts(n))
}

fn check_add_achievable_shows_in_list() {
    let mut s = Store::new();
    let id = add(&mut s, "learn rust", None, GoalKind::Achievable, 1);
    assert!(id.starts_with('a'), "id should start with 'a', got: {}", id);
    assert_eq!(&id[1..2], "0", "top-level depth should be 0, got: {}", id);
    assert_eq!(id.len(), 16);
    let out = list(&s);
    assert!(out.contains("[ ]"));
    assert!(out.contains("learn rust"));
}

#[test]
fn tests_add_achievable_shows_in_list() {
    check_add_achievable_shows_in_list();
}

#[test]
fn integration_add_achievable_shows_in_list() {
    check_add_achievable_shows_in_list();
}

fn check_add_continuous_shows_in_list() {
    let mut s = Store::new();
    let id = add(&mut s, "maintain health", None, GoalKind::Continuous, 1);
    assert!(id.starts_with('c'), "id should start with 'c', got: {}", id);
    let out = list(&s);
    assert!(out.contains("[~]"));
    assert!(out.contains("maintain health"));
}

#[test]
fn tests_add_continuous_shows_in_list() {
    check_add_continuous_shows_in_list();
}

#[test]
fn integration_add_continuous_shows_in_list() {
    check_add_continuous_shows_in_list();
}

fn check_add_subgoal_depth_increments() {
    let mut s = Store::new();
    let parent = add(&mut s, "parent goal", None, GoalKind::Achievable, 1);
    let child = add(&mut s, "child goal", Some(&parent), GoalKind::Achievable, 2);
    assert!(child.starts_with('a'));
    assert_eq!(&child[1..2], "1", "subgoal depth should be 1, got: {}", child);
    let out = list(&s);
    let parent_pos = out.find("parent goal").unwrap();
    let child_pos = out.find("child goal").unwrap();
    assert!(parent_pos < child_pos, "parent should appear before child");
}

#[test]
fn tests_add_subgoal_depth_increments() {
    check_add_subgoal_depth_increments();
}

#[test]
fn integration_add_subgoal_depth_increments() {
    check_add_subgoal_depth_increments();
}

fn check_done_and_undone() {
    let mut s = Store::new();
    let id = add(&mut s, "learn rust", None, GoalKind::Achievable, 1);
    s.set_achieved(&id, true, &ts(2)).unwrap();
    // Done goals are left out of the list; the goal itself shows its status.
    assert!(!list(&s).contains("learn rust"));
    assert!(s.get_goal(&id).unwrap().achieved);
    s.set_achieved(&id, false, &ts(3)).unwrap();
    assert!(list(&s).contains("[ ]"));
}

#[test]
fn tests_done_and_undone() {
    check_done_and_undone();
}

#[test]
fn integration_done_and_undone() {
    check_done_and_undone();
}

fn check_done_on_continuous_fails() {
    let mut s = Store::new();
    let id = add(&mut s, "maintain health", None, GoalKind::Continuous, 1);
    let r = s.set_achieved(&id, true, &ts(2));
    assert!(matches!(r, Err(GoalError::ContinuousGoal(ref x)) if *x == id));
}

#[test]
fn tests_done_on_continuous_fails() {
    check_done_on_continuous_fails();
}

#[test]
fn integration_done_on_continuous_fails() {
    check_done_on_continuous_fails();
}

fn check_rm_cascades_to_subgoals() {
    let mut s = Store::new();
    let parent = add(&mut s, "parent", None, GoalKind::Achievable, 1);
    add(&mut s, "child", Some(&parent), GoalKind::Achievable, 2);
    s.remove_goal(&parent, &ts(3)).unwrap();
    let out = list(&s);
    assert!(!out.contains("parent"));
    assert!(!out.contains("child"));
    assert!(s.all_goals().is_empty());
}

#[test]
fn tests_rm_cascades_to_subgoals() {
    check_rm_cascades_to_subgoals();
}

#[test]
fn integration_rm_cascades_to_subgoals() {
    check_rm_cascades_to_subgoals();
}

fn check_short_prefix_resolves() {
    let mut s = Store::new();
    let id = add(&mut s, "learn rust", None, GoalKind::Achievable, 1);
    let resolved = s.resolve_id(&id[..4]).unwrap();
    assert_eq!(resolved.id, id);
    assert!(resolved.renamed_from.is_none());
    s.set_achieved(&resolved.id, true, &ts(2)).unwrap();
    assert!(s.get_goal(&id).unwrap().achieved);
}

#[test]
fn tests_short_prefix_resolves() {
    check_short_prefix_resolves();
}

#[test]
fn integration_short_prefix_resolves() {
    check_short_prefix_resolves();
}

fn check_ambiguous_prefix_errors() {
    let mut s = Store::new();
    add(&mut s, "goal one", None, GoalKind::Achievable, 1);
    add(&mut s, "goal two", None, GoalKind::Achievable, 2);
    let r = s.resolve_id("a");
    assert!(matches!(r, Err(GoalError::AmbiguousPrefix(ref p, 2)) if p == "a"));
}

#[test]
fn tests_ambiguous_prefix_errors() {
    check_ambiguous_prefix_errors();
}

#[test]
fn integration_ambiguous_prefix_errors() {
    check_ambiguous_prefix_errors();
}

fn check_modify_body_only() {
    let mut s = Store::new();
    let id = add(&mut s, "old body", None, GoalKind::Achievable, 1);
    let out = modify(&mut s, &id, Some("new body"), ModifyParent::Keep, None, 2).unwrap();
    assert_eq!(out, id, "ID should not change on body-only modify");
    let l = list(&s);
    assert!(l.contains("new body"));
    assert!(!l.contains("old body"));
}

#[test]
fn tests_modify_body_only() {
    check_modify_body_only();
}

#[test]
fn integration_modify_body_only() {
    check_modify_body_only();
}

fn check_modify_kind_achievable_to_continuous() {
    let mut s = Store::new();
    let id = add(&mut s, "some goal", None, GoalKind::Achievable, 1);
    assert!(id.starts_with('a'));
    let new_id = modify(&mut s, &id, None, ModifyParent::Keep, Some(GoalKind::Continuous), 2).unwrap();
    assert!(new_id.starts_with('c'), "new ID should start with 'c', got: {}", new_id);
    assert_eq!(&new_id[2..], &id[2..], "the random part is kept");
    let l = list(&s);
    assert!(l.contains("[~]"));
    assert!(l.contains("some goal"));
}

#[test]
fn tests_modify_kind_achievable_to_continuous() {
    check_modify_kind_achievable_to_continuous();
}

#[test]
fn integration_modify_kind_achievable_to_continuous() {
    check_modify_kind_achievable_to_continuous();
}

fn check_modify_kind_continuous_to_achievable() {
    let mut s = Store::new();
    let id = add(&mut s, "some goal", None, GoalKind::Continuous, 1);
    assert!(id.starts_with('c'));
    let new_id = modify(&mut s, &id, None, ModifyParent::Keep, Some(GoalKind::Achievable), 2).unwrap();
    assert!(new_id.starts_with('a'), "new ID should start with 'a', got: {}", new_id);
    assert!(list(&s).contains("[ ]"));
}

#[test]
fn tests_modify_kind_continuous_to_achievable() {
    check_modify_kind_continuous_to_achievable();
}

#[test]
fn integration_modify_kind_continuous_to_achievable() {
    check_modify_kind_continuous_to_achievable();
}

fn check_modify_reparent() {
    let mut s = Store::new();
    let a = add(&mut s, "goal A", None, GoalKind::Achievable, 1);
    let b = add(&mut s, "goal B", None, GoalKind::Achievable, 2);
    assert_eq!(&b[1..2], "0");
    let new_b = modify(&mut s, &b, None, ModifyParent::Reparent(a.clone()), None, 3).unwrap();
    assert_eq!(&new_b[1..2], "1", "reparented goal should have depth 1, got: {}", new_b);
    let l = list(&s);
    assert!(l.contains("goal A"));
    assert!(l.contains("goal B"));
    assert_eq!(s.get_goal(&new_b).unwrap().parent_id, Some(a));
}

#[test]
fn tests_modify_reparent() {
    check_modify_reparent();
}

#[test]
fn integration_modify_reparent() {
    check_modify_reparent();
}

fn check_modify_reparent_updates_children() {
    let mut s = Store::new();
    let a = add(&mut s, "A", None, GoalKind::Achievable, 1);
    let b = add(&mut s, "B", Some(&a), GoalKind::Achievable, 2);
    let c = add(&mut s, "C", Some(&b), GoalKind::Achievable, 3);
    assert_eq!(&b[1..2], "1");
    assert_eq!(&c[1..2], "2");
    let new_b = modify(&mut s, &b, None, ModifyParent::Detach, None, 4).unwrap();
    assert_eq!(&new_b[1..2], "0", "detached goal should be depth 0, got: {}", new_b);
    let l = list(&s);
    assert!(!l.contains(&b), "old B id should be gone");
    assert!(!l.contains(&c), "old C id should be gone");
    assert!(l.contains("B"));
    assert!(l.contains("C"));
    let children = s.children_of(&new_b);
    assert_eq!(children.len(), 1);
    assert_eq!(&children[0].id[1..2], "1");
}

#[test]
fn tests_modify_reparent_updates_children() {
    check_modify_reparent_updates_children();
}

#[test]
fn integration_modify_reparent_updates_children() {
    check_modify_reparent_updates_children();
}

fn check_modify_detach() {
    let mut s = Store::new();
    let p = add(&mut s, "parent", None, GoalKind::Achievable, 1);
    let c = add(&mut s, "child", Some(&p), GoalKind::Achievable, 2);
    assert_eq!(&c[1..2], "1");
    let new_c = modify(&mut s, &c, None, ModifyParent::Detach, None, 3).unwrap();
    assert_eq!(&new_c[1..2], "0", "detached child should be depth 0");
    assert!(list(&s).contains("child"));
    assert!(s.get_goal(&new_c).unwrap().parent_id.is_none());
}

#[test]
fn tests_modify_detach() {
    check_modify_detach();
}

#[test]
fn integration_modify_detach() {
    check_modify_detach();
}

fn check_modify_cycle_errors() {
    let mut s = Store::new();
    let a = add(&mut s, "A", None, GoalKind::Achievable, 1);
    let b = add(&mut s, "B", Some(&a), GoalKind::Achievable, 2);
    let r = modify(&mut s, &a, None, ModifyParent::Reparent(b), None, 3);
    assert!(matches!(r, Err(GoalError::ReparentUnderDescendant)));
}

#[test]
fn tests_modify_cycle_errors() {
    check_modify_cycle_errors();
}

#[test]
fn integration_modify_cycle_errors() {
    check_modify_cycle_errors();
}

fn check_modify_nonexistent_id_errors() {
    let mut s = Store::new();
    add(&mut s, "A", None, GoalKind::Achievable, 1);
    assert!(matches!(s.resolve_id("zzzz"), Err(GoalError::NoMatch(_))));
    let r = modify(&mut s, "a0ffffffffffffff", Some("x"), ModifyParent::Keep, None, 2);
    assert!(matches!(r, Err(GoalError::NoGoal(_))));
}

#[test]
fn tests_modify_nonexistent_id_errors() {
    check_modify_nonexistent_id_errors();
}

#[test]
fn integration_modify_nonexistent_id_errors() {
    check_modify_nonexistent_id_errors();
}

fn check_nonexistent_id_errors() {
    let mut s = Store::new();
    assert!(matches!(s.resolve_id("a0deadbeef"), Err(GoalError::NoMatch(_))));
    assert!(matches!(s.set_achieved("a0deadbeef", true, &ts(1)), Err(GoalError::NoGoal(_))));
    assert!(matches!(s.remove_goal("a0deadbeef", &ts(2)), Err(GoalError::NoGoal(_))));
}

#[test]
fn tests_nonexistent_id_errors() {
    check_nonexistent_id_errors();
}

#[test]
fn integration_nonexistent_id_errors() {
    check_nonexistent_id_errors();
}

#[test]
fn tree_lines_are_indented_and_ordered_by_priority() {
    let mut s = Store::new();
    let p = add(&mut s, "parent", None, GoalKind::Achievable, 1);
    let c1 = add(&mut s, "first", Some(&p), GoalKind::Continuous, 2);
    let c2 = add(&mut s, "second", Some(&p), GoalKind::Achievable, 3);
    let out = list(&s);
    let lines: Vec<&str> = out.lines().collect();
    assert_eq!(lines.len(), 3);
    assert_eq!(lines[0], format!("[ ]  {}  parent", p));
    // Unranked siblings: the newer comes first.
    assert_eq!(lines[1], format!("    [ ]  {}  second", c2));
    assert_eq!(lines[2], format!("    [~]  {}  first", c1));
    assert!(out.ends_with('\n'));
    // A ranking puts the older sibling first.
    s.add_priority_edge(&c1, &c2, &ts(4)).unwrap();
    let out = list(&s);
    let lines: Vec<&str> = out.lines().collect();
    assert_eq!(lines[1], format!("    [~]  {}  first", c1));
    assert_eq!(lines[2], format!("    [ ]  {}  second", c2));
}

#[test]
fn done_goals_show_only_as_context() {
    let mut s = Store::new();
    let p = add(&mut s, "parent", None, GoalKind::Achievable, 1);
    let c = add(&mut s, "child", Some(&p), GoalKind::Achievable, 2);
    let leaf = add(&mut s, "done leaf", None, GoalKind::Achievable, 3);
    s.set_achieved(&p, true, &ts(4)).unwrap();
    s.set_achieved(&leaf, true, &ts(5)).unwrap();
    let out = list(&s);
    // The done parent stays as the context of its pending child; the done leaf goes.
    assert_eq!(out, format!("[x]  {}  parent\n    [ ]  {}  child\n", p, c));
    s.set_achieved(&c, true, &ts(6)).unwrap();
    assert_eq!(list(&s), "");
}

#[test]
fn law_print_tree_prints_every_level() {
    let mut s = Store::new();
    let mut parent: Option<String> = None;
    let mut ids = Vec::new();
    for i in 0..6 {
        let id = add(&mut s, &format!("level {}", i), parent.as_deref(), GoalKind::Achievable, i + 1);
        ids.push(id.clone());
        parent = Some(id);
    }
    let out = list(&s);
    let lines: Vec<&str> = out.lines().collect();
    assert_eq!(lines.len(), 6);
    for (i, line) in lines.iter().enumerate() {
        assert!(line.starts_with(&"    ".repeat(i)));
        assert!(line.ends_with(&format!("{}  level {}", ids[i], i)));
        assert_eq!(&ids[i][1..2], &i.to_string());
    }
}

#[test]
fn law_delete_takes_out_exactly_the_subtree() {
    let mut s = Store::new();
    let a = add(&mut s, "A", None, GoalKind::Achievable, 1);
    let b = add(&mut s, "B", Some(&a), GoalKind::Achievable, 2);
    let c = add(&mut s, "C", Some(&b), GoalKind::Continuous, 3);
    let d = add(&mut s, "D", Some(&a), GoalKind::Achievable, 4);
    let e = add(&mut s, "E", None, GoalKind::Achievable, 5);
    s.remove_goal(&b, &ts(6)).unwrap();
    let left: Vec<String> = s.goals_table().iter().map(|g| g.id.clone()).collect();
    assert_eq!(left, vec![a.clone(), d.clone(), e.clone()]);
    assert!(matches!(s.get_goal(&c), Err(GoalError::NoGoal(_))));
    let sub = s.collect_subtree(&a).unwrap();
    assert_eq!(sub.len(), 2);
}

#[test]
fn law_modify_gives_ids_for_the_new_place() {
    let mut s = Store::new();
    let a = add(&mut s, "A", None, GoalKind::Achievable, 1);
    let b = add(&mut s, "B", Some(&a), GoalKind::Achievable, 2);
    let c = add(&mut s, "C", Some(&b), GoalKind::Achievable, 3);
    let top = add(&mut s, "T", None, GoalKind::Continuous, 4);
    let new_b = modify(&mut s, &b, None, ModifyParent::Reparent(c.clone()), None, 5);
    assert!(matches!(new_b, Err(GoalError::ReparentUnderDescendant)));
    let new_b = modify(&mut s, &b, None, ModifyParent::Detach, Some(GoalKind::Continuous), 6).unwrap();
    assert!(new_b.starts_with("c0"));
    let kids = s.children_of(&new_b);
    assert_eq!(kids.len(), 1);
    assert!(kids[0].id.starts_with("a1"));
    assert_eq!(kids[0].body, "C");
    let r = s.resolve_id(&c).unwrap();
    assert_eq!(r.id, kids[0].id);
    let _ = top;
}

#[test]
fn modify_reparent_at_same_depth_moves_the_goal() {
    let mut s = Store::new();
    let p1 = add(&mut s, "P1", None, GoalKind::Achievable, 1);
    let p2 = add(&mut s, "P2", None, GoalKind::Achievable, 2);
    let c = add(&mut s, "C", Some(&p1), GoalKind::Achievable, 3);
    let r = modify(&mut s, &c, None, ModifyParent::Reparent(p2.clone()), None, 4).unwrap();
    // Same kind, same depth: the id stays, the parent is the new one.
    assert_eq!(r, c);
    assert_eq!(s.get_goal(&c).unwrap().parent_id, Some(p2.clone()));
    assert!(s.children_of(&p1).is_empty());
    assert_eq!(s.children_of(&p2).len(), 1);
    s.undo_last().unwrap();
    assert_eq!(s.get_goal(&c).unwrap().parent_id, Some(p1.clone()));
}
