use goal::display::{print_log, print_tree};
use goal::model::{Event, GoalError, GoalKind, ModifyParent};
use goal::store::Store;

fn ts(n: u32) -> String {
    format!("2024-01-01 00:{:02}:{:02}", n / 60, n % 60)
}

fn add(s: &mut Store, body: &str, parent: Option<&str>, n: u32) -> String {
    s.add_goal(body, parent, &GoalKind::Achievable, &ts(n)).expect("add_goal")
}

fn list(s: &Store) -> String {
    print_tree(&s.all_goals(), &s.all_priority_edges(), &s.goal_rowids())
}

#[test]
fn undo_add() {
    let mut s = Store::new();
    add(&mut s, "learn rust", None, 1);
    s.undo_last().unwrap();
    assert!(!list(&s).contains("learn rust"));
    assert!(s.all_goals().is_empty());
}

#[test]
fn undo_done() {
    let mut s = Store::new();
    let id = add(&mut s, "learn rust", None, 1);
    s.set_achieved(&id, true, &ts(2)).unwrap();
    s.undo_last().unwrap();
    let l = list(&s);
    assert!(l.contains("[ ]"));
    assert!(!l.contains("[x]"));
}

#[test]
fn undo_undone() {
    let mut s = Store::new();
    let id = add(&mut s, "learn rust", None, 1);
    s.set_achieved(&id, true, &ts(2)).unwrap();
    s.set_achieved(&id, false, &ts(3)).unwrap();
    s.undo_last().unwrap();
    // Back to achieved: left out of the list, achieved when looked up.
    assert!(!list(&s).contains("learn rust"));
    assert!(s.get_goal(&id).unwrap().achieved);
}

#[test]
fn undo_delete_single() {
    let mut s = Store::new();
    let id = add(&mut s, "learn rust", None, 1);
    s.remove_goal(&id, &ts(2)).unwrap();
    assert!(!list(&s).contains("learn rust"));
    s.undo_last().unwrap();
    let l = list(&s);
    assert!(l.contains("learn rust"));
    assert!(l.contains(&id));
}

#[test]
fn undo_delete_subtree() {
    let mut s = Store::new();
    let p = add(&mut s, "parent", None, 1);
    let c = add(&mut s, "child", Some(&p), 2);
    s.remove_goal(&p, &ts(3)).unwrap();
    s.undo_last().unwrap();
    let l = list(&s);
    assert!(l.contains("parent"));
    assert!(l.contains("child"));
    assert_eq!(s.get_goal(&c).unwrap().parent_id, Some(p));
}

#[test]
fn undo_modify_body() {
    let mut s = Store::new();
    let id = add(&mut s, "old body", None, 1);
    s.modify_goal(&id, Some("new body"), &ModifyParent::Keep, None, &ts(2)).unwrap();
    s.undo_last().unwrap();
    let l = list(&s);
    assert!(l.contains("old body"));
    assert!(!l.contains("new body"));
}

#[test]
fn undo_modify_reparent() {
    let mut s = Store::new();
    let a = add(&mut s, "goal A", None, 1);
    let b = add(&mut s, "goal B", None, 2);
    let new_b = s.modify_goal(&b, None, &ModifyParent::Reparent(a), None, &ts(3)).unwrap();
    assert_ne!(new_b, b);
    s.undo_last().unwrap();
    let l = list(&s);
    assert!(l.contains(&b), "the old id is back: {}", l);
    assert!(!l.contains(&new_b));
    assert!(s.get_goal(&b).unwrap().parent_id.is_none());
}

#[test]
fn double_undo() {
    let mut s = Store::new();
    add(&mut s, "X", None, 1);
    add(&mut s, "Y", None, 2);
    s.undo_last().unwrap();
    let l1 = list(&s);
    assert!(l1.contains("X"));
    assert!(!l1.contains("Y"));
    s.undo_last().unwrap();
    assert!(!list(&s).contains("X"));
}

#[test]
fn undo_nothing_errors() {
    let mut s = Store::new();
    assert!(matches!(s.undo_last(), Err(GoalError::NothingToUndo)));
}

#[test]
fn undo_picks_the_latest_timestamp() {
    let mut s = Store::new();
    // Recorded later in row order, but with an earlier timestamp.
    add(&mut s, "late", None, 9);
    add(&mut s, "early", None, 1);
    s.undo_last().unwrap();
    let l = list(&s);
    assert!(l.contains("early"));
    assert!(!l.contains("late"));
}

fn ops(events: &[Event]) -> Vec<String> {
    events.iter().map(|e| e.op.clone()).collect()
}

#[test]
fn log_shows_history() {
    let mut s = Store::new();
    let id = add(&mut s, "learn rust", None, 1);
    s.set_achieved(&id, true, &ts(2)).unwrap();
    let events = s.list_events();
    assert_eq!(ops(&events), vec!["Add".to_string(), "Done".to_string()]);
    assert_eq!(events[0].goal_id, id);
    assert_eq!(events[0].goal_body, "learn rust");
    assert_eq!(events[0].timestamp, ts(1));
    assert!(events[0].event_id.starts_with('e'));
    assert_eq!(events[0].event_id.len(), 16);
    let log = print_log(&events);
    assert!(log.contains("Add"));
    assert!(log.contains("Done"));
    assert!(log.contains("learn rust"));
}

#[test]
fn log_after_undo_removes_entry() {
    let mut s = Store::new();
    add(&mut s, "learn rust", None, 1);
    s.undo_last().unwrap();
    let log = print_log(&s.list_events());
    assert!(!log.contains("Add"), "undone event should not appear in log: {}", log);
    assert_eq!(s.undone_table().len(), 1);
}

#[test]
fn log_is_ordered_by_timestamp() {
    let mut s = Store::new();
    add(&mut s, "second", None, 5);
    add(&mut s, "first", None, 2);
    add(&mut s, "third", None, 5);
    let events = s.list_events();
    let bodies: Vec<String> = events.iter().map(|e| e.goal_body.clone()).collect();
    assert_eq!(bodies, vec!["first".to_string(), "second".to_string(), "third".to_string()]);
}

#[test]
fn log_line_pads_the_operation() {
    let e = Event {
        event_id: "e123".to_string(),
        timestamp: "2024-01-01 00:00:01".to_string(),
        op: "Add".to_string(),
        goal_id: "a0abc".to_string(),
        goal_body: "learn rust".to_string(),
    };
    let long = Event { op: "Deprioritize".to_string(), ..e.clone() };
    assert_eq!(print_log(&[e]), "e123  2024-01-01 00:00:01  Add       a0abc  \"learn rust\"\n");
    assert_eq!(print_log(&[long]), "e123  2024-01-01 00:00:01  Deprioritize  a0abc  \"learn rust\"\n");
    assert_eq!(print_log(&[]), "");
}

fn entry(id: &str, time: u32, op: &str, snapshot: Option<Vec<goal::model::Goal>>, new_id: Option<&str>) -> goal::model::LogEntry {
    goal::model::LogEntry {
        event_id: id.to_string(),
        timestamp: ts(time),
        op: op.to_string(),
        snapshot,
        new_id: new_id.map(|s| s.to_string()),
        snapshot_edges: goal::model::EdgeRecord::Absent,
        change: None,
        note: None,
    }
}

fn store_with(events: Vec<goal::model::LogEntry>) -> Store {
    Store::from_tables(vec![], vec![], vec![], vec![], vec![], events, vec![]).unwrap()
}

#[test]
fn undo_reports_unreadable_entries() {
    let mut s = store_with(vec![entry("e1", 1, "Add", None, Some("a0x"))]);
    assert!(matches!(s.undo_last(), Err(GoalError::MalformedSnapshot)));
    let mut s = store_with(vec![entry("e1", 1, "Add", Some(vec![]), None)]);
    assert!(matches!(s.undo_last(), Err(GoalError::MissingNewId(ref op)) if op == "Add"));
    let mut s = store_with(vec![entry("e1", 1, "Done", Some(vec![]), None)]);
    assert!(matches!(s.undo_last(), Err(GoalError::EmptySnapshot)));
    let mut s = store_with(vec![entry("e1", 1, "Rename", Some(vec![]), None)]);
    assert!(matches!(s.undo_last(), Err(GoalError::UnknownOp(ref op)) if op == "Rename"));
    let mut s = store_with(vec![entry("e1", 1, "Prioritize", Some(vec![]), Some("nocolon"))]);
    assert!(matches!(s.undo_last(), Err(GoalError::MalformedEdgeId(_))));
    let mut bad = entry("e1", 1, "Delete", Some(vec![]), None);
    bad.snapshot_edges = goal::model::EdgeRecord::Malformed;
    let mut s = store_with(vec![bad]);
    assert!(matches!(s.undo_last(), Err(GoalError::MalformedEdges)));
    // A failed undo leaves the history as it was.
    assert_eq!(s.events_table().len(), 1);
    assert!(s.undone_table().is_empty());
}

#[test]
fn undo_refuses_a_repeated_undone_id() {
    let mut s = Store::new();
    add(&mut s, "x", None, 1);
    let events = s.events_table().clone();
    let goals = s.goals_table().clone();
    let mut t = Store::from_tables(goals, vec![], vec![], vec![], vec![], events.clone(), events).unwrap();
    assert!(matches!(t.undo_last(), Err(GoalError::DuplicateKey)));
    assert_eq!(t.goals_table().len(), 1);
}

#[test]
fn log_line_of_unreadable_entry_uses_new_id() {
    let s = store_with(vec![entry("e1", 1, "Add", None, Some("a0x")), entry("e2", 2, "Done", None, None)]);
    let events = s.list_events();
    assert_eq!(events[0].goal_id, "a0x");
    assert_eq!(events[0].goal_body, "");
    assert_eq!(events[1].goal_id, "");
}

fn rows(s: &Store) -> Vec<String> {
    s.goals_table().iter().map(|g| format!("{}|{:?}|{}|{}", g.id, g.parent_id, g.body, g.achieved)).collect()
}

#[test]
fn law_undo_gives_back_the_deleted_subtree() {
    let mut s = Store::new();
    let a = add(&mut s, "A", None, 1);
    let b = add(&mut s, "B", Some(&a), 2);
    let c = add(&mut s, "C", Some(&b), 3);
    let x = add(&mut s, "X", None, 4);
    s.add_priority_edge(&x, &b, &ts(5)).unwrap();
    let before = rows(&s);
    let edges_before = s.all_priority_edges();
    s.remove_goal(&a, &ts(6)).unwrap();
    s.undo_last().unwrap();
    // The rows come back in their places, the rankings as they were.
    assert_eq!(rows(&s), before);
    assert_eq!(s.all_priority_edges(), edges_before);
    let _ = c;
}

#[test]
fn undo_delete_keeps_a_ranking_that_was_there() {
    let mut s = Store::new();
    let u = add(&mut s, "U", None, 1);
    let m = add(&mut s, "M", None, 2);
    let l = add(&mut s, "L", None, 3);
    s.add_priority_edge(&u, &m, &ts(4)).unwrap();
    s.add_priority_edge(&m, &l, &ts(5)).unwrap();
    s.add_priority_edge(&u, &l, &ts(6)).unwrap();
    let edges_before = s.all_priority_edges();
    s.remove_goal(&m, &ts(7)).unwrap();
    // The collapsing edge U > L is recorded, though the table held it already.
    let last = s.events_table().last().unwrap().clone();
    match last.snapshot_edges {
        goal::model::EdgeRecord::Present(e) => assert_eq!(e.added, vec![(u.clone(), l.clone())]),
        _ => panic!("the deletion keeps its edge record"),
    }
    assert_eq!(s.all_priority_edges(), edges_before);
    s.undo_last().unwrap();
    assert_eq!(s.all_priority_edges(), edges_before);
}

#[test]
fn undo_modify_body_keeps_the_row_in_place() {
    let mut s = Store::new();
    let a = add(&mut s, "A", None, 1);
    add(&mut s, "B", None, 2);
    let before = rows(&s);
    s.modify_goal(&a, Some("A2"), &ModifyParent::Keep, None, &ts(3)).unwrap();
    s.undo_last().unwrap();
    assert_eq!(rows(&s), before);
}

#[test]
fn undo_modify_that_renames_gives_back_the_subtree() {
    let mut s = Store::new();
    let a = add(&mut s, "A", None, 1);
    let b = add(&mut s, "B", Some(&a), 2);
    let x = add(&mut s, "X", None, 3);
    s.add_priority_edge(&x, &b, &ts(4)).unwrap();
    let before = rows(&s);
    let edges_before = s.all_priority_edges();
    let aliases_before = s.aliases_table().clone();
    let new_a = s.modify_goal(&a, None, &ModifyParent::Keep, Some(GoalKind::Continuous), &ts(5)).unwrap();
    assert_ne!(new_a, a);
    assert_eq!(s.aliases_table().len(), 2);
    s.undo_last().unwrap();
    assert_eq!(rows(&s), before);
    assert_eq!(s.all_priority_edges(), edges_before);
    assert_eq!(s.aliases_table(), &aliases_before);
    assert_eq!(s.resolve_id(&b).unwrap().id, b);
}

#[test]
fn undo_annotate_takes_the_note_out() {
    let mut s = Store::new();
    let a = add(&mut s, "A", None, 1);
    s.set_achieved(&a, true, &ts(2)).unwrap();
    let n = s.add_annotation(&a, "a note", &ts(3)).unwrap();
    assert_eq!(s.events_table().last().unwrap().op, "Annotate");
    s.undo_last().unwrap();
    assert!(s.annotations_table().is_empty());
    assert!(s.resolve_annotation_id(&n).is_err());
    // The earlier operation is still there to undo.
    assert!(s.get_goal(&a).unwrap().achieved);
    s.undo_last().unwrap();
    assert!(!s.get_goal(&a).unwrap().achieved);
}

#[test]
fn undo_with_a_later_change_in_the_tables_reinserts_only_the_subtree() {
    let mut s = Store::new();
    let a = add(&mut s, "A", None, 1);
    let b = add(&mut s, "B", Some(&a), 2);
    s.remove_goal(&a, &ts(10)).unwrap();
    // A goal added with an earlier clock reading: the deletion stays the latest entry.
    let x = add(&mut s, "X", None, 5);
    s.undo_last().unwrap();
    let ids: Vec<String> = s.goals_table().iter().map(|g| g.id.clone()).collect();
    assert_eq!(ids, vec![x.clone(), a.clone(), b.clone()]);
}
