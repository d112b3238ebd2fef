use goal::model::{GoalError, GoalKind, ModifyParent};
use goal::store::Store;

fn ts(n: u32) -> String {
    format!("2024-01-01 00:{:02}:{:02}", n / 60, n % 60)
}

fn add(s: &mut Store, body: &str, parent: Option<&str>, n: u32) -> String {
    s.add_goal(body, parent, &GoalKind::Achievable, &ts(n)).expect("add_goal")
}

#[test]
fn annotate_add_shows_in_info() {
    let mut s = Store::new();
    let id = add(&mut s, "learn rust", None, 1);
    let ann_id = s.add_annotation(&id, "this is a note", &ts(2)).unwrap();
    assert!(ann_id.starts_with('n'), "annotation id should start with 'n', got: {}", ann_id);
    assert_eq!(ann_id.len(), 16);
    let anns = s.annotations_for(&id);
    assert_eq!(anns.len(), 1);
    assert_eq!(anns[0].id, ann_id);
    assert_eq!(anns[0].body, "this is a note");
    assert_eq!(anns[0].created_at, ts(2));
}

#[test]
fn annotate_multiple() {
    let mut s = Store::new();
    let id = add(&mut s, "learn rust", None, 1);
    s.add_annotation(&id, "second", &ts(5)).unwrap();
    s.add_annotation(&id, "first", &ts(3)).unwrap();
    let bodies: Vec<String> = s.annotations_for(&id).iter().map(|a| a.body.clone()).collect();
    assert_eq!(bodies, vec!["first".to_string(), "second".to_string()]);
}

#[test]
fn annotate_edit() {
    let mut s = Store::new();
    let id = add(&mut s, "learn rust", None, 1);
    let ann = s.add_annotation(&id, "old note", &ts(2)).unwrap();
    s.edit_annotation(&ann, "new note", &ts(3)).unwrap();
    let anns = s.annotations_for(&id);
    assert_eq!(anns[0].body, "new note");
    assert!(matches!(s.edit_annotation("nmissing", "x", &ts(4)), Err(GoalError::NoAnnotation(_))));
}

#[test]
fn annotate_delete() {
    let mut s = Store::new();
    let id = add(&mut s, "learn rust", None, 1);
    let ann = s.add_annotation(&id, "a note", &ts(2)).unwrap();
    s.delete_annotation(&ann, &ts(3)).unwrap();
    assert!(s.annotations_for(&id).is_empty());
    assert!(matches!(s.delete_annotation(&ann, &ts(4)), Err(GoalError::NoAnnotation(_))));
}

#[test]
fn annotate_cascade_on_goal_delete() {
    let mut s = Store::new();
    let id = add(&mut s, "goal", None, 1);
    s.add_annotation(&id, "some note", &ts(2)).unwrap();
    s.remove_goal(&id, &ts(3)).unwrap();
    assert!(matches!(s.get_goal(&id), Err(GoalError::NoGoal(_))));
    assert!(matches!(s.resolve_id(&id), Err(GoalError::NoMatch(_))));
}

#[test]
fn annotate_missing_goal_fails() {
    let mut s = Store::new();
    assert!(matches!(s.add_annotation("a0nothere", "note", &ts(1)), Err(GoalError::MissingReference)));
}

#[test]
fn annotate_short_prefix() {
    let mut s = Store::new();
    let id = add(&mut s, "goal", None, 1);
    let ann = s.add_annotation(&id, "note", &ts(2)).unwrap();
    let full = s.resolve_annotation_id(&ann[..4]).unwrap();
    assert_eq!(full, ann);
    s.delete_annotation(&full, &ts(9)).unwrap();
    assert!(matches!(s.resolve_annotation_id("n"), Err(GoalError::NoAnnotationMatch(_))));
}

fn tags_of(s: &Store, id: &str) -> Vec<String> {
    s.all_goal_tags().into_iter().find(|(g, _)| g == id).map(|(_, t)| t).unwrap_or_default()
}

#[test]
fn tags_add_shows_in_list() {
    let mut s = Store::new();
    let id = add(&mut s, "learn rust", None, 1);
    s.add_tag(&id, "work").unwrap();
    s.add_tag(&id, "rust").unwrap();
    assert_eq!(tags_of(&s, &id), vec!["rust".to_string(), "work".to_string()]);
}

#[test]
fn tags_add_shows_in_info() {
    let mut s = Store::new();
    let id = add(&mut s, "learn rust", None, 1);
    s.add_tag(&id, "work").unwrap();
    assert_eq!(tags_of(&s, &id), vec!["work".to_string()]);
    s.add_tag(&id, "work").unwrap();
    assert_eq!(tags_of(&s, &id), vec!["work".to_string()]);
    assert!(matches!(s.add_tag("a0nothere", "work"), Err(GoalError::MissingReference)));
}

#[test]
fn tags_modify_add_and_remove() {
    let mut s = Store::new();
    let id = add(&mut s, "goal", None, 1);
    s.add_tag(&id, "work").unwrap();
    s.add_tag(&id, "rust").unwrap();
    s.remove_tag(&id, "rust").unwrap();
    s.add_tag(&id, "personal").unwrap();
    assert_eq!(tags_of(&s, &id), vec!["personal".to_string(), "work".to_string()]);
}

#[test]
fn tags_only_modify_does_not_require_other_flags() {
    let mut s = Store::new();
    let id = add(&mut s, "goal", None, 1);
    s.add_tag(&id, "extra").unwrap();
    assert_eq!(tags_of(&s, &id), vec!["extra".to_string()]);
    assert_eq!(s.get_goal(&id).unwrap().body, "goal");
}

#[test]
fn tags_no_tags_no_suffix() {
    let mut s = Store::new();
    let id = add(&mut s, "plain goal", None, 1);
    assert!(tags_of(&s, &id).is_empty());
    assert!(s.all_goal_tags().is_empty());
}

#[test]
fn old_id_resolves_with_warning_after_reparent() {
    let mut s = Store::new();
    let a = add(&mut s, "A", None, 1);
    let b = add(&mut s, "B", None, 2);
    let new_b = s.modify_goal(&b, None, &ModifyParent::Reparent(a), None, &ts(3)).unwrap();
    assert_ne!(b, new_b, "id should change on reparent");
    let r = s.resolve_id(&b).unwrap();
    assert_eq!(r.id, new_b);
    assert_eq!(r.renamed_from, Some(b.clone()));
    assert_eq!(s.get_goal(&r.id).unwrap().body, "B");
}

#[test]
fn old_id_prefix_resolves_with_warning_after_reparent() {
    let mut s = Store::new();
    let a = add(&mut s, "A", None, 1);
    let b = add(&mut s, "B", None, 2);
    let new_b = s.modify_goal(&b, None, &ModifyParent::Reparent(a), None, &ts(3)).unwrap();
    // No current id starts with the old id's first twelve characters.
    let r = s.resolve_id(&b[..12]).unwrap();
    assert_eq!(r.id, new_b);
    assert_eq!(r.renamed_from, Some(b.clone()));
}

#[test]
fn old_id_after_double_reparent_resolves_to_final() {
    let mut s = Store::new();
    let a = add(&mut s, "A", None, 1);
    let b = add(&mut s, "B", None, 2);
    let c = add(&mut s, "C", None, 3);
    let b1 = s.modify_goal(&b, None, &ModifyParent::Reparent(a), None, &ts(4)).unwrap();
    let b2 = s.modify_goal(&b1, None, &ModifyParent::Reparent(c), None, &ts(5)).unwrap();
    let r = s.resolve_id(&b).unwrap();
    assert_eq!(r.id, b2);
    assert_eq!(s.get_goal(&b2).unwrap().body, "B");
}

#[test]
fn ambiguous_alias_and_annotation_prefixes() {
    let s = Store::from_tables(
        vec![],
        vec![],
        vec![("a0aa".to_string(), "a1aa".to_string()), ("a0ab".to_string(), "a1ab".to_string())],
        vec![
            goal::model::Annotation { id: "n1".to_string(), goal_id: "a".to_string(), body: "x".to_string(), created_at: ts(1) },
            goal::model::Annotation { id: "n2".to_string(), goal_id: "a".to_string(), body: "y".to_string(), created_at: ts(2) },
        ],
        vec![],
        vec![],
        vec![],
    )
    .unwrap();
    assert!(matches!(s.resolve_id("a0a"), Err(GoalError::AmbiguousAlias(ref p, 2)) if p == "a0a"));
    let r = s.resolve_id("a0ab").unwrap();
    assert_eq!(r.id, "a1ab");
    assert_eq!(r.renamed_from, Some("a0ab".to_string()));
    assert!(matches!(s.resolve_annotation_id("n"), Err(GoalError::AmbiguousAnnotation(ref p, 2)) if p == "n"));
    assert_eq!(s.resolve_annotation_id("n2").unwrap(), "n2");
}

#[test]
fn prefix_matching_is_literal() {
    let mut s = Store::new();
    let id = add(&mut s, "x", None, 1);
    // A prefix matches character for character: no case folding, no wildcards.
    let upper = id.to_uppercase();
    assert!(matches!(s.resolve_id(&upper[..5]), Err(GoalError::NoMatch(_))));
    let wild = format!("{}_{}", &id[..2], &id[3..6]);
    assert!(matches!(s.resolve_id(&wild), Err(GoalError::NoMatch(_))));
    assert!(matches!(s.resolve_id("%"), Err(GoalError::NoMatch(_))));
    assert_eq!(s.resolve_id(&id[..5]).unwrap().id, id);
    assert_eq!(s.resolve_id(&id).unwrap().id, id);
}

#[test]
fn tags_cascade_on_goal_delete() {
    let mut s = Store::new();
    let id = add(&mut s, "goal", None, 1);
    let other = add(&mut s, "other", None, 2);
    s.add_tag(&id, "work").unwrap();
    s.remove_goal(&id, &ts(3)).unwrap();
    // No goal left carries the tag.
    for g in s.all_goals() {
        assert!(!tags_of(&s, &g.id).contains(&"work".to_string()));
    }
    assert_eq!(s.all_goals().len(), 1);
    assert_eq!(s.all_goals()[0].id, other);
}

#[test]
fn undo_edit_and_delete_of_notes() {
    let mut s = Store::new();
    let id = add(&mut s, "goal", None, 1);
    let n1 = s.add_annotation(&id, "first", &ts(2)).unwrap();
    let n2 = s.add_annotation(&id, "second", &ts(3)).unwrap();
    s.edit_annotation(&n1, "changed", &ts(4)).unwrap();
    assert_eq!(s.events_table().last().unwrap().op, "EditNote");
    s.undo_last().unwrap();
    assert_eq!(s.annotations_table()[0].body, "first");
    s.delete_annotation(&n1, &ts(5)).unwrap();
    assert_eq!(s.annotations_table().len(), 1);
    s.undo_last().unwrap();
    // The note comes back in its place.
    let ids: Vec<String> = s.annotations_table().iter().map(|a| a.id.clone()).collect();
    assert_eq!(ids, vec![n1.clone(), n2.clone()]);
    // The log names the note's goal.
    let mut t = Store::new();
    let g = add(&mut t, "goal", None, 1);
    let n = t.add_annotation(&g, "note", &ts(2)).unwrap();
    t.delete_annotation(&n, &ts(3)).unwrap();
    let log = t.list_events();
    assert_eq!(log[2].op, "DeleteNote");
    assert_eq!(log[2].goal_id, g);
}
