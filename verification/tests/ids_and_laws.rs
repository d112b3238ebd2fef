use goal::ids::{derivable_exec, derive_id, encode_depth, generate_annotation_id, generate_event_id, generate_id, kind_from_id, parse_depth};
use goal::model::{GoalError, GoalKind};
use goal::store::undo::parse_edge_new_id;
use goal::store::Store;

fn ts(n: u32) -> String {
    format!("2024-01-01 00:{:02}:{:02}", n / 60, n % 60)
}

#[test]
fn depth_codes() {
    assert_eq!(encode_depth(0), "0");
    assert_eq!(encode_depth(9), "9");
    assert_eq!(encode_depth(10), "a");
    assert_eq!(encode_depth(14), "e");
    assert_eq!(encode_depth(15), "f0");
    assert_eq!(encode_depth(31), "ff1");
}

#[test]
fn depth_is_read_back() {
    assert_eq!(parse_depth("a0123"), 0);
    assert_eq!(parse_depth("c3abc"), 3);
    assert_eq!(parse_depth("aeabc"), 14);
    assert_eq!(parse_depth("af0abc"), 15);
    assert_eq!(parse_depth("aff1abc"), 31);
    assert_eq!(parse_depth("aB"), 11);
    assert_eq!(parse_depth("a"), 0);
}

#[test]
fn kind_is_read_back() {
    assert_eq!(kind_from_id("a0123"), GoalKind::Achievable);
    assert_eq!(kind_from_id("c0123"), GoalKind::Continuous);
    assert_eq!(kind_from_id("x0123"), GoalKind::Continuous);
    assert_eq!(kind_from_id(""), GoalKind::Continuous);
}

#[test]
fn generated_ids_encode_kind_and_depth() {
    for depth in [0u32, 1, 14, 15, 29, 40, 300] {
        for kind in [GoalKind::Achievable, GoalKind::Continuous] {
            let id = generate_id(&kind, depth);
            assert_eq!(kind_from_id(&id), kind);
            assert_eq!(parse_depth(&id), depth);
            let prefix_len = 1 + encode_depth(depth).len();
            assert_eq!(id.len(), std::cmp::max(16, prefix_len));
            assert!(id[prefix_len..].chars().all(|c| c.is_ascii_hexdigit() && !c.is_ascii_uppercase()));
        }
    }
}

#[test]
fn event_and_annotation_ids() {
    let e = generate_event_id();
    assert!(e.starts_with('e'));
    assert_eq!(e.len(), 16);
    let n = generate_annotation_id();
    assert!(n.starts_with('n'));
    assert_eq!(n.len(), 16);
    assert_ne!(generate_event_id(), generate_event_id());
}

#[test]
fn derived_ids_keep_the_random_part() {
    let old = "a0123456789abcde";
    let d = derive_id(old, &GoalKind::Continuous, 1);
    assert_eq!(d, "c1123456789abcde");
    let deep = derive_id(old, &GoalKind::Achievable, 15);
    assert_eq!(deep, "af0123456789abcd");
    let back = derive_id(&deep, &GoalKind::Achievable, 0);
    assert!(back.starts_with("a0123456789abcd"));
    assert_eq!(back.len(), 16);
    assert_eq!(parse_depth(&back), 0);
}

#[test]
fn derived_ids_count_bytes_of_the_random_part() {
    // Seven two-byte characters are the fourteen bytes that the new id keeps.
    let old = "a0ééééééé";
    assert!(derivable_exec(old, &GoalKind::Continuous, 0));
    assert_eq!(derive_id(old, &GoalKind::Continuous, 0), "c0ééééééé");
    // Thirteen bytes of random part would end inside a character.
    assert!(!derivable_exec(old, &GoalKind::Achievable, 15));
    // A prefix that ends inside a character cannot be cut off.
    assert!(!derivable_exec("aé123456789abcd", &GoalKind::Achievable, 0));
    // Plain ids can always be cut.
    assert!(derivable_exec("a0123456789abcde", &GoalKind::Achievable, 15));
}

#[test]
fn edge_ids_split_at_the_first_colon() {
    let (h, l) = parse_edge_new_id("a0aa:a0bb").unwrap();
    assert_eq!(h, "a0aa");
    assert_eq!(l, "a0bb");
    let (h, l) = parse_edge_new_id("x:y:z").unwrap();
    assert_eq!((h.as_str(), l.as_str()), ("x", "y:z"));
    assert!(matches!(parse_edge_new_id("nocolon"), Err(GoalError::MalformedEdgeId(ref s)) if s == "nocolon"));
}

fn snapshot(s: &Store) -> (Vec<String>, Vec<(String, String)>, usize) {
    let goals = s.goals_table().iter().map(|g| format!("{}|{:?}|{}|{}|{:?}", g.id, g.parent_id, g.body, g.achieved, g.kind)).collect();
    (goals, s.all_priority_edges(), s.events_table().len())
}

#[test]
fn law_undo_gives_back_the_tables() {
    let mut s = Store::new();
    let a = s.add_goal("A", None, &GoalKind::Achievable, &ts(1)).unwrap();
    let b = s.add_goal("B", Some(&a), &GoalKind::Continuous, &ts(2)).unwrap();
    let before = snapshot(&s);

    s.add_goal("C", None, &GoalKind::Achievable, &ts(3)).unwrap();
    s.undo_last().unwrap();
    assert_eq!(snapshot(&s), before);

    s.set_achieved(&a, true, &ts(4)).unwrap();
    s.undo_last().unwrap();
    assert_eq!(snapshot(&s), before);

    s.add_priority_edge(&a, &b, &ts(5)).unwrap();
    let ranked = snapshot(&s);
    s.undo_last().unwrap();
    assert_eq!(snapshot(&s), before);

    s.add_priority_edge(&a, &b, &ts(6)).unwrap();
    s.remove_priority_edge(&a, &b, &ts(7)).unwrap();
    s.undo_last().unwrap();
    assert_eq!(snapshot(&s).0, ranked.0);
    assert_eq!(snapshot(&s).1, ranked.1);
    assert_eq!(s.undone_table().len(), 4);
}

#[test]
fn law_ranking_never_closes_a_cycle() {
    let mut s = Store::new();
    let ids: Vec<String> = (0..4).map(|i| s.add_goal("g", None, &GoalKind::Achievable, &ts(i)).unwrap()).collect();
    s.add_priority_edge(&ids[0], &ids[1], &ts(10)).unwrap();
    s.add_priority_edge(&ids[1], &ids[2], &ts(11)).unwrap();
    s.add_priority_edge(&ids[2], &ids[3], &ts(12)).unwrap();
    for i in 0..4 {
        for j in 0..i {
            assert!(matches!(s.add_priority_edge(&ids[i], &ids[j], &ts(20)), Err(GoalError::PriorityCycle)));
        }
    }
    assert_eq!(s.all_priority_edges().len(), 3);
}

#[test]
fn law_priority_order_lists_each_goal_once() {
    let mut s = Store::new();
    let ids: Vec<String> = (0..5).map(|i| s.add_goal("g", None, &GoalKind::Achievable, &ts(i)).unwrap()).collect();
    s.add_priority_edge(&ids[3], &ids[0], &ts(10)).unwrap();
    s.add_priority_edge(&ids[0], &ids[4], &ts(11)).unwrap();
    let goals = s.all_goals();
    let order = goal::priority::compute_priority_order(&goals, &s.all_priority_edges(), &s.goal_rowids());
    let mut sorted = order.clone();
    sorted.sort();
    let mut expected = ids.clone();
    expected.sort();
    assert_eq!(sorted, expected);
    let p = |x: &String| order.iter().position(|y| y == x).unwrap();
    assert!(p(&ids[3]) < p(&ids[0]));
    assert!(p(&ids[0]) < p(&ids[4]));
}

#[test]
fn store_from_tables_refuses_repeated_keys() {
    let s = Store::new();
    let mut goals = s.goals_table().clone();
    let mut t = Store::new();
    let id = t.add_goal("x", None, &GoalKind::Achievable, &ts(1)).unwrap();
    goals.push(t.get_goal(&id).unwrap());
    goals.push(t.get_goal(&id).unwrap());
    let r = Store::from_tables(goals, vec![], vec![], vec![], vec![], vec![], vec![]);
    assert!(r.is_none());
}

#[test]
fn error_messages() {
    assert_eq!(GoalError::NothingToUndo.message(), "nothing to undo");
    assert_eq!(GoalError::AmbiguousPrefix("a".to_string(), 12).message(), "ambiguous prefix 'a' matches 12 goals");
    assert_eq!(GoalError::AmbiguousAlias("a0".to_string(), 3).message(), "ambiguous prefix 'a0' matches 3 goal aliases");
    assert_eq!(GoalError::NoMatch("zz".to_string()).message(), "no goal matching 'zz'");
    assert_eq!(GoalError::NoGoal("a0x".to_string()).message(), "no goal with id 'a0x'");
    assert_eq!(
        GoalError::ContinuousGoal("c0x".to_string()).message(),
        "goal 'c0x' is continuous and cannot be marked done"
    );
    assert!(GoalError::ReparentUnderDescendant.message().contains("descendant"));
    assert!(GoalError::PriorityCycle.message().contains("cycle"));
    assert_eq!(GoalError::EdgeExists("a".to_string(), "b".to_string()).message(), "priority edge already exists: a > b");
    assert_eq!(GoalError::NoEdge("a".to_string(), "b".to_string()).message(), "no priority edge a > b");
    assert_eq!(GoalError::MissingNewId("Add".to_string()).message(), "malformed Add event: missing new_id");
    assert_eq!(GoalError::MissingNewId("Prioritize".to_string()).message(), "malformed Prioritize event");
    assert_eq!(GoalError::MalformedEdgeId("x".to_string()).message(), "malformed edge new_id: 'x'");
    assert_eq!(GoalError::UnknownOp("X".to_string()).message(), "unknown op 'X'");
    assert_eq!(
        GoalError::AmbiguousAnnotation("n".to_string(), 0).message(),
        "ambiguous annotation prefix 'n' matches 0 annotations"
    );
    assert_eq!(goal::messages::decimal_string(0), "0");
    assert_eq!(goal::messages::decimal_string(1907), "1907");
}

#[test]
fn modify_renames_an_id_with_wide_characters() {
    let g = goal::model::Goal {
        id: "a0ééééééé".to_string(),
        parent_id: None,
        body: "wide".to_string(),
        achieved: false,
        kind: GoalKind::Achievable,
    };
    let mut s = Store::from_tables(vec![g], vec![], vec![], vec![], vec![], vec![], vec![]).unwrap();
    let keep = goal::model::ModifyParent::Keep;
    assert!(s.modify_is_safe("a0ééééééé", &keep, Some(GoalKind::Continuous)));
    let r = s.modify_goal("a0ééééééé", None, &keep, Some(GoalKind::Continuous), "2024-01-01 00:00:01").unwrap();
    assert_eq!(r, "c0ééééééé");
}

#[test]
fn law_renaming_moves_rankings_and_collapses_aliases() {
    let mut s = Store::new();
    let a = s.add_goal("A", None, &GoalKind::Achievable, "2024-01-01 00:00:01").unwrap();
    let b = s.add_goal("B", Some(&a), &GoalKind::Achievable, "2024-01-01 00:00:02").unwrap();
    let x = s.add_goal("X", None, &GoalKind::Achievable, "2024-01-01 00:00:03").unwrap();
    s.add_priority_edge(&x, &b, "2024-01-01 00:00:04").unwrap();
    s.add_priority_edge(&a, &x, "2024-01-01 00:00:05").unwrap();
    let keep = goal::model::ModifyParent::Keep;
    let detach = goal::model::ModifyParent::Detach;
    // Moving B to the top renames it; the ranking X > B follows.
    let b1 = s.modify_goal(&b, None, &detach, None, "2024-01-01 00:00:06").unwrap();
    assert_eq!(s.all_priority_edges(), vec![(x.clone(), b1.clone()), (a.clone(), x.clone())]);
    // A second rename: both old ids of B now lead straight to the newest.
    let b2 = s.modify_goal(&b1, None, &keep, Some(GoalKind::Continuous), "2024-01-01 00:00:07").unwrap();
    let aliases = s.aliases_table().clone();
    assert!(aliases.contains(&(b.clone(), b2.clone())));
    assert!(aliases.contains(&(b1.clone(), b2.clone())));
    assert_eq!(s.all_priority_edges(), vec![(x.clone(), b2.clone()), (a.clone(), x.clone())]);
}

#[test]
fn law_priority_order_ignores_rankings_to_goals_not_listed() {
    let g = |id: &str| goal::model::Goal {
        id: id.to_string(),
        parent_id: None,
        body: String::new(),
        achieved: false,
        kind: GoalKind::Achievable,
    };
    let goals = vec![g("B"), g("C")];
    let rowids = vec![("B".to_string(), 1), ("C".to_string(), 2)];
    let with_outside = vec![("A".to_string(), "C".to_string())];
    let order = goal::priority::compute_priority_order(&goals, &with_outside, &rowids);
    assert_eq!(order, vec!["C".to_string(), "B".to_string()]);
    assert_eq!(order, goal::priority::compute_priority_order(&goals, &[], &rowids));
}
