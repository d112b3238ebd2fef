//! Properties of the tracker that relate several operations: what a lookup
//! gives back after a change, what undo gives back after each operation, that
//! ranking never closes a cycle, what the priority order lists, and what a
//! deletion or a modification does to the goal tree.
use vstd::prelude::*;
use crate::graph::{edges_within, lemma_reaches_trans, lemma_reaches_with_edge, reaches};
use crate::model::{GoalKind, GoalView, LogEntryView, PairView};
use crate::priority::{active_pairs, distinct, index_of, priority_order, priority_positions};
use crate::priority_facts::{lemma_positions_permutation, lemma_positions_respect};
use crate::store::delete::goals_without;
use crate::store::ops::{add_edge_outcome, add_goal_outcome, edge_name, has_event, remove_edge_outcome,
    set_achieved_outcome, without_pair};
use crate::store::undo::{is_latest, latest_index, lemma_latest_unique, set_achieved_where, split_edge,
    undo_outcome};
use crate::store::{alias_olds, annotation_ids, goal_id_seq, has_goal, no_dups, table_change, table_state, wf, StoreView};
use crate::text::{first_index_of, seq_le, seq_lt};
use crate::ids::{id_depth, id_kind, lemma_derived_id_decodes};
use crate::model::ModifyParentView;
use crate::store::modify::{first_pos, redirect_aliases, rename_higher, rename_lower, upsert_alias, renamed_fold, renamed_step, changes_ids, depth32, depth_delta, derived_all, derived_at, fresh_ids_fit, lemma_levels_first,
    modify_outcome, node_depth, parent_after};
use crate::store::{bounded_at, find_goal, goal_index, id_keys, sort_by_id, subtree_of};
use crate::store::delete::{add_cross, add_new, add_row, added_upto, lemma_goals_without_members, lowers, remove_goal_outcome, removed_upto, touching, uppers};
use crate::store::undo::{drop_annotation, put_note_back, reinsert_note};
use crate::store::ops::{group_tags, sorted_tags, add_annotation_outcome, delete_annotation_outcome, edit_annotation_outcome, add_tag_outcome, annotation_index, annotations_for_spec, annotations_of, created_keys, has_annotation};
use crate::model::AnnotationView;
use crate::sorting::sorted_positions;
use crate::store::report::{all_pairs, event_line, history, pending, row_pairs, time_keys, unranked, unrelated};

verus! {

/// No timestamp of the history is later than `now`.
pub open spec fn not_after(events: Seq<LogEntryView>, now: Seq<char>) -> bool {
    forall|j: int| 0 <= j < events.len() ==> seq_le(#[trigger] events[j].timestamp, now)
}

/// No goal can be reached from itself along the edges.
pub open spec fn acyclic(e: Seq<PairView>) -> bool {
    forall|x: Seq<char>| !reaches(e, x, x)
}

/// The names of the operations are distinct.
proof fn lemma_op_names_distinct()
    ensures
        "Add"@ != "Done"@,
        "Add"@ != "Undone"@,
        "Add"@ != "Delete"@,
        "Add"@ != "Prioritize"@,
        "Add"@ != "Deprioritize"@,
        "Done"@ != "Undone"@,
        "Done"@ != "Delete"@,
        "Done"@ != "Prioritize"@,
        "Done"@ != "Deprioritize"@,
        "Undone"@ != "Delete"@,
        "Undone"@ != "Prioritize"@,
        "Undone"@ != "Deprioritize"@,
        "Delete"@ != "Prioritize"@,
        "Delete"@ != "Deprioritize"@,
        "Prioritize"@ != "Deprioritize"@,
        "Modify"@ != "Add"@,
        "Modify"@ != "Done"@,
        "Modify"@ != "Undone"@,
        "Modify"@ != "Delete"@,
        "Modify"@ != "Prioritize"@,
        "Modify"@ != "Deprioritize"@,
        "Annotate"@ != "Add"@,
        "Annotate"@ != "Done"@,
        "Annotate"@ != "Undone"@,
        "Annotate"@ != "Delete"@,
        "Annotate"@ != "Prioritize"@,
        "Annotate"@ != "Deprioritize"@,
        "Annotate"@ != "Modify"@,
        "EditNote"@ != "Add"@,
        "EditNote"@ != "Done"@,
        "EditNote"@ != "Undone"@,
        "EditNote"@ != "Delete"@,
        "EditNote"@ != "Prioritize"@,
        "EditNote"@ != "Deprioritize"@,
        "EditNote"@ != "Modify"@,
        "EditNote"@ != "Annotate"@,
        "DeleteNote"@ != "Add"@,
        "DeleteNote"@ != "Done"@,
        "DeleteNote"@ != "Undone"@,
        "DeleteNote"@ != "Delete"@,
        "DeleteNote"@ != "Prioritize"@,
        "DeleteNote"@ != "Deprioritize"@,
        "DeleteNote"@ != "Modify"@,
        "DeleteNote"@ != "Annotate"@,
        "DeleteNote"@ != "EditNote"@,
{
    reveal_strlit("Add");
    reveal_strlit("Done");
    reveal_strlit("Undone");
    reveal_strlit("Delete");
    reveal_strlit("Prioritize");
    reveal_strlit("Deprioritize");
    reveal_strlit("Modify");
    reveal_strlit("Annotate");
    reveal_strlit("EditNote");
    reveal_strlit("DeleteNote");
    assert("Add"@[0] != "Done"@[0]);
    assert("Add"@[0] != "Undone"@[0]);
    assert("Add"@[0] != "Delete"@[0]);
    assert("Add"@[0] != "Prioritize"@[0]);
    assert("Add"@[0] != "Deprioritize"@[0]);
    assert("Done"@[0] != "Undone"@[0]);
    assert("Done"@.len() != "Delete"@.len());
    assert("Done"@[0] != "Prioritize"@[0]);
    assert("Done"@.len() != "Deprioritize"@.len());
    assert("Undone"@[0] != "Delete"@[0]);
    assert("Undone"@[0] != "Prioritize"@[0]);
    assert("Undone"@[0] != "Deprioritize"@[0]);
    assert("Delete"@[0] != "Prioritize"@[0]);
    assert("Delete"@.len() != "Deprioritize"@.len());
    assert("Prioritize"@[0] != "Deprioritize"@[0]);
    assert("Modify"@[0] != "Add"@[0]);
    assert("Modify"@[0] != "Done"@[0]);
    assert("Modify"@[0] != "Undone"@[0]);
    assert("Modify"@[0] != "Delete"@[0]);
    assert("Modify"@[0] != "Prioritize"@[0]);
    assert("Modify"@[0] != "Deprioritize"@[0]);
    assert("Annotate"@[1] != "Add"@[1]);
    assert("Annotate"@[0] != "Done"@[0]);
    assert("Annotate"@[0] != "Undone"@[0]);
    assert("Annotate"@[0] != "Delete"@[0]);
    assert("Annotate"@[0] != "Prioritize"@[0]);
    assert("Annotate"@[0] != "Deprioritize"@[0]);
    assert("Annotate"@[0] != "Modify"@[0]);
    assert("EditNote"@[0] != "Add"@[0]);
    assert("EditNote"@[0] != "Done"@[0]);
    assert("EditNote"@[0] != "Undone"@[0]);
    assert("EditNote"@[0] != "Delete"@[0]);
    assert("EditNote"@[0] != "Prioritize"@[0]);
    assert("EditNote"@[0] != "Deprioritize"@[0]);
    assert("EditNote"@[0] != "Modify"@[0]);
    assert("EditNote"@[0] != "Annotate"@[0]);
    assert("DeleteNote"@[0] != "Add"@[0]);
    assert("DeleteNote"@.len() != "Done"@.len());
    assert("DeleteNote"@[0] != "Undone"@[0]);
    assert("DeleteNote"@.len() != "Delete"@.len());
    assert("DeleteNote"@[0] != "Prioritize"@[0]);
    assert("DeleteNote"@.len() != "Deprioritize"@.len());
    assert("DeleteNote"@[0] != "Modify"@[0]);
    assert("DeleteNote"@[0] != "Annotate"@[0]);
    assert("DeleteNote"@[0] != "EditNote"@[0]);
}

/// What undoing a ranking entry does.
#[verifier::spinoff_prover]
#[verifier::rlimit(40)]
proof fn lemma_undo_rank_effect(s1: StoreView, e: LogEntryView, snap: Seq<GoalView>, h: Seq<char>, l: Seq<char>)
    requires
        !h.contains(':'),
        e.op == "Prioritize"@ || e.op == "Deprioritize"@,
        e.new_id == Some(edge_name(h, l)),
    ensures
        crate::store::undo::undo_effect(s1, e, snap) == Ok::<StoreView, crate::model::GoalErrorView>(
            if e.op == "Prioritize"@ {
                StoreView { edges: without_pair(s1.edges, (h, l)), ..s1 }
            } else {
                StoreView { edges: crate::store::delete::add_new(s1.edges, seq![(h, l)]), ..s1 }
            },
        ),
{
    lemma_op_names_distinct();
    law_edge_name_splits_back(h, l);
}

/// Undo moves the latest entry when its effect succeeds.
proof fn lemma_undo_latest(s1: StoreView, s2: StoreView)
    requires
        s1.events.len() > 0,
        latest_index(s1.events) == s1.events.len() - 1,
        s1.events.last().snapshot is Some,
        crate::store::undo::undo_effect(s1, s1.events.last(), s1.events.last().snapshot->Some_0)
            == Ok::<StoreView, crate::model::GoalErrorView>(s2),
        !has_event(s2.undone, s1.events.last().event_id),
    ensures
        undo_outcome(s1) == Ok::<StoreView, crate::model::GoalErrorView>(
            StoreView { events: s2.events.remove(s1.events.len() - 1), undone: s2.undone.push(s1.events.last()), ..s2 },
        ),
{
}

/// An entry recorded at `now`, when no earlier one is later, is the latest.
proof fn lemma_pushed_is_latest(events: Seq<LogEntryView>, e: LogEntryView)
    requires
        not_after(events, e.timestamp),
    ensures
        latest_index(events.push(e)) == events.len(),
{
    let ev = events.push(e);
    let n = events.len() as int;
    assert forall|j: int| 0 <= j < ev.len() && j != n implies
        crate::text::seq_lt(#[trigger] ev[j].timestamp, ev[n].timestamp) || (ev[j].timestamp == ev[n].timestamp && j < n) by {
        assert(ev[j] == events[j]);
        assert(seq_le(events[j].timestamp, e.timestamp));
    }
    assert(is_latest(ev, n));
    let k = latest_index(ev);
    assert(is_latest(ev, k));
    lemma_latest_unique(ev, k, n);
}

proof fn lemma_goals_without_absent(goals: Seq<GoalView>, id: Seq<char>)
    requires
        !has_goal(goals, id),
    ensures
        goals_without(goals, seq![id]) == goals,
    decreases goals.len(),
{
    if goals.len() > 0 {
        let t = goals.drop_last();
        assert(!has_goal(t, id)) by {
            if has_goal(t, id) {
                let i = choose|i: int| 0 <= i < t.len() && (#[trigger] t[i]).id == id;
                assert(goals[i] == t[i]);
            }
        }
        lemma_goals_without_absent(t, id);
        assert(goals[goals.len() - 1].id != id);
        assert(!seq![id].contains(goals.last().id)) by {
            if seq![id].contains(goals.last().id) {
                assert(seq![id][0] == id);
            }
        }
        assert(t.push(goals.last()) =~= goals);
    }
}

proof fn lemma_without_absent_pair(e: Seq<PairView>, p: PairView)
    requires
        !e.contains(p),
    ensures
        without_pair(e, p) == e,
    decreases e.len(),
{
    if e.len() > 0 {
        let t = e.drop_last();
        assert(!t.contains(p)) by {
            if t.contains(p) {
                let i = choose|i: int| 0 <= i < t.len() && t[i] == p;
                assert(e[i] == p);
            }
        }
        lemma_without_absent_pair(t, p);
        assert(e[e.len() - 1] != p);
        assert(t.push(e.last()) =~= e);
    }
}

/// The name `higher:lower` that a ranking's history entry keeps splits back
/// into the two ids (where the higher id has no `:`, as no generated id has).
pub proof fn law_edge_name_splits_back(h: Seq<char>, l: Seq<char>)
    requires
        !h.contains(':'),
    ensures
        split_edge(edge_name(h, l)) == Some((h, l)),
{
    let n = edge_name(h, l);
    assert(n[h.len() as int] == ':');
    assert forall|i: int| 0 <= i < h.len() implies n[i] != ':' by {
        assert(n[i] == h[i]);
    }
    let p = first_index_of(n, ':');
    assert(p == Some(h.len() as int)) by {
        assert(n.contains(':'));
        let q = choose|q: int| 0 <= q < n.len() && n[q] == ':' && forall|r: int| 0 <= r < q ==> n[r] != ':';
        assert(n.take(h.len() as int) =~= h);
    }
    assert(n.subrange(0, h.len() as int) =~= h);
    assert(n.subrange(h.len() as int + 1, n.len() as int) =~= l);
}

/// Undoing an addition takes the new goal out again and gives back the
/// history as it was; the addition's entry moves to the undone entries.
/// (The clock is taken not to run backwards: no earlier entry is later than
/// the addition.)
pub proof fn law_undo_reverts_add(
    s: StoreView,
    body: Seq<char>,
    parent_id: Option<Seq<char>>,
    kind: GoalKind,
    id: Seq<char>,
    event_id: Seq<char>,
    now: Seq<char>,
)
    requires
        wf(s),
        not_after(s.events, now),
        !has_event(s.undone, event_id),
        add_goal_outcome(s, body, parent_id, kind, id, event_id, now) is Ok,
    ensures
        ({
            let s1 = add_goal_outcome(s, body, parent_id, kind, id, event_id, now)->Ok_0.0;
            undo_outcome(s1) == Ok::<StoreView, crate::model::GoalErrorView>(
                StoreView { undone: s.undone.push(s1.events.last()), ..s },
            )
        }),
{
    let s1 = add_goal_outcome(s, body, parent_id, kind, id, event_id, now)->Ok_0.0;
    let e = s1.events.last();
    lemma_op_names_distinct();
    assert(s1.events == s.events.push(e));
    lemma_pushed_is_latest(s.events, e);
    assert(s1.goals == s.goals.push(crate::store::ops::goal_row(id, parent_id, body, false)));
    lemma_goals_without_absent(s.goals, id);
    assert(goals_without(s1.goals, seq![id]) == goals_without(s.goals, seq![id])) by {
        assert(seq![id].contains(id)) by {
            assert(seq![id][0] == id);
        }
        assert(s1.goals.drop_last() =~= s.goals);
    }
    assert(s1.events.remove(s.events.len() as int) =~= s.events);
}

/// Undoing a change of a goal's done flag sets the flag back and gives back
/// the history as it was; the change's entry moves to the undone entries.
pub proof fn law_undo_reverts_set_achieved(s: StoreView, id: Seq<char>, achieved: bool, event_id: Seq<char>, now: Seq<char>)
    requires
        wf(s),
        not_after(s.events, now),
        !has_event(s.undone, event_id),
        set_achieved_outcome(s, id, achieved, event_id, now) is Ok,
    ensures
        ({
            let s1 = set_achieved_outcome(s, id, achieved, event_id, now)->Ok_0;
            undo_outcome(s1) == Ok::<StoreView, crate::model::GoalErrorView>(
                StoreView { undone: s.undone.push(s1.events.last()), ..s },
            )
        }),
{
    let s1 = set_achieved_outcome(s, id, achieved, event_id, now)->Ok_0;
    let e = s1.events.last();
    lemma_pushed_is_latest(s.events, e);
    lemma_op_names_distinct();
    let i = crate::store::goal_index(s.goals, id);
    let g = s.goals[i];
    assert(e.snapshot == Some(seq![g]));
    let back = set_achieved_where(s1.goals, g.id, g.achieved);
    assert(back =~= s.goals) by {
        assert forall|j: int| 0 <= j < s.goals.len() implies back[j] == s.goals[j] by {
            if j != i {
                assert(goal_id_seq(s.goals)[j] != goal_id_seq(s.goals)[i]);
            }
        }
    }
    assert(s1.events.remove(s.events.len() as int) =~= s.events);
    let s2 = StoreView { goals: back, ..s1 };
    assert(crate::store::undo::undo_effect(s1, e, seq![g]) == Ok::<StoreView, crate::model::GoalErrorView>(s2));
    assert(s1.undone == s.undone);
}

/// Undoing a ranking takes the edge out again and gives back the history as
/// it was; the ranking's entry moves to the undone entries. (Ids with no
/// `:` in them, as every generated id is.)
pub proof fn law_undo_reverts_rank(s: StoreView, h: Seq<char>, l: Seq<char>, event_id: Seq<char>, now: Seq<char>)
    requires
        wf(s),
        not_after(s.events, now),
        !has_event(s.undone, event_id),
        !h.contains(':'),
        add_edge_outcome(s, h, l, event_id, now) is Ok,
    ensures
        ({
            let s1 = add_edge_outcome(s, h, l, event_id, now)->Ok_0;
            undo_outcome(s1) == Ok::<StoreView, crate::model::GoalErrorView>(
                StoreView { undone: s.undone.push(s1.events.last()), ..s },
            )
        }),
{
    let s1 = add_edge_outcome(s, h, l, event_id, now)->Ok_0;
    let e = s1.events.last();
    assert(s1 == StoreView {
        edges: s.edges.push((h, l)),
        events: s.events.push(e),
        ..s
    });
    lemma_pushed_is_latest(s.events, e);
    lemma_without_absent_pair(s.edges, (h, l));
    assert(s.edges.push((h, l)).drop_last() =~= s.edges);
    assert(without_pair(s.edges.push((h, l)), (h, l)) == s.edges);
    assert(e.op == "Prioritize"@ && e.new_id == Some(edge_name(h, l)));
    lemma_undo_rank_effect(s1, e, e.snapshot->Some_0, h, l);
    lemma_undo_latest(s1, StoreView { edges: s.edges, ..s1 });
    assert(s.events.push(e).remove(s.events.len() as int) =~= s.events);
}

/// Undoing the removal of a ranking puts the edge back (at the end of the
/// table: the same set of edges) and gives back the history as it was; the
/// removal's entry moves to the undone entries.
pub proof fn law_undo_reverts_unrank(s: StoreView, h: Seq<char>, l: Seq<char>, event_id: Seq<char>, now: Seq<char>)
    requires
        wf(s),
        not_after(s.events, now),
        !has_event(s.undone, event_id),
        !h.contains(':'),
        remove_edge_outcome(s, h, l, event_id, now) is Ok,
    ensures
        ({
            let s1 = remove_edge_outcome(s, h, l, event_id, now)->Ok_0;
            undo_outcome(s1) matches Ok(s2) && s2.edges.to_set() == s.edges.to_set() && no_dups(s2.edges)
                && s2 == StoreView { edges: s2.edges, undone: s.undone.push(s1.events.last()), ..s }
        }),
{
    let s1 = remove_edge_outcome(s, h, l, event_id, now)->Ok_0;
    let e = s1.events.last();
    let w = without_pair(s.edges, (h, l));
    assert(s1 == StoreView {
        edges: w,
        events: s.events.push(e),
        ..s
    });
    lemma_pushed_is_latest(s.events, e);
    assert(e.op == "Deprioritize"@ && e.new_id == Some(edge_name(h, l)));
    lemma_op_names_distinct();
    lemma_undo_rank_effect(s1, e, e.snapshot->Some_0, h, l);
    let back = crate::store::delete::add_new(w, seq![(h, l)]);
    lemma_undo_latest(s1, StoreView { edges: back, ..s1 });
    assert(s.events.push(e).remove(s.events.len() as int) =~= s.events);
    lemma_put_back(s.edges, (h, l));
}

/// Taking a pair out and adding it again gives the same set of pairs,
/// each once.
proof fn lemma_put_back(e: Seq<PairView>, p: PairView)
    requires
        no_dups(e),
        e.contains(p),
    ensures
        crate::store::delete::add_new(without_pair(e, p), seq![p]).to_set() == e.to_set(),
        no_dups(crate::store::delete::add_new(without_pair(e, p), seq![p])),
{
    crate::store::ops::lemma_without_pair_sub(e, p);
    let w = without_pair(e, p);
    assert(!w.contains(p)) by {
        if w.contains(p) {
            let k = choose|k: int| 0 <= k < w.len() && w[k] == p;
            assert(w[k] != p);
        }
    }
    let back = crate::store::delete::add_new(w, seq![p]);
    assert(seq![p].drop_last() =~= Seq::<PairView>::empty());
    assert(crate::store::delete::add_new(w, Seq::<PairView>::empty()) == w);
    assert(back == w.push(p));
    lemma_without_pair_set(e, p);
    assert(back.to_set() =~= e.to_set()) by {
        assert forall|x: PairView| back.to_set().contains(x) <==> e.to_set().contains(x) by {
            if x == p {
                assert(back[w.len() as int] == x);
            } else {
                if back.contains(x) {
                    let k = choose|k: int| 0 <= k < back.len() && back[k] == x;
                    assert(w[k] == x);
                }
                if e.contains(x) {
                    assert(w.contains(x));
                    let k = choose|k: int| 0 <= k < w.len() && w[k] == x;
                    assert(back[k] == x);
                }
            }
        }
    }
    crate::store::ops::lemma_without_pair_no_dups(e, p);
    crate::store::delete::lemma_add_new_no_dups(w, seq![p]);
}

/// Ranking never closes a cycle: where the rankings had no cycle, a ranking
/// that is accepted leaves them without one.
pub proof fn law_rank_keeps_acyclic(s: StoreView, h: Seq<char>, l: Seq<char>, event_id: Seq<char>, now: Seq<char>)
    requires
        acyclic(s.edges),
        add_edge_outcome(s, h, l, event_id, now) is Ok,
    ensures
        acyclic(add_edge_outcome(s, h, l, event_id, now)->Ok_0.edges),
{
    let e2 = add_edge_outcome(s, h, l, event_id, now)->Ok_0.edges;
    assert(e2 == s.edges.push((h, l)));
    assert forall|z: Seq<char>| !reaches(e2, z, z) by {
        if reaches(e2, z, z) {
            lemma_reaches_with_edge(s.edges, (h, l), z, z);
            assert(!reaches(s.edges, z, z));
            if z == h {
                if l != z {
                    assert(reaches(s.edges, l, h));
                }
            } else if l == z {
                assert(reaches(s.edges, l, h));
            } else {
                lemma_reaches_trans(s.edges, l, z, h);
            }
        }
    }
}

/// The priority order lists every goal exactly once.
pub proof fn law_priority_order_lists_each_goal_once(ids: Seq<Seq<char>>, e: Seq<PairView>, r: Seq<(Seq<char>, i64)>)
    requires
        distinct(ids),
    ensures
        priority_order(ids, e, r).len() == ids.len(),
        distinct(priority_order(ids, e, r)),
        forall|x: Seq<char>| priority_order(ids, e, r).contains(x) <==> ids.contains(x),
{
    lemma_positions_permutation(ids, e, r);
    let p = priority_positions(ids, e, r);
    let o = priority_order(ids, e, r);
    assert forall|a: int, b: int| 0 <= a < o.len() && 0 <= b < o.len() && a != b implies o[a] != o[b] by {
        assert(0 <= p[a] < ids.len() && 0 <= p[b] < ids.len());
        assert(p[a] != p[b]);
    }
    assert forall|x: Seq<char>| o.contains(x) <==> ids.contains(x) by {
        if o.contains(x) {
            let k = choose|k: int| 0 <= k < o.len() && o[k] == x;
            assert(0 <= p[k] < ids.len());
            assert(ids[p[k]] == x);
        }
        if ids.contains(x) {
            let i = choose|i: int| 0 <= i < ids.len() && ids[i] == x;
            assert(p.contains(i));
            let k = choose|k: int| 0 <= k < p.len() && p[k] == i;
            assert(o[k] == x);
        }
    }
}

proof fn lemma_active_pairs_within(ids: Seq<Seq<char>>, e: Seq<PairView>)
    ensures
        active_pairs(ids, edges_within(e, ids)) == active_pairs(ids, e),
    decreases e.len(),
{
    if e.len() > 0 {
        lemma_active_pairs_within(ids, e.drop_last());
        let w = edges_within(e.drop_last(), ids);
        if ids.contains(e.last().0) && ids.contains(e.last().1) {
            assert(w.push(e.last()).drop_last() =~= w);
        }
    }
}

/// The priority order reads only the rankings between the goals it orders:
/// a ranking with an end outside them (such as a done goal left out) changes
/// nothing.
pub proof fn law_priority_order_ignores_outside_edges(ids: Seq<Seq<char>>, e: Seq<PairView>, r: Seq<(Seq<char>, i64)>)
    ensures
        priority_order(ids, e, r) == priority_order(ids, edges_within(e, ids), r),
{
    lemma_active_pairs_within(ids, e);
}

/// Where the rankings have no cycle, a goal ranked above another comes
/// before it in the priority order.
pub proof fn law_priority_order_follows_rankings(
    ids: Seq<Seq<char>>,
    e: Seq<PairView>,
    r: Seq<(Seq<char>, i64)>,
    h: Seq<char>,
    l: Seq<char>,
)
    requires
        distinct(ids),
        acyclic(e),
        e.contains((h, l)),
        ids.contains(h),
        ids.contains(l),
    ensures
        exists|i: int, j: int|
            0 <= i < j < priority_order(ids, e, r).len() && priority_order(ids, e, r)[i] == h && priority_order(ids, e, r)[j] == l,
{
    lemma_positions_respect(ids, e, r, h, l);
    let p = priority_positions(ids, e, r);
    let (i, j) = choose|i: int, j: int| 0 <= i < j < p.len() && p[i] == index_of(ids, h) && p[j] == index_of(ids, l);
    let o = priority_order(ids, e, r);
    assert(o[i] == h && o[j] == l);
}

/// A modification gives the goal an id for its new place: the id encodes the
/// new kind, and the depth one below the new parent (0 at the top). (Depths
/// within the 32-bit signed range that the modification computes with.)
pub proof fn law_modify_id_encodes_new_place(
    s: StoreView,
    id: Seq<char>,
    new_body: Option<Seq<char>>,
    np: ModifyParentView,
    nk: Option<GoalKind>,
    nids: Seq<Seq<char>>,
    event_id: Seq<char>,
    now: Seq<char>,
)
    requires
        wf(s),
        fresh_ids_fit(s, id, np, nk, nids),
        modify_outcome(s, id, new_body, np, nk, nids, event_id, now) is Ok,
        id_depth(id) <= i32::MAX,
        parent_after(find_goal(s.goals, id)->Some_0, np) matches Some(p) ==> id_depth(p) < i32::MAX,
    ensures
        ({
            let root = find_goal(s.goals, id)->Some_0;
            let x = modify_outcome(s, id, new_body, np, nk, nids, event_id, now)->Ok_0.1;
            &&& id_kind(x) == (match nk { Some(k) => k, None => root.kind })
            &&& id_depth(x) == (match parent_after(root, np) { Some(p) => id_depth(p) + 1, None => 0 })
        }),
{
    let sub = subtree_of(s.goals, id)->Some_0;
    let root = find_goal(s.goals, id)->Some_0;
    lemma_levels_first(s.goals, root, s.goals.len() + 1);
    assert(sub[0] == root);
    let i = goal_index(s.goals, id);
    assert(root == s.goals[i] && root.id == id);
    let parent = parent_after(root, np);
    let delta = depth_delta(id, parent);
    let new_kind = match nk { Some(k) => k, None => root.kind };
    crate::ids::lemma_depth_from_nonneg(id, 1);
    assert(depth32(id) == id_depth(id));
    if let Some(p) = parent {
        crate::ids::lemma_depth_from_nonneg(p, 1);
        assert(depth32(p) == id_depth(p));
    }
    if changes_ids(sub, id, np, nk) {
        let bs = choose|bs: Seq<Seq<u8>>| #![trigger derived_all(sub, nids, new_kind, delta, bs)] derived_all(sub, nids, new_kind, delta, bs);
        assert(derived_at(sub, nids, new_kind, delta, 0, bs[0]));
        lemma_derived_id_decodes(sub[0].id, new_kind, node_depth(sub, 0, delta), bs[0]);
    }
}

/// Deleting a goal takes out exactly its subtree: the goal itself, every goal
/// whose parent is taken out, and no other goal. (For a goal `g` of the
/// table before the deletion.)
pub proof fn law_remove_takes_out_subtree(s: StoreView, id: Seq<char>, event_id: Seq<char>, now: Seq<char>, g: GoalView)
    requires
        wf(s),
        bounded_at(s.goals, id),
        remove_goal_outcome(s, id, event_id, now) is Ok,
        s.goals.contains(g),
    ensures
        ({
            let s2 = remove_goal_outcome(s, id, event_id, now)->Ok_0;
            let taken_out = |p: Seq<char>| has_goal(s.goals, p) && !has_goal(s2.goals, p);
            &&& forall|x: GoalView| s2.goals.contains(x) ==> s.goals.contains(x)
            &&& g.id == id ==> !s2.goals.contains(g)
            &&& (g.parent_id matches Some(p) && taken_out(p)) ==> !s2.goals.contains(g)
            &&& !s2.goals.contains(g) ==> (g.id == id || (g.parent_id matches Some(p) && taken_out(p)))
        }),
{
    let s2 = remove_goal_outcome(s, id, event_id, now)->Ok_0;
    let root = find_goal(s.goals, id)->Some_0;
    let sub = subtree_of(s.goals, id)->Some_0;
    let sids = goal_id_seq(sub);
    let n = (s.goals.len() + 1) as nat;
    assert(s2.goals == goals_without(s.goals, sids));
    lemma_goals_without_members(s.goals, sids);
    lemma_levels_first(s.goals, root, n);
    let i = goal_index(s.goals, id);
    assert(root == s.goals[i] && root.id == id);
    assert(s.goals.contains(root));
    assert(sids[0] == id);
    // A goal with an id of the subtree is taken out, and every goal taken out
    // has such an id.
    assert forall|p: Seq<char>| sids.contains(p) implies !has_goal(s2.goals, p) by {
        if has_goal(s2.goals, p) {
            let k = choose|k: int| 0 <= k < s2.goals.len() && (#[trigger] s2.goals[k]).id == p;
            assert(s2.goals.contains(s2.goals[k]));
            assert(goals_without(s.goals, sids).contains(s2.goals[k]));
            assert(!sids.contains(s2.goals[k].id));
        }
    }
    if g.id == id {
        assert(sids.contains(id));
    }
    if let Some(p) = g.parent_id {
        if has_goal(s.goals, p) && !has_goal(s2.goals, p) {
            let j = goal_index(s.goals, p);
            let q = s.goals[j];
            assert(s.goals.contains(q));
            if !sids.contains(p) {
                assert(s2.goals.contains(q));
            }
            let k = choose|k: int| 0 <= k < sids.len() && sids[k] == p;
            let m = sub[k];
            assert(sub.contains(m));
            crate::store::tree::lemma_subtree_closed(s.goals, root, m, g);
            let k2 = choose|k2: int| 0 <= k2 < sub.len() && sub[k2] == g;
            assert(sids[k2] == g.id);
    
        }
    }
    if !s2.goals.contains(g) && g.id != id {
        assert(sids.contains(g.id));
        let k = choose|k: int| 0 <= k < sids.len() && sids[k] == g.id;
        let m = sub[k];
        assert(m.id == g.id);
        crate::store::tree::lemma_subtree_in_table(s.goals, root, m);
        // Ids are unique, so the subtree's goal with this id is `g`.
        assert(m == g) by {
            let a = choose|a: int| 0 <= a < s.goals.len() && s.goals[a] == m;
            let b = choose|b: int| 0 <= b < s.goals.len() && s.goals[b] == g;
            if a != b {
                assert(goal_id_seq(s.goals)[a] == goal_id_seq(s.goals)[b]);
            }
        }
        crate::store::tree::lemma_levels_members(s.goals, root, n);
        assert(sub.contains(m));
        assert(crate::store::levels(s.goals, root, n).contains(m));
        let lvl = choose|lvl: nat| lvl < n && #[trigger] crate::store::level(s.goals, root, lvl).contains(m);
        if lvl == 0 {
            assert(crate::store::level(s.goals, root, 0) == seq![root]);
            let z = choose|z: int| 0 <= z < seq![root].len() && seq![root][z] == m;
            assert(m == root);
        } else {
            crate::store::tree::lemma_level_parent(s.goals, root, lvl, m);
            let q = choose|q: GoalView| #[trigger] crate::store::level(s.goals, root, (lvl - 1) as nat).contains(q)
                && m.parent_id == Some(q.id);
            assert(crate::store::levels(s.goals, root, n).contains(q)) by {
                assert(lvl - 1 < n);
            }
            crate::store::tree::lemma_subtree_in_table(s.goals, root, q);
            let kq = choose|kq: int| 0 <= kq < sub.len() && sub[kq] == q;
            assert(sids[kq] == q.id);
            assert(has_goal(s.goals, q.id)) by {
                let a = choose|a: int| 0 <= a < s.goals.len() && s.goals[a] == q;
            }
            assert(sids.contains(q.id));
            assert(!has_goal(s2.goals, q.id));
            assert(g.parent_id == Some(q.id));
        }
    }
}

/// Undo of an entry that kept the tables as they were before and after it:
/// when that entry is the latest, the tables still stand as it left them and
/// it changed only goals, rankings and aliases, undo gives back exactly the
/// state before it.
proof fn lemma_undo_puts_back(s: StoreView, s1: StoreView, e: LogEntryView)
    requires
        wf(s),
        e.op == "Delete"@ || e.op == "Modify"@,
        e.snapshot is Some,
        e.change == Some(table_change(s, s1)),
        not_after(s.events, e.timestamp),
        !has_event(s.undone, e.event_id),
        s1 == (StoreView { goals: s1.goals, edges: s1.edges, aliases: s1.aliases, events: s.events.push(e), ..s }),
    ensures
        undo_outcome(s1) == Ok::<StoreView, crate::model::GoalErrorView>(StoreView { undone: s.undone.push(e), ..s }),
{
    lemma_pushed_is_latest(s.events, e);
    assert(s1.events.last() == e);
    let rows = crate::store::undo::stored_rows(s.goals);
    assert(rows =~= s.goals) by {
        assert forall|i: int| 0 <= i < s.goals.len() implies rows[i] == s.goals[i] by {
            assert(s.goals[i].kind == id_kind(s.goals[i].id));
        }
    }
    let s2 = StoreView { goals: s.goals, edges: s.edges, aliases: s.aliases, ..s1 };
    assert(crate::store::undo::restored(s1, table_state(s)) == Some(s2));
    assert(crate::store::undo::undo_effect(s1, e, e.snapshot->Some_0) == Ok::<StoreView, crate::model::GoalErrorView>(s2));
    lemma_undo_latest(s1, s2);
    assert(s.events.push(e).remove(s.events.len() as int) =~= s.events);
}

/// Undoing a deletion gives back the state before it: the whole subtree with
/// its rows in their places, the rankings as they were (collapsing edges
/// gone, the subtree's edges back) and the history as it was; the deletion's
/// entry moves to the undone entries.
pub proof fn law_undo_reverts_remove(s: StoreView, id: Seq<char>, event_id: Seq<char>, now: Seq<char>)
    requires
        wf(s),
        not_after(s.events, now),
        !has_event(s.undone, event_id),
        remove_goal_outcome(s, id, event_id, now) is Ok,
    ensures
        ({
            let s1 = remove_goal_outcome(s, id, event_id, now)->Ok_0;
            undo_outcome(s1) == Ok::<StoreView, crate::model::GoalErrorView>(
                StoreView { undone: s.undone.push(s1.events.last()), ..s },
            )
        }),
{
    let s1 = remove_goal_outcome(s, id, event_id, now)->Ok_0;
    let e = s1.events.last();
    assert(s1.events == s.events.push(e));
    lemma_undo_puts_back(s, s1, e);
}

/// Re-inserting renamed goals changes only goals, rankings and aliases.
proof fn lemma_renamed_fold_keeps(st: StoreView, sub: Seq<GoalView>, nids: Seq<Seq<char>>, k: int, parent: Option<Seq<char>>, body: Seq<char>)
    requires
        renamed_fold(st, sub, nids, k, parent, body) is Some,
    ensures
        ({
            let r = renamed_fold(st, sub, nids, k, parent, body)->Some_0;
            r == StoreView { goals: r.goals, edges: r.edges, aliases: r.aliases, ..st }
        }),
    decreases k,
{
    if k > 0 {
        lemma_renamed_fold_keeps(st, sub, nids, k - 1, parent, body);
    }
}

/// Undoing a modification gives back the state before it: where ids changed,
/// the whole subtree under its old ids in its rows' places, the rankings and
/// aliases as they were; otherwise the old text and parent. The history is
/// as it was, and the modification's entry moves to the undone entries.
pub proof fn law_undo_reverts_modify(
    s: StoreView,
    id: Seq<char>,
    new_body: Option<Seq<char>>,
    np: ModifyParentView,
    nk: Option<GoalKind>,
    nids: Seq<Seq<char>>,
    event_id: Seq<char>,
    now: Seq<char>,
)
    requires
        wf(s),
        not_after(s.events, now),
        !has_event(s.undone, event_id),
        modify_outcome(s, id, new_body, np, nk, nids, event_id, now) is Ok,
    ensures
        ({
            let s1 = modify_outcome(s, id, new_body, np, nk, nids, event_id, now)->Ok_0.0;
            undo_outcome(s1) == Ok::<StoreView, crate::model::GoalErrorView>(
                StoreView { undone: s.undone.push(s1.events.last()), ..s },
            )
        }),
{
    let s1 = modify_outcome(s, id, new_body, np, nk, nids, event_id, now)->Ok_0.0;
    let e = s1.events.last();
    let sub = subtree_of(s.goals, id)->Some_0;
    let root = sub[0];
    let parent = parent_after(root, np);
    let body = match new_body { Some(b) => b, None => root.body };
    if changes_ids(sub, id, np, nk) {
        let st0 = StoreView { goals: goals_without(s.goals, goal_id_seq(sub)), ..s };
        lemma_renamed_fold_keeps(st0, sub, nids, sub.len() as int, parent, body);
    }
    assert(s1.events == s.events.push(e));
    lemma_undo_puts_back(s, s1, e);
}

/// The id that `x` has after the goals of `sub` got the ids `nids`: its new id
/// where it is an id of the subtree, itself otherwise.
pub open spec fn renamed_to(sub: Seq<GoalView>, nids: Seq<Seq<char>>, x: Seq<char>) -> Seq<char> {
    if goal_id_seq(sub).contains(x) {
        nids[first_pos(goal_id_seq(sub), x)]
    } else {
        x
    }
}

/// The id that `x` has after the first `k` goals of `sub` got their new ids.
spec fn renamed_upto(sub: Seq<GoalView>, nids: Seq<Seq<char>>, k: int, x: Seq<char>) -> Seq<char> {
    if goal_id_seq(sub).take(k).contains(x) {
        nids[first_pos(goal_id_seq(sub), x)]
    } else {
        x
    }
}

proof fn lemma_first_pos_unique(s: Seq<Seq<char>>, j: int)
    requires
        no_dups(s),
        0 <= j < s.len(),
    ensures
        first_pos(s, s[j]) == j,
{
    assert(0 <= j < s.len() && s[j] == s[j] && forall|i: int| 0 <= i < j ==> s[i] != s[j]);
    let c = first_pos(s, s[j]);
    if c != j {
        assert(s[c] == s[j]);
    }
}

/// Renaming one more goal of the subtree.
proof fn lemma_renamed_upto_step(sub: Seq<GoalView>, nids: Seq<Seq<char>>, k: int, x: Seq<char>)
    requires
        no_dups(goal_id_seq(sub)),
        1 <= k <= sub.len(),
        forall|a: int, b: int| 0 <= a < sub.len() && 0 <= b < sub.len() && a != b ==> nids[a] != sub[b].id,
    ensures
        renamed_upto(sub, nids, k, x) == (if renamed_upto(sub, nids, k - 1, x) == sub[k - 1].id {
            nids[k - 1]
        } else {
            renamed_upto(sub, nids, k - 1, x)
        }),
{
    let ids = goal_id_seq(sub);
    assert(ids.take(k) =~= ids.take(k - 1).push(ids[k - 1]));
    assert(ids[k - 1] == sub[k - 1].id);
    if x == ids[k - 1] {
        lemma_first_pos_unique(ids, k - 1);
        if ids.take(k - 1).contains(x) {
            let j = choose|j: int| 0 <= j < k - 1 && #[trigger] ids.take(k - 1)[j] == x;
            assert(ids[j] == ids[k - 1]);
        }
        assert(ids.take(k)[k - 1] == x);
    } else if ids.take(k - 1).contains(x) {
        let j = choose|j: int| 0 <= j < k - 1 && #[trigger] ids.take(k - 1)[j] == x;
        assert(ids[j] == x);
        lemma_first_pos_unique(ids, j);
        assert(ids.take(k)[j] == x);
        assert(nids[j] != sub[k - 1].id);
    } else {
        if ids.take(k).contains(x) {
            let j = choose|j: int| 0 <= j < k && #[trigger] ids.take(k)[j] == x;
            assert(ids.take(k - 1)[j] == x);
        }
    }
}

/// After the first `k` re-insertions each ranking has its ends renamed.
proof fn lemma_fold_renames_edges(
    st0: StoreView,
    sub: Seq<GoalView>,
    nids: Seq<Seq<char>>,
    k: int,
    parent: Option<Seq<char>>,
    body: Seq<char>,
)
    requires
        no_dups(goal_id_seq(sub)),
        0 <= k <= sub.len(),
        forall|a: int, b: int| 0 <= a < sub.len() && 0 <= b < sub.len() && a != b ==> nids[a] != sub[b].id,
        renamed_fold(st0, sub, nids, k, parent, body) is Some,
    ensures
        ({
            let st = renamed_fold(st0, sub, nids, k, parent, body)->Some_0;
            &&& st.edges.len() == st0.edges.len()
            &&& forall|i: int| 0 <= i < st0.edges.len() ==> #[trigger] st.edges[i] == (
                renamed_upto(sub, nids, k, st0.edges[i].0),
                renamed_upto(sub, nids, k, st0.edges[i].1),
            )
        }),
    decreases k,
{
    if k == 0 {
        assert forall|i: int| 0 <= i < st0.edges.len() implies st0.edges[i] == (
            renamed_upto(sub, nids, 0, st0.edges[i].0),
            renamed_upto(sub, nids, 0, st0.edges[i].1),
        ) by {
            assert(goal_id_seq(sub).take(0) =~= Seq::<Seq<char>>::empty());
        }
    } else {
        lemma_fold_renames_edges(st0, sub, nids, k - 1, parent, body);
        let prev = renamed_fold(st0, sub, nids, k - 1, parent, body)->Some_0;
        let st = renamed_fold(st0, sub, nids, k, parent, body)->Some_0;
        let g = sub[k - 1].id;
        let nid = nids[k - 1];
        assert(st.edges == rename_lower(rename_higher(prev.edges, g, nid), g, nid));
        assert forall|i: int| 0 <= i < st0.edges.len() implies #[trigger] st.edges[i] == (
            renamed_upto(sub, nids, k, st0.edges[i].0),
            renamed_upto(sub, nids, k, st0.edges[i].1),
        ) by {
            lemma_renamed_upto_step(sub, nids, k, st0.edges[i].0);
            lemma_renamed_upto_step(sub, nids, k, st0.edges[i].1);
            assert(prev.edges[i] == (renamed_upto(sub, nids, k - 1, st0.edges[i].0), renamed_upto(sub, nids, k - 1, st0.edges[i].1)));
        }
    }
}

/// The rankings follow goals whose ids a modification changes: every ranking
/// keeps its place, each end that was an id of the moved subtree now the new
/// id of that goal. (New ids that take no other goal's old id of the subtree.)
pub proof fn law_rankings_follow_renamed_goals(
    s: StoreView,
    id: Seq<char>,
    new_body: Option<Seq<char>>,
    np: ModifyParentView,
    nk: Option<GoalKind>,
    nids: Seq<Seq<char>>,
    event_id: Seq<char>,
    now: Seq<char>,
)
    requires
        wf(s),
        bounded_at(s.goals, id),
        modify_outcome(s, id, new_body, np, nk, nids, event_id, now) is Ok,
        subtree_of(s.goals, id) matches Some(sub) && changes_ids(sub, id, np, nk)
            && forall|a: int, b: int| 0 <= a < sub.len() && 0 <= b < sub.len() && a != b ==> nids[a] != sub[b].id,
    ensures
        ({
            let s1 = modify_outcome(s, id, new_body, np, nk, nids, event_id, now)->Ok_0.0;
            let sub = subtree_of(s.goals, id)->Some_0;
            &&& s1.edges.len() == s.edges.len()
            &&& forall|k: int| 0 <= k < s.edges.len() ==> #[trigger] s1.edges[k] == (
                renamed_to(sub, nids, s.edges[k].0),
                renamed_to(sub, nids, s.edges[k].1),
            )
        }),
{
    let sub = subtree_of(s.goals, id)->Some_0;
    let root = find_goal(s.goals, id)->Some_0;
    let i = goal_index(s.goals, id);
    assert(root == s.goals[i] && s.goals.contains(root));
    crate::store::tree::lemma_subtree_unique(s.goals, root);
    let parent = parent_after(sub[0], np);
    let body = match new_body { Some(b) => b, None => sub[0].body };
    let st0 = StoreView { goals: goals_without(s.goals, goal_id_seq(sub)), ..s };
    lemma_fold_renames_edges(st0, sub, nids, sub.len() as int, parent, body);
    assert(goal_id_seq(sub).take(sub.len() as int) =~= goal_id_seq(sub));
}

/// After the first `k` re-insertions the alias old ids stay distinct, each
/// renamed goal's old id leads to its new id, and an alias from an id outside
/// the subtree leads to the renamed end.
proof fn lemma_fold_redirects_aliases(
    st0: StoreView,
    sub: Seq<GoalView>,
    nids: Seq<Seq<char>>,
    k: int,
    parent: Option<Seq<char>>,
    body: Seq<char>,
    o: Seq<char>,
    x: Seq<char>,
)
    requires
        no_dups(goal_id_seq(sub)),
        0 <= k <= sub.len(),
        forall|a: int, b: int| 0 <= a < sub.len() && 0 <= b < sub.len() && a != b ==> nids[a] != sub[b].id,
        renamed_fold(st0, sub, nids, k, parent, body) is Some,
        no_dups(alias_olds(st0.aliases)),
        st0.aliases.contains((o, x)),
        !goal_id_seq(sub).contains(o),
    ensures
        ({
            let al = renamed_fold(st0, sub, nids, k, parent, body)->Some_0.aliases;
            &&& no_dups(alias_olds(al))
            &&& al.contains((o, renamed_upto(sub, nids, k, x)))
            &&& forall|j: int| 0 <= j < k ==> al.contains((#[trigger] sub[j].id, nids[j]))
        }),
    decreases k,
{
    if k == 0 {
        assert(goal_id_seq(sub).take(0) =~= Seq::<Seq<char>>::empty());
    } else {
        lemma_fold_redirects_aliases(st0, sub, nids, k - 1, parent, body, o, x);
        let prev = renamed_fold(st0, sub, nids, k - 1, parent, body)->Some_0;
        let st = renamed_fold(st0, sub, nids, k, parent, body)->Some_0;
        let g = sub[k - 1].id;
        let n = nids[k - 1];
        let al = prev.aliases;
        let up = upsert_alias(al, g, n);
        let red = redirect_aliases(up, g, n);
        assert(st.aliases == red);
        crate::store::modify::lemma_upsert_alias(al, g, n);
        crate::store::modify::lemma_upsert_alias_olds(al, g, n);
        assert(alias_olds(red) =~= alias_olds(up));
        // The alias from `o`.
        let y = renamed_upto(sub, nids, k - 1, x);
        let p = choose|p: int| 0 <= p < al.len() && al[p] == (o, y);
        assert(goal_id_seq(sub)[k - 1] == g);
        assert(o != g);
        assert(up[p] == al[p]);
        lemma_renamed_upto_step(sub, nids, k, x);
        assert(red[p] == (o, renamed_upto(sub, nids, k, x)));
        // The new goal's own alias.
        let m = choose|m: int| 0 <= m < up.len() && up[m] == (g, n);
        assert(red[m] == (g, n));
        assert forall|j: int| 0 <= j < k implies red.contains((#[trigger] sub[j].id, nids[j])) by {
            if j == k - 1 {
                assert(red[m] == (g, n));
            } else {
                let q = choose|q: int| 0 <= q < al.len() && al[q] == (sub[j].id, nids[j]);
                assert(goal_id_seq(sub)[j] != goal_id_seq(sub)[k - 1]);
                assert(up[q] == al[q]);
                assert(nids[j] != g);
                assert(red[q] == al[q]);
            }
        }
    }
}

/// Renaming collapses alias chains: after a modification changes the ids of
/// a subtree, each goal's old id leads to its new id, and an alias that led
/// to a renamed goal leads to its new id too, in one step. (New ids that take
/// no other goal's old id of the subtree; an alias from an id outside it.)
pub proof fn law_alias_chains_collapse(
    s: StoreView,
    id: Seq<char>,
    new_body: Option<Seq<char>>,
    np: ModifyParentView,
    nk: Option<GoalKind>,
    nids: Seq<Seq<char>>,
    event_id: Seq<char>,
    now: Seq<char>,
    o: Seq<char>,
    x: Seq<char>,
)
    requires
        wf(s),
        bounded_at(s.goals, id),
        modify_outcome(s, id, new_body, np, nk, nids, event_id, now) is Ok,
        subtree_of(s.goals, id) matches Some(sub) && changes_ids(sub, id, np, nk)
            && (forall|a: int, b: int| 0 <= a < sub.len() && 0 <= b < sub.len() && a != b ==> nids[a] != sub[b].id)
            && !goal_id_seq(sub).contains(o),
        s.aliases.contains((o, x)),
    ensures
        ({
            let s1 = modify_outcome(s, id, new_body, np, nk, nids, event_id, now)->Ok_0.0;
            let sub = subtree_of(s.goals, id)->Some_0;
            &&& s1.aliases.contains((o, renamed_to(sub, nids, x)))
            &&& forall|j: int| 0 <= j < sub.len() ==> s1.aliases.contains((#[trigger] sub[j].id, nids[j]))
        }),
{
    let sub = subtree_of(s.goals, id)->Some_0;
    let root = find_goal(s.goals, id)->Some_0;
    let i = goal_index(s.goals, id);
    assert(root == s.goals[i] && s.goals.contains(root));
    crate::store::tree::lemma_subtree_unique(s.goals, root);
    let parent = parent_after(sub[0], np);
    let body = match new_body { Some(b) => b, None => sub[0].body };
    let st0 = StoreView { goals: goals_without(s.goals, goal_id_seq(sub)), ..s };
    lemma_fold_redirects_aliases(st0, sub, nids, sub.len() as int, parent, body, o, x);
    assert(goal_id_seq(sub).take(sub.len() as int) =~= goal_id_seq(sub));
}

/// After a goal is added, looking it up gives the goal as added: not done,
/// under the given parent, of the kind its id encodes.
pub proof fn law_added_goal_is_found(
    s: StoreView,
    body: Seq<char>,
    parent_id: Option<Seq<char>>,
    kind: GoalKind,
    id: Seq<char>,
    event_id: Seq<char>,
    now: Seq<char>,
)
    requires
        wf(s),
        add_goal_outcome(s, body, parent_id, kind, id, event_id, now) is Ok,
    ensures
        find_goal(add_goal_outcome(s, body, parent_id, kind, id, event_id, now)->Ok_0.0.goals, id)
            == Some(crate::store::ops::goal_row(id, parent_id, body, false)),
{
    let s1 = add_goal_outcome(s, body, parent_id, kind, id, event_id, now)->Ok_0.0;
    let row = crate::store::ops::goal_row(id, parent_id, body, false);
    assert(s1.goals == s.goals.push(row));
    assert(s1.goals[s.goals.len() as int] == row);
    assert(has_goal(s1.goals, id));
    let k = goal_index(s1.goals, id);
    if k < s.goals.len() {
        assert(s.goals[k] == s1.goals[k]);
        assert(has_goal(s.goals, id));
    }
}

/// After a goal is marked done (or not done), looking it up gives it with
/// that flag and otherwise unchanged.
pub proof fn law_done_flag_is_found(s: StoreView, id: Seq<char>, achieved: bool, event_id: Seq<char>, now: Seq<char>)
    requires
        wf(s),
        set_achieved_outcome(s, id, achieved, event_id, now) is Ok,
    ensures
        find_goal(set_achieved_outcome(s, id, achieved, event_id, now)->Ok_0.goals, id)
            == Some(GoalView { achieved, ..find_goal(s.goals, id)->Some_0 }),
{
    let s1 = set_achieved_outcome(s, id, achieved, event_id, now)->Ok_0;
    let i = goal_index(s.goals, id);
    assert(s1.goals[i].id == id);
    assert(has_goal(s1.goals, id));
    let k = goal_index(s1.goals, id);
    if k != i {
        assert(s1.goals[k] == s.goals[k]);
        assert(goal_id_seq(s.goals)[k] == goal_id_seq(s.goals)[i]);
    }
}

/// After a ranking, the higher goal reaches the lower along the rankings.
pub proof fn law_ranked_goal_reaches(s: StoreView, h: Seq<char>, l: Seq<char>, event_id: Seq<char>, now: Seq<char>)
    requires
        add_edge_outcome(s, h, l, event_id, now) is Ok,
    ensures
        reaches(add_edge_outcome(s, h, l, event_id, now)->Ok_0.edges, h, l),
{
    let e2 = add_edge_outcome(s, h, l, event_id, now)->Ok_0.edges;
    assert(e2[s.edges.len() as int] == (h, l));
    crate::graph::lemma_reaches_step(e2, h, h, l);
}

/// After an annotation is added, the goal's annotations hold it.
pub proof fn law_added_annotation_is_listed(
    s: StoreView,
    goal_id: Seq<char>,
    body: Seq<char>,
    ann_id: Seq<char>,
    event_id: Seq<char>,
    now: Seq<char>,
)
    requires
        add_annotation_outcome(s, goal_id, body, ann_id, event_id, now) is Ok,
    ensures
        annotations_for_spec(add_annotation_outcome(s, goal_id, body, ann_id, event_id, now)->Ok_0.annotations, goal_id).contains(
            AnnotationView { id: ann_id, goal_id, body, created_at: now },
        ),
{
    let s1 = add_annotation_outcome(s, goal_id, body, ann_id, event_id, now)->Ok_0;
    let a = AnnotationView { id: ann_id, goal_id, body, created_at: now };
    assert(s1.annotations == s.annotations.push(a));
    assert(s.annotations.push(a).drop_last() =~= s.annotations);
    let f = annotations_of(s1.annotations, goal_id);
    assert(f == annotations_of(s.annotations, goal_id).push(a));
    let last = f.len() - 1;
    crate::sorting::lemma_sorted_positions_complete(created_keys(f), f.len() as int);
    let sp = sorted_positions(created_keys(f), f.len() as int);
    assert(sp.contains(last));
    let k = choose|k: int| 0 <= k < sp.len() && sp[k] == last;
    assert(annotations_for_spec(s1.annotations, goal_id)[k] == a);
}

/// Undoing an annotation takes the note out again and gives back the history
/// as it was; the annotation's entry moves to the undone entries.
pub proof fn law_undo_reverts_annotate(
    s: StoreView,
    goal_id: Seq<char>,
    body: Seq<char>,
    ann_id: Seq<char>,
    event_id: Seq<char>,
    now: Seq<char>,
)
    requires
        wf(s),
        not_after(s.events, now),
        !has_event(s.undone, event_id),
        add_annotation_outcome(s, goal_id, body, ann_id, event_id, now) is Ok,
    ensures
        ({
            let s1 = add_annotation_outcome(s, goal_id, body, ann_id, event_id, now)->Ok_0;
            undo_outcome(s1) == Ok::<StoreView, crate::model::GoalErrorView>(
                StoreView { undone: s.undone.push(s1.events.last()), ..s },
            )
        }),
{
    let s1 = add_annotation_outcome(s, goal_id, body, ann_id, event_id, now)->Ok_0;
    let e = s1.events.last();
    assert(s1.events == s.events.push(e));
    lemma_pushed_is_latest(s.events, e);
    lemma_op_names_distinct();
    let a = AnnotationView { id: ann_id, goal_id, body, created_at: now };
    let n = s.annotations.len() as int;
    assert(s1.annotations == s.annotations.push(a));
    assert(s1.annotations[n].id == ann_id);
    let c = annotation_index(s1.annotations, ann_id);
    assert(c == n) by {
        if c != n {
            assert(s1.annotations[c] == s.annotations[c]);
            assert(has_annotation(s.annotations, ann_id));
        }
    }
    assert(drop_annotation(s1.annotations, ann_id) =~= s.annotations);
    let s2 = StoreView { annotations: s.annotations, ..s1 };
    assert(crate::store::undo::undo_effect(s1, e, e.snapshot->Some_0) == Ok::<StoreView, crate::model::GoalErrorView>(s2));
    lemma_undo_latest(s1, s2);
    assert(s.events.push(e).remove(s.events.len() as int) =~= s.events);
}

/// Undoing a change to a note's text sets the old text back and gives back
/// the history as it was; the change's entry moves to the undone entries.
pub proof fn law_undo_reverts_edit_note(s: StoreView, ann_id: Seq<char>, body: Seq<char>, event_id: Seq<char>, now: Seq<char>)
    requires
        wf(s),
        not_after(s.events, now),
        !has_event(s.undone, event_id),
        edit_annotation_outcome(s, ann_id, body, event_id, now) is Ok,
    ensures
        ({
            let s1 = edit_annotation_outcome(s, ann_id, body, event_id, now)->Ok_0;
            undo_outcome(s1) == Ok::<StoreView, crate::model::GoalErrorView>(
                StoreView { undone: s.undone.push(s1.events.last()), ..s },
            )
        }),
{
    let s1 = edit_annotation_outcome(s, ann_id, body, event_id, now)->Ok_0;
    let e = s1.events.last();
    assert(s1.events == s.events.push(e));
    lemma_pushed_is_latest(s.events, e);
    lemma_op_names_distinct();
    let i = annotation_index(s.annotations, ann_id);
    let a = s.annotations[i];
    assert(a.id == ann_id);
    assert(s1.annotations[i].id == ann_id);
    let c = annotation_index(s1.annotations, ann_id);
    assert(c == i) by {
        if c != i {
            assert(s1.annotations[c] == s.annotations[c]);
            assert(annotation_ids(s.annotations)[c] == annotation_ids(s.annotations)[i]);
        }
    }
    assert(put_note_back(s1.annotations, a) =~= s.annotations);
    let s2 = StoreView { annotations: s.annotations, ..s1 };
    assert(crate::store::undo::undo_effect(s1, e, e.snapshot->Some_0) == Ok::<StoreView, crate::model::GoalErrorView>(s2));
    lemma_undo_latest(s1, s2);
    assert(s.events.push(e).remove(s.events.len() as int) =~= s.events);
}

/// Undoing the deletion of a note puts it back in its place and gives back
/// the history as it was; the deletion's entry moves to the undone entries.
pub proof fn law_undo_reverts_delete_note(s: StoreView, ann_id: Seq<char>, event_id: Seq<char>, now: Seq<char>)
    requires
        wf(s),
        not_after(s.events, now),
        !has_event(s.undone, event_id),
        delete_annotation_outcome(s, ann_id, event_id, now) is Ok,
    ensures
        ({
            let s1 = delete_annotation_outcome(s, ann_id, event_id, now)->Ok_0;
            undo_outcome(s1) == Ok::<StoreView, crate::model::GoalErrorView>(
                StoreView { undone: s.undone.push(s1.events.last()), ..s },
            )
        }),
{
    let s1 = delete_annotation_outcome(s, ann_id, event_id, now)->Ok_0;
    let e = s1.events.last();
    assert(s1.events == s.events.push(e));
    lemma_pushed_is_latest(s.events, e);
    lemma_op_names_distinct();
    let i = annotation_index(s.annotations, ann_id);
    let a = s.annotations[i];
    assert(a.id == ann_id);
    assert(!has_annotation(s1.annotations, ann_id)) by {
        if has_annotation(s1.annotations, ann_id) {
            let c = choose|c: int| 0 <= c < s1.annotations.len() && (#[trigger] s1.annotations[c]).id == ann_id;
            let c2 = if c < i { c } else { c + 1 };
            assert(s1.annotations[c] == s.annotations[c2]);
            assert(annotation_ids(s.annotations)[c2] == annotation_ids(s.annotations)[i]);
        }
    }
    assert(reinsert_note(s1.annotations, a, i) =~= s.annotations);
    let s2 = StoreView { annotations: s.annotations, ..s1 };
    assert(crate::store::undo::undo_effect(s1, e, e.snapshot->Some_0) == Ok::<StoreView, crate::model::GoalErrorView>(s2));
    lemma_undo_latest(s1, s2);
    assert(s.events.push(e).remove(s.events.len() as int) =~= s.events);
}

/// After a goal is tagged, its tags hold the tag.
pub proof fn law_added_tag_is_held(s: StoreView, goal_id: Seq<char>, tag: Seq<char>)
    requires
        add_tag_outcome(s, goal_id, tag) is Ok,
    ensures
        add_tag_outcome(s, goal_id, tag)->Ok_0.tags.contains((goal_id, tag)),
{
    let t = add_tag_outcome(s, goal_id, tag)->Ok_0.tags;
    if !s.tags.contains((goal_id, tag)) {
        assert(t[s.tags.len() as int] == (goal_id, tag));
    }
}

/// The log is chronological: no line has an earlier timestamp than a line
/// before it; and it has a line for every history entry.
pub proof fn law_log_is_chronological(events: Seq<LogEntryView>)
    ensures
        forall|a: int, b: int|
            #![trigger history(events)[a], history(events)[b]]
            0 <= a < b < history(events).len() ==> !crate::text::seq_lt(history(events)[b].timestamp, history(events)[a].timestamp),
        history(events).len() == events.len(),
        forall|i: int| 0 <= i < events.len() ==> history(events).contains(#[trigger] event_line(events[i])),
{
    let ks = time_keys(events);
    let n = events.len() as int;
    crate::sorting::lemma_sorted_positions_sorted(ks, n);
    crate::sorting::lemma_sorted_positions_range(ks, n);
    crate::sorting::lemma_sorted_positions_complete(ks, n);
    let sp = sorted_positions(ks, n);
    let h = history(events);
    assert forall|a: int, b: int|
        #![trigger h[a], h[b]]
        0 <= a < b < h.len() implies !crate::text::seq_lt(h[b].timestamp, h[a].timestamp) by {
        assert(!crate::sorting::key_lt(ks[sp[b]], ks[sp[a]]));
        assert(h[a].timestamp == ks[sp[a]].0 && h[b].timestamp == ks[sp[b]].0);
    }
    assert forall|i: int| 0 <= i < events.len() implies h.contains(#[trigger] event_line(events[i])) by {
        assert(sp.contains(i));
        let k = choose|k: int| 0 <= k < sp.len() && sp[k] == i;
        assert(h[k] == event_line(events[i]));
    }
}

/// Removing a pair keeps every other pair.
proof fn lemma_without_pair_set(e: Seq<PairView>, p: PairView)
    ensures
        forall|x: PairView| x != p && e.contains(x) ==> without_pair(e, p).contains(x),
    decreases e.len(),
{
    if e.len() > 0 {
        let t = e.drop_last();
        lemma_without_pair_set(t, p);
        assert forall|x: PairView| x != p && e.contains(x) implies without_pair(e, p).contains(x) by {
            let k = choose|k: int| 0 <= k < e.len() && e[k] == x;
            if k < t.len() {
                assert(t[k] == x);
                assert(t.contains(x));
                let w = without_pair(t, p);
                let j = choose|j: int| 0 <= j < w.len() && w[j] == x;
                if e.last() != p {
                    assert(w.push(e.last())[j] == x);
                }
            } else {
                assert(e.last() == x);
                let w = without_pair(t, p);
                assert(w.push(e.last())[w.len() as int] == x);
            }
        }
    }
}


/// The annotations of a goal are the annotations whose goal it is.
proof fn lemma_annotations_of_members(anns: Seq<AnnotationView>, gid: Seq<char>)
    ensures
        forall|x: AnnotationView| #[trigger] annotations_of(anns, gid).contains(x) <==> anns.contains(x) && x.goal_id == gid,
    decreases anns.len(),
{
    if anns.len() > 0 {
        let t = anns.drop_last();
        let y = anns.last();
        lemma_annotations_of_members(t, gid);
        let r = annotations_of(t, gid);
        let w = annotations_of(anns, gid);
        assert(anns =~= t.push(y));
        assert forall|x: AnnotationView| w.contains(x) <==> anns.contains(x) && x.goal_id == gid by {
            if w.contains(x) {
                let k = choose|k: int| 0 <= k < w.len() && w[k] == x;
                if k < r.len() {
                    assert(r.contains(x));
                    let j = choose|j: int| 0 <= j < t.len() && t[j] == x;
                    assert(anns[j] == x);
                } else {
                    assert(anns[anns.len() - 1] == x);
                }
            }
            if anns.contains(x) && x.goal_id == gid {
                let j = choose|j: int| 0 <= j < anns.len() && anns[j] == x;
                if j < t.len() {
                    assert(t[j] == x);
                    assert(r.contains(x));
                    let k = choose|k: int| 0 <= k < r.len() && r[k] == x;
                    if y.goal_id == gid {
                        assert(w[k] == x);
                    }
                } else {
                    assert(w[r.len() as int] == x);
                }
            }
        }
    }
}

/// The elements of `s` in the order of the sorted positions of `ks`.
spec fn by_sorted_positions<A>(s: Seq<A>, ks: Seq<PairView>) -> Seq<A> {
    sorted_positions(ks, s.len() as int).map_values(|i: int| s[i])
}

/// A rearrangement by sorted positions holds the same elements.
proof fn lemma_sorted_members<A>(s: Seq<A>, ks: Seq<PairView>)
    requires
        ks.len() == s.len(),
    ensures
        forall|x: A| #[trigger] by_sorted_positions(s, ks).contains(x) <==> s.contains(x),
{
    let n = s.len() as int;
    let p = sorted_positions(ks, n);
    let f = p.map_values(|i: int| s[i]);
    crate::sorting::lemma_sorted_positions_range(ks, n);
    crate::sorting::lemma_sorted_positions_complete(ks, n);
    assert forall|x: A| f.contains(x) <==> s.contains(x) by {
        if f.contains(x) {
            let k = choose|k: int| 0 <= k < f.len() && f[k] == x;
            assert(0 <= p[k] < n);
            assert(s[p[k]] == x);
        }
        if s.contains(x) {
            let j = choose|j: int| 0 <= j < s.len() && s[j] == x;
            assert(p.contains(j));
            let k = choose|k: int| 0 <= k < p.len() && p[k] == j;
            assert(f[k] == x);
        }
    }
}

/// The annotations listed for a goal are exactly the annotations of the
/// table whose goal it is.
pub proof fn law_annotations_for_lists_the_goals_notes(anns: Seq<AnnotationView>, gid: Seq<char>)
    ensures
        forall|x: AnnotationView| #[trigger] annotations_for_spec(anns, gid).contains(x) <==> anns.contains(x) && x.goal_id == gid,
{
    lemma_annotations_of_members(anns, gid);
    let f = annotations_of(anns, gid);
    lemma_sorted_members(f, created_keys(f));
    assert(annotations_for_spec(anns, gid) == by_sorted_positions(f, created_keys(f)));
}

/// Some group is for goal `g` and holds tag `x`.
pub open spec fn in_groups(gs: Seq<(Seq<char>, Seq<Seq<char>>)>, g: Seq<char>, x: Seq<char>) -> bool {
    exists|i: int| 0 <= i < gs.len() && gs[i].0 == g && (#[trigger] gs[i].1).contains(x)
}

proof fn lemma_group_tags_members(t: Seq<PairView>)
    ensures
        forall|g: Seq<char>, x: Seq<char>| #[trigger] in_groups(group_tags(t), g, x) <==> t.contains((g, x)),
    decreases t.len(),
{
    if t.len() > 0 {
        let t0 = t.drop_last();
        let y = t.last();
        lemma_group_tags_members(t0);
        let gs = group_tags(t0);
        let gs2 = group_tags(t);
        assert(t =~= t0.push(y));
        assert forall|g: Seq<char>, x: Seq<char>| in_groups(gs2, g, x) <==> t.contains((g, x)) by {
            assert(t.contains((g, x)) <==> t0.contains((g, x)) || (g, x) == y) by {
                if t.contains((g, x)) {
                    let j = choose|j: int| 0 <= j < t.len() && t[j] == (g, x);
                    if j < t0.len() {
                        assert(t0[j] == (g, x));
                    }
                }
                if t0.contains((g, x)) {
                    let j = choose|j: int| 0 <= j < t0.len() && t0[j] == (g, x);
                    assert(t[j] == (g, x));
                }
                if (g, x) == y {
                    assert(t[t.len() - 1] == y);
                }
            }
            if gs.len() > 0 && gs.last().0 == y.0 {
                let l = gs.len() - 1;
                assert(gs2 == gs.update(l, (y.0, gs.last().1.push(y.1))));
                if in_groups(gs2, g, x) {
                    let i = choose|i: int| 0 <= i < gs2.len() && gs2[i].0 == g && (#[trigger] gs2[i].1).contains(x);
                    if i != l {
                        assert(gs[i] == gs2[i]);
                        assert(in_groups(gs, g, x));
                    } else {
                        let k = choose|k: int| 0 <= k < gs2[l].1.len() && gs2[l].1[k] == x;
                        if k < gs[l].1.len() {
                            assert(gs[l].1[k] == x);
                            assert(gs[l].1.contains(x));
                            assert(in_groups(gs, g, x));
                        } else {
                            assert((g, x) == y);
                        }
                    }
                }
                if in_groups(gs, g, x) {
                    let i = choose|i: int| 0 <= i < gs.len() && gs[i].0 == g && (#[trigger] gs[i].1).contains(x);
                    if i != l {
                        assert(gs2[i] == gs[i]);
                    } else {
                        let k = choose|k: int| 0 <= k < gs[l].1.len() && gs[l].1[k] == x;
                        assert(gs2[l].1[k] == x);
                        assert(gs2[l].1.contains(x));
                    }
                    assert(in_groups(gs2, g, x));
                }
                if (g, x) == y {
                    assert(gs2[l].1[gs[l].1.len() as int] == x);
                    assert(gs2[l].1.contains(x));
                    assert(in_groups(gs2, g, x));
                }
            } else {
                let l = gs.len() as int;
                assert(gs2 == gs.push((y.0, seq![y.1])));
                if in_groups(gs2, g, x) {
                    let i = choose|i: int| 0 <= i < gs2.len() && gs2[i].0 == g && (#[trigger] gs2[i].1).contains(x);
                    if i != l {
                        assert(gs[i] == gs2[i]);
                        assert(in_groups(gs, g, x));
                    } else {
                        assert(seq![y.1][0] == y.1);
                        assert((g, x) == y);
                    }
                }
                if in_groups(gs, g, x) {
                    let i = choose|i: int| 0 <= i < gs.len() && gs[i].0 == g && (#[trigger] gs[i].1).contains(x);
                    assert(gs2[i] == gs[i]);
                    assert(in_groups(gs2, g, x));
                }
                if (g, x) == y {
                    assert(gs2[l].1[0] == x);
                    assert(gs2[l].1.contains(x));
                    assert(in_groups(gs2, g, x));
                }
            }
        }
    }
}

/// The tag groups hold exactly the tags of the table: goal `g` has a group
/// holding tag `x` if and only if `g` is tagged `x`.
pub proof fn law_tag_groups_hold_the_tags(tags: Seq<PairView>)
    ensures
        forall|g: Seq<char>, x: Seq<char>| #[trigger] in_groups(group_tags(sorted_tags(tags)), g, x) <==> tags.contains((g, x)),
{
    lemma_sorted_members(tags, tags);
    assert(sorted_tags(tags) == by_sorted_positions(tags, tags));
    lemma_group_tags_members(sorted_tags(tags));
}


/// After the first `k >= 1` re-insertions the row of the modified goal stands
/// right after the kept rows, and no other row has its new id.
proof fn lemma_fold_keeps_root_row(
    st0: StoreView,
    sub: Seq<GoalView>,
    nids: Seq<Seq<char>>,
    k: int,
    parent: Option<Seq<char>>,
    body: Seq<char>,
)
    requires
        1 <= k <= sub.len(),
        renamed_fold(st0, sub, nids, k, parent, body) is Some,
    ensures
        ({
            let g = renamed_fold(st0, sub, nids, k, parent, body)->Some_0.goals;
            let n0 = st0.goals.len() as int;
            &&& g.len() > n0
            &&& g[n0] == crate::store::ops::goal_row(nids[0], parent, body, sub[0].achieved)
            &&& forall|p: int| 0 <= p < g.len() && p != n0 ==> (#[trigger] g[p]).id != nids[0]
        }),
    decreases k,
{
    let n0 = st0.goals.len() as int;
    if k == 1 {
        assert(renamed_fold(st0, sub, nids, 0, parent, body) == Some(st0));
        let g = renamed_fold(st0, sub, nids, 1, parent, body)->Some_0.goals;
        assert(!has_goal(st0.goals, nids[0]));
        assert(g == st0.goals.push(crate::store::ops::goal_row(nids[0], parent, body, sub[0].achieved)));
        assert forall|p: int| 0 <= p < g.len() && p != n0 implies (#[trigger] g[p]).id != nids[0] by {
            assert(g[p] == st0.goals[p]);
        }
    } else {
        lemma_fold_keeps_root_row(st0, sub, nids, k - 1, parent, body);
        let prev = renamed_fold(st0, sub, nids, k - 1, parent, body)->Some_0;
        let g = renamed_fold(st0, sub, nids, k, parent, body)->Some_0.goals;
        assert(!has_goal(prev.goals, nids[k - 1]));
        assert(nids[k - 1] != nids[0]) by {
            assert(prev.goals[n0].id == nids[0]);
        }
        assert(g.drop_last() =~= prev.goals);
        assert(g.last().id == nids[k - 1]);
        assert forall|p: int| 0 <= p < g.len() && p != n0 implies (#[trigger] g[p]).id != nids[0] by {
            if p < prev.goals.len() {
                assert(g[p] == prev.goals[p]);
            }
        }
    }
}

/// Modifying a goal with new text gives the goal that text, whether or not
/// its id changes: exactly one goal has the returned id, and it has the new
/// text and the parent asked for (the old one, none, or the new one).
pub proof fn law_modify_gives_the_new_text_and_parent(
    s: StoreView,
    id: Seq<char>,
    b: Seq<char>,
    np: ModifyParentView,
    nk: Option<GoalKind>,
    nids: Seq<Seq<char>>,
    event_id: Seq<char>,
    now: Seq<char>,
)
    requires
        wf(s),
        modify_outcome(s, id, Some(b), np, nk, nids, event_id, now) is Ok,
    ensures
        ({
            let (s1, n) = modify_outcome(s, id, Some(b), np, nk, nids, event_id, now)->Ok_0;
            &&& exists|k: int| 0 <= k < s1.goals.len() && (#[trigger] s1.goals[k]).id == n
            &&& forall|k: int| 0 <= k < s1.goals.len() && (#[trigger] s1.goals[k]).id == n ==> {
                &&& s1.goals[k].body == b
                &&& s1.goals[k].parent_id == match np {
                    ModifyParentView::Keep => find_goal(s.goals, id)->Some_0.parent_id,
                    ModifyParentView::Detach => None,
                    ModifyParentView::Reparent(p) => Some(p),
                }
            }
        }),
{
    let (s1, n) = modify_outcome(s, id, Some(b), np, nk, nids, event_id, now)->Ok_0;
    let sub = subtree_of(s.goals, id)->Some_0;
    let root = find_goal(s.goals, id)->Some_0;
    let i = goal_index(s.goals, id);
    assert(root == s.goals[i]);
    crate::store::modify::lemma_levels_first(s.goals, root, s.goals.len() + 1);
    assert(sub[0] == root);
    let parent = parent_after(sub[0], np);
    if changes_ids(sub, id, np, nk) {
        let st0 = StoreView { goals: goals_without(s.goals, goal_id_seq(sub)), ..s };
        lemma_fold_keeps_root_row(st0, sub, nids, sub.len() as int, parent, b);
        let g = s1.goals;
        let n0 = st0.goals.len() as int;
        assert(g[n0].id == n);
    } else {
        assert(n == id);
        assert(s1.goals[i].id == id);
        assert forall|k: int| 0 <= k < s1.goals.len() && (#[trigger] s1.goals[k]).id == n implies k == i by {
            if k != i {
                assert(s1.goals[k] == s.goals[k]);
                assert(goal_id_seq(s.goals)[k] == goal_id_seq(s.goals)[i]);
            }
        }
    }
}


proof fn lemma_uppers_members(e: Seq<PairView>, d: Seq<char>)
    ensures
        forall|u: Seq<char>| #[trigger] uppers(e, d).contains(u) <==> e.contains((u, d)),
    decreases e.len(),
{
    if e.len() > 0 {
        let t = e.drop_last();
        lemma_uppers_members(t, d);
        assert(e =~= t.push(e.last()));
        let r = uppers(t, d);
        let w = uppers(e, d);
        assert forall|u: Seq<char>| w.contains(u) <==> e.contains((u, d)) by {
            if w.contains(u) {
                let k = choose|k: int| 0 <= k < w.len() && w[k] == u;
                if k < r.len() {
                    assert(r.contains(u));
                    let j = choose|j: int| 0 <= j < t.len() && t[j] == (u, d);
                    assert(e[j] == (u, d));
                } else {
                    assert(e[e.len() - 1] == (u, d));
                }
            }
            if e.contains((u, d)) {
                let j = choose|j: int| 0 <= j < e.len() && e[j] == (u, d);
                if j < t.len() {
                    assert(t[j] == (u, d));
                    assert(r.contains(u));
                    let k = choose|k: int| 0 <= k < r.len() && r[k] == u;
                    if e.last().1 == d {
                        assert(w[k] == u);
                    }
                } else {
                    assert(w[r.len() as int] == u);
                }
            }
        }
    }
}

proof fn lemma_lowers_members(e: Seq<PairView>, d: Seq<char>)
    ensures
        forall|l: Seq<char>| #[trigger] lowers(e, d).contains(l) <==> e.contains((d, l)),
    decreases e.len(),
{
    if e.len() > 0 {
        let t = e.drop_last();
        lemma_lowers_members(t, d);
        assert(e =~= t.push(e.last()));
        let r = lowers(t, d);
        let w = lowers(e, d);
        assert forall|l: Seq<char>| w.contains(l) <==> e.contains((d, l)) by {
            if w.contains(l) {
                let k = choose|k: int| 0 <= k < w.len() && w[k] == l;
                if k < r.len() {
                    assert(r.contains(l));
                    let j = choose|j: int| 0 <= j < t.len() && t[j] == (d, l);
                    assert(e[j] == (d, l));
                } else {
                    assert(e[e.len() - 1] == (d, l));
                }
            }
            if e.contains((d, l)) {
                let j = choose|j: int| 0 <= j < e.len() && e[j] == (d, l);
                if j < t.len() {
                    assert(t[j] == (d, l));
                    assert(r.contains(l));
                    let k = choose|k: int| 0 <= k < r.len() && r[k] == l;
                    if e.last().0 == d {
                        assert(w[k] == l);
                    }
                } else {
                    assert(w[r.len() as int] == l);
                }
            }
        }
    }
}

/// A row of collapsing edges keeps what it had and gains `(u, l)` for each
/// kept `l` of `ls` that is not excluded.
proof fn lemma_add_row_covers(acc: Seq<PairView>, u: Seq<char>, ls: Seq<Seq<char>>, sids: Seq<Seq<char>>, removed: Seq<PairView>)
    ensures
        forall|p: PairView| acc.contains(p) ==> #[trigger] add_row(acc, u, ls, sids, removed).contains(p),
        forall|l: Seq<char>| #[trigger] ls.contains(l) && !sids.contains(l) && !removed.contains((u, l))
            ==> add_row(acc, u, ls, sids, removed).contains((u, l)),
    decreases ls.len(),
{
    if ls.len() > 0 {
        let t = ls.drop_last();
        lemma_add_row_covers(acc, u, t, sids, removed);
        let a = add_row(acc, u, t, sids, removed);
        let w = add_row(acc, u, ls, sids, removed);
        assert forall|p: PairView| a.contains(p) implies w.contains(p) by {
            if w != a {
                let k = choose|k: int| 0 <= k < a.len() && a[k] == p;
                assert(w[k] == p);
            }
        }
        assert forall|l: Seq<char>| #[trigger] ls.contains(l) && !sids.contains(l) && !removed.contains((u, l))
            implies w.contains((u, l)) by {
            let j = choose|j: int| 0 <= j < ls.len() && ls[j] == l;
            if j < t.len() {
                assert(t[j] == l);
                assert(t.contains(l));
            } else if a.contains((u, l)) {
            } else {
                assert(w[a.len() as int] == (u, l));
            }
        }
    }
}

/// The cross of collapsing edges keeps what it had and gains `(u, l)` for
/// each kept `u` of `us` and kept `l` of `ls` that is not excluded.
proof fn lemma_add_cross_covers(acc: Seq<PairView>, us: Seq<Seq<char>>, ls: Seq<Seq<char>>, sids: Seq<Seq<char>>, removed: Seq<PairView>)
    ensures
        forall|p: PairView| acc.contains(p) ==> #[trigger] add_cross(acc, us, ls, sids, removed).contains(p),
        forall|u: Seq<char>, l: Seq<char>|
            us.contains(u) && !sids.contains(u) && ls.contains(l) && !sids.contains(l) && !removed.contains((u, l))
            ==> #[trigger] add_cross(acc, us, ls, sids, removed).contains((u, l)),
    decreases us.len(),
{
    if us.len() > 0 {
        let t = us.drop_last();
        let v = us.last();
        lemma_add_cross_covers(acc, t, ls, sids, removed);
        let a = add_cross(acc, t, ls, sids, removed);
        let w = add_cross(acc, us, ls, sids, removed);
        if !sids.contains(v) {
            lemma_add_row_covers(a, v, ls, sids, removed);
        }
        assert forall|u: Seq<char>, l: Seq<char>|
            us.contains(u) && !sids.contains(u) && ls.contains(l) && !sids.contains(l) && !removed.contains((u, l))
            implies #[trigger] w.contains((u, l)) by {
            let j = choose|j: int| 0 <= j < us.len() && us[j] == u;
            if j < t.len() {
                assert(t[j] == u);
                assert(t.contains(u));
                assert(a.contains((u, l)));
            }
        }
    }
}

/// The collapsing edges for the first `k` goals of the subtree join every
/// kept goal ranked above one of them to every kept goal ranked below it.
proof fn lemma_added_upto_covers(e: Seq<PairView>, sub: Seq<GoalView>, removed: Seq<PairView>, k: int)
    requires
        0 <= k <= sub.len(),
    ensures
        forall|j: int, u: Seq<char>, l: Seq<char>|
            0 <= j < k && e.contains((u, #[trigger] sub[j].id)) && e.contains((sub[j].id, l))
            && !goal_id_seq(sub).contains(u) && !goal_id_seq(sub).contains(l) && !removed.contains((u, l))
            ==> #[trigger] added_upto(e, sub, removed, k).contains((u, l)),
    decreases k,
{
    if k > 0 {
        lemma_added_upto_covers(e, sub, removed, k - 1);
        let d = sub[k - 1].id;
        let a = added_upto(e, sub, removed, k - 1);
        lemma_add_cross_covers(a, uppers(e, d), lowers(e, d), goal_id_seq(sub), removed);
        lemma_uppers_members(e, d);
        lemma_lowers_members(e, d);
        assert forall|j: int, u: Seq<char>, l: Seq<char>|
            0 <= j < k && e.contains((u, #[trigger] sub[j].id)) && e.contains((sub[j].id, l))
            && !goal_id_seq(sub).contains(u) && !goal_id_seq(sub).contains(l) && !removed.contains((u, l))
            implies #[trigger] added_upto(e, sub, removed, k).contains((u, l)) by {
            if j < k - 1 {
                assert(a.contains((u, l)));
            } else {
                assert(uppers(e, d).contains(u));
                assert(lowers(e, d).contains(l));
            }
        }
    }
}

proof fn lemma_touching_ends(e: Seq<PairView>, node: Seq<char>)
    ensures
        forall|p: PairView| #[trigger] touching(e, node).contains(p) ==> p.0 == node || p.1 == node,
    decreases e.len(),
{
    if e.len() > 0 {
        lemma_touching_ends(e.drop_last(), node);
        let r = touching(e.drop_last(), node);
        assert forall|p: PairView| #[trigger] touching(e, node).contains(p) implies p.0 == node || p.1 == node by {
            let w = touching(e, node);
            let k = choose|k: int| 0 <= k < w.len() && w[k] == p;
            if k < r.len() {
                assert(r.contains(p));
            }
        }
    }
}

proof fn lemma_add_new_members(acc: Seq<PairView>, list: Seq<PairView>)
    ensures
        forall|p: PairView| #[trigger] add_new(acc, list).contains(p) <==> acc.contains(p) || list.contains(p),
    decreases list.len(),
{
    if list.len() > 0 {
        let t = list.drop_last();
        let x = list.last();
        lemma_add_new_members(acc, t);
        let a = add_new(acc, t);
        let w = add_new(acc, list);
        assert(list =~= t.push(x));
        assert forall|p: PairView| w.contains(p) <==> acc.contains(p) || list.contains(p) by {
            if w.contains(p) {
                let k = choose|k: int| 0 <= k < w.len() && w[k] == p;
                if k < a.len() {
                    assert(a.contains(p));
                    if t.contains(p) {
                        let j = choose|j: int| 0 <= j < t.len() && t[j] == p;
                        assert(list[j] == p);
                    }
                } else {
                    assert(list[list.len() - 1] == p);
                }
            }
            if list.contains(p) {
                let j = choose|j: int| 0 <= j < list.len() && list[j] == p;
                if j < t.len() {
                    assert(t[j] == p);
                    assert(a.contains(p));
                } else if !a.contains(p) {
                    assert(w[a.len() as int] == p);
                }
            }
            if acc.contains(p) || t.contains(p) {
                assert(a.contains(p));
                if !a.contains(x) {
                    let k = choose|k: int| 0 <= k < a.len() && a[k] == p;
                    assert(w[k] == p);
                }
            }
        }
    }
}

/// The edges recorded as removed all touch the subtree.
proof fn lemma_removed_touch_subtree(e: Seq<PairView>, sub: Seq<GoalView>, k: int)
    requires
        0 <= k <= sub.len(),
    ensures
        forall|p: PairView| #[trigger] removed_upto(e, sub, k).contains(p)
            ==> goal_id_seq(sub).contains(p.0) || goal_id_seq(sub).contains(p.1),
    decreases k,
{
    if k > 0 {
        lemma_removed_touch_subtree(e, sub, k - 1);
        let d = sub[k - 1].id;
        lemma_touching_ends(e, d);
        lemma_add_new_members(removed_upto(e, sub, k - 1), touching(e, d));
        assert(goal_id_seq(sub)[k - 1] == d);
    }
}

/// Deleting a subtree keeps the order it ran through: for every deleted goal
/// `d`, every kept goal ranked directly above `d` ends up ranked directly above
/// every kept goal ranked directly below `d`.
pub proof fn law_remove_collapses_rankings(
    s: StoreView,
    id: Seq<char>,
    event_id: Seq<char>,
    now: Seq<char>,
    j: int,
    u: Seq<char>,
    l: Seq<char>,
)
    requires
        remove_goal_outcome(s, id, event_id, now) is Ok,
        0 <= j < subtree_of(s.goals, id)->Some_0.len(),
        s.edges.contains((u, subtree_of(s.goals, id)->Some_0[j].id)),
        s.edges.contains((subtree_of(s.goals, id)->Some_0[j].id, l)),
        !goal_id_seq(subtree_of(s.goals, id)->Some_0).contains(u),
        !goal_id_seq(subtree_of(s.goals, id)->Some_0).contains(l),
    ensures
        remove_goal_outcome(s, id, event_id, now)->Ok_0.edges.contains((u, l)),
{
    let sub = subtree_of(s.goals, id)->Some_0;
    let sids = goal_id_seq(sub);
    let removed = removed_upto(s.edges, sub, sub.len() as int);
    let added = added_upto(s.edges, sub, removed, sub.len() as int);
    lemma_removed_touch_subtree(s.edges, sub, sub.len() as int);
    assert(!removed.contains((u, l)));
    lemma_added_upto_covers(s.edges, sub, removed, sub.len() as int);
    assert(added.contains((u, l)));
    lemma_add_new_members(s.edges, added);
}


/// No goal comes before one with a smaller id.
pub open spec fn ids_ascending(x: Seq<GoalView>) -> bool {
    forall|a: int, b: int| 0 <= a < b < x.len() ==> !seq_lt((#[trigger] x[b]).id, (#[trigger] x[a]).id)
}

proof fn lemma_sort_by_id_facts(g: Seq<GoalView>)
    ensures
        ids_ascending(sort_by_id(g)),
        forall|x: GoalView| #[trigger] sort_by_id(g).contains(x) <==> g.contains(x),
{
    let ks = id_keys(g);
    let n = g.len() as int;
    let p = sorted_positions(ks, n);
    crate::sorting::lemma_sorted_positions_range(ks, n);
    crate::sorting::lemma_sorted_positions_sorted(ks, n);
    lemma_sorted_members(g, ks);
    assert(sort_by_id(g) == by_sorted_positions(g, ks));
    let ss = sort_by_id(g);
    assert forall|a: int, b: int| 0 <= a < b < ss.len() implies !seq_lt((#[trigger] ss[b]).id, (#[trigger] ss[a]).id) by {
        assert(0 <= p[a] < n && 0 <= p[b] < n);
        assert(ks[p[a]] == (g[p[a]].id, Seq::<char>::empty()));
        assert(ks[p[b]] == (g[p[b]].id, Seq::<char>::empty()));
        assert(!crate::sorting::key_lt(ks[p[b]], ks[p[a]]));
    }
}

proof fn lemma_pending_facts(x: Seq<GoalView>)
    ensures
        forall|y: GoalView| #[trigger] pending(x).contains(y) <==> x.contains(y) && !y.achieved,
        ids_ascending(x) ==> ids_ascending(pending(x)),
    decreases x.len(),
{
    if x.len() > 0 {
        let t = x.drop_last();
        let z = x.last();
        lemma_pending_facts(t);
        let r = pending(t);
        let w = pending(x);
        assert(x =~= t.push(z));
        assert forall|y: GoalView| w.contains(y) <==> x.contains(y) && !y.achieved by {
            if w.contains(y) {
                let k = choose|k: int| 0 <= k < w.len() && w[k] == y;
                if k < r.len() {
                    assert(r.contains(y));
                    let j = choose|j: int| 0 <= j < t.len() && t[j] == y;
                    assert(x[j] == y);
                } else {
                    assert(x[x.len() - 1] == y);
                }
            }
            if x.contains(y) && !y.achieved {
                let j = choose|j: int| 0 <= j < x.len() && x[j] == y;
                if j < t.len() {
                    assert(t[j] == y);
                    assert(r.contains(y));
                    let k = choose|k: int| 0 <= k < r.len() && r[k] == y;
                    if !z.achieved {
                        assert(w[k] == y);
                    }
                } else {
                    assert(w[r.len() as int] == y);
                }
            }
        }
        if ids_ascending(x) {
            assert(ids_ascending(t)) by {
                assert forall|a: int, b: int| 0 <= a < b < t.len() implies !seq_lt((#[trigger] t[b]).id, (#[trigger] t[a]).id) by {
                    assert(t[a] == x[a] && t[b] == x[b]);
                }
            }
            if !z.achieved {
                assert forall|a: int, b: int| 0 <= a < b < w.len() implies !seq_lt((#[trigger] w[b]).id, (#[trigger] w[a]).id) by {
                    if b < r.len() {
                        assert(w[a] == r[a] && w[b] == r[b]);
                    } else {
                        assert(w[b] == z);
                        assert(w[a] == r[a]);
                        assert(r.contains(r[a]));
                        let j = choose|j: int| 0 <= j < t.len() && t[j] == r[a];
                        assert(x[j] == r[a]);
                        assert(x[x.len() - 1] == z);
                    }
                }
            }
        }
    }
}

proof fn lemma_row_pairs_contains(ps: Seq<GoalView>, e: Seq<PairView>, i: int, m: int, j: int)
    requires
        0 <= i < m < j <= ps.len(),
        unrelated(e, ps[i].id, ps[m].id),
    ensures
        row_pairs(ps, e, i, j).contains((ps[i], ps[m])),
    decreases j,
{
    let r = row_pairs(ps, e, i, j - 1);
    if m < j - 1 {
        lemma_row_pairs_contains(ps, e, i, m, j - 1);
        let k = choose|k: int| 0 <= k < r.len() && r[k] == (ps[i], ps[m]);
        if unrelated(e, ps[i].id, ps[j - 1].id) {
            assert(row_pairs(ps, e, i, j)[k] == (ps[i], ps[m]));
        }
    } else {
        assert(row_pairs(ps, e, i, j)[r.len() as int] == (ps[i], ps[m]));
    }
}

proof fn lemma_all_pairs_contains(ps: Seq<GoalView>, e: Seq<PairView>, i: int, m: int, k: int)
    requires
        0 <= i < m < ps.len(),
        i < k,
        unrelated(e, ps[i].id, ps[m].id),
    ensures
        all_pairs(ps, e, k).contains((ps[i], ps[m])),
    decreases k,
{
    let a = all_pairs(ps, e, k - 1);
    let r = row_pairs(ps, e, k - 1, ps.len() as int);
    if i < k - 1 {
        lemma_all_pairs_contains(ps, e, i, m, k - 1);
        let q = choose|q: int| 0 <= q < a.len() && a[q] == (ps[i], ps[m]);
        assert((a + r)[q] == (ps[i], ps[m]));
    } else {
        lemma_row_pairs_contains(ps, e, i, m, ps.len() as int);
        let q = choose|q: int| 0 <= q < r.len() && r[q] == (ps[i], ps[m]);
        assert((a + r)[a.len() + q] == (ps[i], ps[m]));
    }
}

/// Interactive ranking is offered every pair of goals that are not done (of
/// either kind), with the smaller id first, that no chain of rankings between
/// goals of the table orders either way.
pub proof fn law_unranked_offers_every_unordered_pending_pair(s: StoreView, a: GoalView, b: GoalView)
    requires
        s.goals.contains(a),
        s.goals.contains(b),
        !a.achieved,
        !b.achieved,
        seq_lt(a.id, b.id),
        !reaches(edges_within(s.edges, goal_id_seq(s.goals)), a.id, b.id),
        !reaches(edges_within(s.edges, goal_id_seq(s.goals)), b.id, a.id),
    ensures
        unranked(s).contains((a, b)),
{
    let ss = sort_by_id(s.goals);
    lemma_sort_by_id_facts(s.goals);
    lemma_pending_facts(ss);
    let ps = pending(ss);
    assert(ps.contains(a) && ps.contains(b));
    let ia = choose|i: int| 0 <= i < ps.len() && ps[i] == a;
    let ib = choose|i: int| 0 <= i < ps.len() && ps[i] == b;
    crate::text::lemma_seq_lt_irreflexive(a.id);
    crate::text::lemma_seq_lt_asymmetric(a.id, b.id);
    if ib < ia {
        assert(!seq_lt(ps[ia].id, ps[ib].id));
    }
    assert(ia < ib);
    lemma_all_pairs_contains(ps, edges_within(s.edges, goal_id_seq(s.goals)), ia, ib, ps.len() as int);
}


/// The annotations listed for a goal come oldest first.
pub proof fn law_annotations_for_come_oldest_first(anns: Seq<AnnotationView>, gid: Seq<char>)
    ensures
        forall|a: int, b: int| 0 <= a < b < annotations_for_spec(anns, gid).len() ==>
            !seq_lt((#[trigger] annotations_for_spec(anns, gid)[b]).created_at, (#[trigger] annotations_for_spec(anns, gid)[a]).created_at),
{
    let f = annotations_of(anns, gid);
    let ks = created_keys(f);
    let n = f.len() as int;
    let p = sorted_positions(ks, n);
    crate::sorting::lemma_sorted_positions_range(ks, n);
    crate::sorting::lemma_sorted_positions_sorted(ks, n);
    let r = annotations_for_spec(anns, gid);
    assert forall|a: int, b: int| 0 <= a < b < r.len() implies !seq_lt((#[trigger] r[b]).created_at, (#[trigger] r[a]).created_at) by {
        assert(0 <= p[a] < n && 0 <= p[b] < n);
        assert(ks[p[a]] == (f[p[a]].created_at, Seq::<char>::empty()));
        assert(ks[p[b]] == (f[p[b]].created_at, Seq::<char>::empty()));
        assert(!crate::sorting::key_lt(ks[p[b]], ks[p[a]]));
    }
}

/// No goal comes before one with a smaller goal id.
spec fn tags_ascending(t: Seq<PairView>) -> bool {
    forall|a: int, b: int| 0 <= a < b < t.len() ==> !seq_lt((#[trigger] t[b]).0, (#[trigger] t[a]).0)
}

proof fn lemma_group_tags_ascending(t: Seq<PairView>)
    requires
        tags_ascending(t),
    ensures
        forall|i: int, j: int| 0 <= i < j < group_tags(t).len() ==> seq_lt((#[trigger] group_tags(t)[i]).0, (#[trigger] group_tags(t)[j]).0),
        t.len() > 0 ==> group_tags(t).len() > 0 && group_tags(t).last().0 == t.last().0,
        forall|i: int| 0 <= i < group_tags(t).len() ==> (#[trigger] group_tags(t)[i]).1.len() > 0
            && t.contains((group_tags(t)[i].0, group_tags(t)[i].1[0])),
    decreases t.len(),
{
    if t.len() > 0 {
        let t0 = t.drop_last();
        let y = t.last();
        assert(tags_ascending(t0)) by {
            assert forall|a: int, b: int| 0 <= a < b < t0.len() implies !seq_lt((#[trigger] t0[b]).0, (#[trigger] t0[a]).0) by {
                assert(t0[a] == t[a] && t0[b] == t[b]);
            }
        }
        lemma_group_tags_ascending(t0);
        let gs = group_tags(t0);
        let gs2 = group_tags(t);
        if gs.len() > 0 && gs.last().0 == y.0 {
            let l = gs.len() - 1;
            assert(gs2 == gs.update(l, (y.0, gs.last().1.push(y.1))));
            assert forall|i: int| 0 <= i < gs2.len() implies (#[trigger] gs2[i]).1.len() > 0 && t.contains((gs2[i].0, gs2[i].1[0])) by {
                assert(gs[i].1.len() > 0);
                assert(t0.contains((gs[i].0, gs[i].1[0])));
                let q = choose|q: int| 0 <= q < t0.len() && t0[q] == (gs[i].0, gs[i].1[0]);
                assert(t[q] == t0[q]);
                if i == l {
                    assert(gs2[l].1[0] == gs[l].1[0]);
                }
            }
        } else {
            assert(gs2 == gs.push((y.0, seq![y.1])));
            if gs.len() > 0 {
                // The last group's goal is that of the input's last tag, which
                // does not come after `y` and is not `y`'s goal.
                let l = gs.len() - 1;
                assert(t0.last() == t[t.len() - 2]);
                assert(t[t.len() - 1] == y);
                assert(!seq_lt(t[t.len() - 1].0, t[t.len() - 2].0));
                assert(gs[l].0 == t0.last().0);
                assert(!seq_lt(y.0, gs[l].0));
                crate::text::lemma_seq_lt_total(y.0, gs[l].0);
                assert forall|i: int, j: int| 0 <= i < j < gs2.len() implies seq_lt((#[trigger] gs2[i]).0, (#[trigger] gs2[j]).0) by {
                    if j == gs.len() {
                        if i < l {
                            crate::text::lemma_seq_lt_transitive(gs[i].0, gs[l].0, y.0);
                        }
                    }
                }
            }
            assert forall|i: int| 0 <= i < gs2.len() implies (#[trigger] gs2[i]).1.len() > 0 && t.contains((gs2[i].0, gs2[i].1[0])) by {
                if i < gs.len() {
                    assert(gs2[i] == gs[i]);
                    let q = choose|q: int| 0 <= q < t0.len() && t0[q] == (gs[i].0, gs[i].1[0]);
                    assert(t[q] == t0[q]);
                } else {
                    assert(t[t.len() - 1] == y);
                }
            }
        }
    }
}

/// Each goal has at most one group of tags: the groups come by goal id,
/// strictly ascending.
pub proof fn law_tag_groups_are_one_per_goal(tags: Seq<PairView>)
    ensures
        forall|i: int, j: int| 0 <= i < j < group_tags(sorted_tags(tags)).len() ==>
            seq_lt((#[trigger] group_tags(sorted_tags(tags))[i]).0, (#[trigger] group_tags(sorted_tags(tags))[j]).0),
{
    let n = tags.len() as int;
    let p = sorted_positions(tags, n);
    crate::sorting::lemma_sorted_positions_range(tags, n);
    crate::sorting::lemma_sorted_positions_sorted(tags, n);
    let st = sorted_tags(tags);
    assert(tags_ascending(st)) by {
        assert forall|a: int, b: int| 0 <= a < b < st.len() implies !seq_lt((#[trigger] st[b]).0, (#[trigger] st[a]).0) by {
            assert(0 <= p[a] < n && 0 <= p[b] < n);
            assert(!crate::sorting::key_lt(tags[p[b]], tags[p[a]]));
        }
    }
    lemma_group_tags_ascending(st);
}


proof fn lemma_row_pairs_members(ps: Seq<GoalView>, e: Seq<PairView>, i: int, j: int)
    requires
        0 <= i,
        j <= ps.len(),
    ensures
        forall|q: (GoalView, GoalView)| #[trigger] row_pairs(ps, e, i, j).contains(q) ==>
            exists|m: int| i < m < j && q == (ps[i], #[trigger] ps[m]) && unrelated(e, ps[i].id, ps[m].id),
    decreases j - i,
{
    if j > i + 1 {
        lemma_row_pairs_members(ps, e, i, j - 1);
        let r = row_pairs(ps, e, i, j - 1);
        let w = row_pairs(ps, e, i, j);
        assert forall|q: (GoalView, GoalView)| #[trigger] w.contains(q) implies
            exists|m: int| i < m < j && q == (ps[i], #[trigger] ps[m]) && unrelated(e, ps[i].id, ps[m].id) by {
            let k = choose|k: int| 0 <= k < w.len() && w[k] == q;
            if k < r.len() {
                assert(r.contains(q));
            } else {
                assert(q == (ps[i], ps[j - 1]));
            }
        }
    }
}

proof fn lemma_all_pairs_members(ps: Seq<GoalView>, e: Seq<PairView>, k: int)
    requires
        k <= ps.len(),
    ensures
        forall|q: (GoalView, GoalView)| #[trigger] all_pairs(ps, e, k).contains(q) ==>
            exists|i: int, m: int| 0 <= i < m < ps.len() && q == (#[trigger] ps[i], #[trigger] ps[m]) && unrelated(e, ps[i].id, ps[m].id),
    decreases k,
{
    if k > 0 {
        lemma_all_pairs_members(ps, e, k - 1);
        lemma_row_pairs_members(ps, e, k - 1, ps.len() as int);
        let a = all_pairs(ps, e, k - 1);
        let r = row_pairs(ps, e, k - 1, ps.len() as int);
        assert forall|q: (GoalView, GoalView)| #[trigger] all_pairs(ps, e, k).contains(q) implies
            exists|i: int, m: int| 0 <= i < m < ps.len() && q == (#[trigger] ps[i], #[trigger] ps[m]) && unrelated(e, ps[i].id, ps[m].id) by {
            let w = a + r;
            let x = choose|x: int| 0 <= x < w.len() && w[x] == q;
            if x < a.len() {
                assert(a[x] == q);
                assert(a.contains(q));
            } else {
                assert(r[x - a.len()] == q);
                assert(r.contains(q));
                let m = choose|m: int| k - 1 < m < ps.len() && q == (ps[k - 1], #[trigger] ps[m]) && unrelated(e, ps[k - 1].id, ps[m].id);
                assert(0 <= k - 1 < m < ps.len());
            }
        }
    }
}

/// Interactive ranking is offered only pairs of goals of the table that are
/// not done, the smaller id first, that no chain of rankings between goals of
/// the table orders either way.
pub proof fn law_unranked_offers_only_unordered_pending_pairs(s: StoreView, q: (GoalView, GoalView))
    requires
        unranked(s).contains(q),
    ensures
        s.goals.contains(q.0),
        s.goals.contains(q.1),
        !q.0.achieved,
        !q.1.achieved,
        !seq_lt(q.1.id, q.0.id),
        !reaches(edges_within(s.edges, goal_id_seq(s.goals)), q.0.id, q.1.id),
        !reaches(edges_within(s.edges, goal_id_seq(s.goals)), q.1.id, q.0.id),
{
    let ss = sort_by_id(s.goals);
    lemma_sort_by_id_facts(s.goals);
    lemma_pending_facts(ss);
    let ps = pending(ss);
    let e = edges_within(s.edges, goal_id_seq(s.goals));
    lemma_all_pairs_members(ps, e, ps.len() as int);
    let (i, m) = choose|i: int, m: int| 0 <= i < m < ps.len() && q == (#[trigger] ps[i], #[trigger] ps[m]) && unrelated(e, ps[i].id, ps[m].id);
    assert(ps.contains(ps[i]) && ps.contains(ps[m]));
    assert(!seq_lt(ps[m].id, ps[i].id));
}


proof fn lemma_add_row_only(acc: Seq<PairView>, u: Seq<char>, ls: Seq<Seq<char>>, sids: Seq<Seq<char>>, removed: Seq<PairView>)
    ensures
        forall|p: PairView| #[trigger] add_row(acc, u, ls, sids, removed).contains(p) ==>
            acc.contains(p) || (p.0 == u && ls.contains(p.1) && !sids.contains(p.1)),
    decreases ls.len(),
{
    if ls.len() > 0 {
        let t = ls.drop_last();
        lemma_add_row_only(acc, u, t, sids, removed);
        let a = add_row(acc, u, t, sids, removed);
        let w = add_row(acc, u, ls, sids, removed);
        assert forall|p: PairView| #[trigger] w.contains(p) implies acc.contains(p) || (p.0 == u && ls.contains(p.1) && !sids.contains(p.1)) by {
            let k = choose|k: int| 0 <= k < w.len() && w[k] == p;
            if k < a.len() {
                assert(a.contains(p));
                if !acc.contains(p) {
                    let j = choose|j: int| 0 <= j < t.len() && t[j] == p.1;
                    assert(ls[j] == p.1);
                }
            } else {
                assert(ls[ls.len() - 1] == p.1);
            }
        }
    }
}

proof fn lemma_add_cross_only(acc: Seq<PairView>, us: Seq<Seq<char>>, ls: Seq<Seq<char>>, sids: Seq<Seq<char>>, removed: Seq<PairView>)
    ensures
        forall|p: PairView| #[trigger] add_cross(acc, us, ls, sids, removed).contains(p) ==>
            acc.contains(p) || (us.contains(p.0) && !sids.contains(p.0) && ls.contains(p.1) && !sids.contains(p.1)),
    decreases us.len(),
{
    if us.len() > 0 {
        let t = us.drop_last();
        let v = us.last();
        lemma_add_cross_only(acc, t, ls, sids, removed);
        let a = add_cross(acc, t, ls, sids, removed);
        let w = add_cross(acc, us, ls, sids, removed);
        if !sids.contains(v) {
            lemma_add_row_only(a, v, ls, sids, removed);
        }
        assert forall|p: PairView| #[trigger] w.contains(p) implies
            acc.contains(p) || (us.contains(p.0) && !sids.contains(p.0) && ls.contains(p.1) && !sids.contains(p.1)) by {
            if a.contains(p) && !acc.contains(p) {
                let j = choose|j: int| 0 <= j < t.len() && t[j] == p.0;
                assert(us[j] == p.0);
            } else if !a.contains(p) {
                assert(us[us.len() - 1] == v);
            }
        }
    }
}

proof fn lemma_added_upto_only(e: Seq<PairView>, sub: Seq<GoalView>, removed: Seq<PairView>, k: int)
    requires
        0 <= k <= sub.len(),
    ensures
        forall|p: PairView| #[trigger] added_upto(e, sub, removed, k).contains(p) ==>
            !goal_id_seq(sub).contains(p.0) && !goal_id_seq(sub).contains(p.1)
            && exists|j: int| 0 <= j < k && e.contains((p.0, #[trigger] sub[j].id)) && e.contains((sub[j].id, p.1)),
    decreases k,
{
    if k > 0 {
        lemma_added_upto_only(e, sub, removed, k - 1);
        let d = sub[k - 1].id;
        let a = added_upto(e, sub, removed, k - 1);
        lemma_add_cross_only(a, uppers(e, d), lowers(e, d), goal_id_seq(sub), removed);
        lemma_uppers_members(e, d);
        lemma_lowers_members(e, d);
        assert forall|p: PairView| #[trigger] added_upto(e, sub, removed, k).contains(p) implies
            !goal_id_seq(sub).contains(p.0) && !goal_id_seq(sub).contains(p.1)
            && exists|j: int| 0 <= j < k && e.contains((p.0, #[trigger] sub[j].id)) && e.contains((sub[j].id, p.1)) by {
            if a.contains(p) {
                let j = choose|j: int| 0 <= j < k - 1 && e.contains((p.0, #[trigger] sub[j].id)) && e.contains((sub[j].id, p.1));
            } else {
                assert(uppers(e, d).contains(p.0));
                assert(lowers(e, d).contains(p.1));
                assert(e.contains((p.0, sub[k - 1].id)));
            }
        }
    }
}

/// Deleting a subtree adds no ranking but the collapsing ones: every ranking
/// afterwards was there before, or joins two kept goals that were ranked
/// directly above and below some deleted goal.
pub proof fn law_remove_adds_only_collapsing_rankings(s: StoreView, id: Seq<char>, event_id: Seq<char>, now: Seq<char>, p: PairView)
    requires
        remove_goal_outcome(s, id, event_id, now) is Ok,
        remove_goal_outcome(s, id, event_id, now)->Ok_0.edges.contains(p),
    ensures
        s.edges.contains(p) || ({
            let sub = subtree_of(s.goals, id)->Some_0;
            &&& !goal_id_seq(sub).contains(p.0)
            &&& !goal_id_seq(sub).contains(p.1)
            &&& exists|j: int| 0 <= j < sub.len() && s.edges.contains((p.0, #[trigger] sub[j].id)) && s.edges.contains((sub[j].id, p.1))
        }),
{
    let sub = subtree_of(s.goals, id)->Some_0;
    let removed = removed_upto(s.edges, sub, sub.len() as int);
    let added = added_upto(s.edges, sub, removed, sub.len() as int);
    lemma_add_new_members(s.edges, added);
    lemma_added_upto_only(s.edges, sub, removed, sub.len() as int);
}


/// Re-inserting renamed goals only adds rows.
proof fn lemma_fold_keeps_rows(st0: StoreView, sub: Seq<GoalView>, nids: Seq<Seq<char>>, k: int, parent: Option<Seq<char>>, body: Seq<char>)
    requires
        0 <= k,
        renamed_fold(st0, sub, nids, k, parent, body) is Some,
    ensures
        forall|g: GoalView| st0.goals.contains(g) ==> #[trigger] renamed_fold(st0, sub, nids, k, parent, body)->Some_0.goals.contains(g),
    decreases k,
{
    if k > 0 {
        lemma_fold_keeps_rows(st0, sub, nids, k - 1, parent, body);
        let prev = renamed_fold(st0, sub, nids, k - 1, parent, body)->Some_0;
        let g2 = renamed_fold(st0, sub, nids, k, parent, body)->Some_0.goals;
        assert(g2.drop_last() =~= prev.goals);
        assert forall|g: GoalView| st0.goals.contains(g) implies #[trigger] g2.contains(g) by {
            assert(prev.goals.contains(g));
            let q = choose|q: int| 0 <= q < prev.goals.len() && prev.goals[q] == g;
            assert(g2[q] == g);
        }
    }
}

/// Modifying a goal leaves every goal outside its subtree as it was.
pub proof fn law_modify_keeps_other_goals(
    s: StoreView,
    id: Seq<char>,
    new_body: Option<Seq<char>>,
    np: ModifyParentView,
    nk: Option<GoalKind>,
    nids: Seq<Seq<char>>,
    event_id: Seq<char>,
    now: Seq<char>,
    g: GoalView,
)
    requires
        wf(s),
        modify_outcome(s, id, new_body, np, nk, nids, event_id, now) is Ok,
        s.goals.contains(g),
        !goal_id_seq(subtree_of(s.goals, id)->Some_0).contains(g.id),
    ensures
        modify_outcome(s, id, new_body, np, nk, nids, event_id, now)->Ok_0.0.goals.contains(g),
{
    let s1 = modify_outcome(s, id, new_body, np, nk, nids, event_id, now)->Ok_0.0;
    let sub = subtree_of(s.goals, id)->Some_0;
    let root = find_goal(s.goals, id)->Some_0;
    let i = goal_index(s.goals, id);
    crate::store::modify::lemma_levels_first(s.goals, root, s.goals.len() + 1);
    assert(sub[0] == root && root.id == id);
    assert(goal_id_seq(sub)[0] == id);
    assert(g.id != id);
    let parent = parent_after(sub[0], np);
    let body = match new_body { Some(b) => b, None => sub[0].body };
    if changes_ids(sub, id, np, nk) {
        let st0 = StoreView { goals: goals_without(s.goals, goal_id_seq(sub)), ..s };
        lemma_goals_without_members(s.goals, goal_id_seq(sub));
        lemma_fold_keeps_rows(st0, sub, nids, sub.len() as int, parent, body);
    } else {
        let q = choose|q: int| 0 <= q < s.goals.len() && s.goals[q] == g;
        assert(q != i);
        assert(s1.goals[q] == g);
    }
}

} // verus!
