//! Deleting a goal with its subtree. The rankings that pass through deleted
//! goals are collapsed: a goal ranked above a deleted goal becomes ranked
//! above every goal that the deleted goal was ranked above.
use vstd::prelude::*;
use crate::ids::event_id_from_bytes;
use crate::ids::generate_event_id;
use crate::model::{copy_goals, copy_pair, copy_pairs, goals_view, pairs_view, EdgeRecord, EdgeRecordView, EdgeSnapshot, EdgeSnapshotView, Goal, GoalError, GoalErrorView, GoalView, LogEntry, LogEntryView, PairView, TableChange, TableState};
use crate::text::str_eq;
use super::ops::has_event;
use super::{bounded_at, goal_id_seq, no_dups, table_change, subtree_of, wf, Store, StoreView};

verus! {

/// The edges that touch `node`, in table order.
pub open spec fn touching(e: Seq<PairView>, node: Seq<char>) -> Seq<PairView>
    decreases e.len(),
{
    if e.len() == 0 {
        Seq::empty()
    } else if e.last().0 == node || e.last().1 == node {
        touching(e.drop_last(), node).push(e.last())
    } else {
        touching(e.drop_last(), node)
    }
}

/// `acc` followed by the pairs of `list` it lacks, each once.
pub open spec fn add_new(acc: Seq<PairView>, list: Seq<PairView>) -> Seq<PairView>
    decreases list.len(),
{
    if list.len() == 0 {
        acc
    } else {
        let a = add_new(acc, list.drop_last());
        if a.contains(list.last()) {
            a
        } else {
            a.push(list.last())
        }
    }
}

/// The edges that touch the first `k` goals of the subtree.
pub open spec fn removed_upto(e: Seq<PairView>, sub: Seq<GoalView>, k: int) -> Seq<PairView>
    decreases k,
{
    if k <= 0 {
        Seq::empty()
    } else {
        add_new(removed_upto(e, sub, k - 1), touching(e, sub[k - 1].id))
    }
}

/// The goals ranked directly above `node`.
pub open spec fn uppers(e: Seq<PairView>, node: Seq<char>) -> Seq<Seq<char>>
    decreases e.len(),
{
    if e.len() == 0 {
        Seq::empty()
    } else if e.last().1 == node {
        uppers(e.drop_last(), node).push(e.last().0)
    } else {
        uppers(e.drop_last(), node)
    }
}

/// The goals ranked directly below `node`.
pub open spec fn lowers(e: Seq<PairView>, node: Seq<char>) -> Seq<Seq<char>>
    decreases e.len(),
{
    if e.len() == 0 {
        Seq::empty()
    } else if e.last().0 == node {
        lowers(e.drop_last(), node).push(e.last().1)
    } else {
        lowers(e.drop_last(), node)
    }
}

/// `acc` with the edges from `u` to each kept goal of `ls` that are neither
/// in `acc` nor among the `existing` edges.
pub open spec fn add_row(acc: Seq<PairView>, u: Seq<char>, ls: Seq<Seq<char>>, sids: Seq<Seq<char>>, existing: Seq<PairView>) -> Seq<PairView>
    decreases ls.len(),
{
    if ls.len() == 0 {
        acc
    } else {
        let a = add_row(acc, u, ls.drop_last(), sids, existing);
        let l = ls.last();
        if sids.contains(l) || a.contains((u, l)) || existing.contains((u, l)) {
            a
        } else {
            a.push((u, l))
        }
    }
}

/// `acc` with the rows of every kept goal of `us`.
pub open spec fn add_cross(acc: Seq<PairView>, us: Seq<Seq<char>>, ls: Seq<Seq<char>>, sids: Seq<Seq<char>>, existing: Seq<PairView>) -> Seq<PairView>
    decreases us.len(),
{
    if us.len() == 0 {
        acc
    } else {
        let a = add_cross(acc, us.drop_last(), ls, sids, existing);
        if sids.contains(us.last()) {
            a
        } else {
            add_row(a, us.last(), ls, sids, existing)
        }
    }
}

/// The collapsing edges for the first `k` goals of the subtree: those that
/// are not among the `removed` edges (an edge that the table holds already
/// may be among them; adding it changes nothing).
pub open spec fn added_upto(e: Seq<PairView>, sub: Seq<GoalView>, removed: Seq<PairView>, k: int) -> Seq<PairView>
    decreases k,
{
    if k <= 0 {
        Seq::empty()
    } else {
        let node = sub[k - 1].id;
        add_cross(added_upto(e, sub, removed, k - 1), uppers(e, node), lowers(e, node), goal_id_seq(sub), removed)
    }
}

/// The goals whose id is not among `ids`, in order.
pub open spec fn goals_without(goals: Seq<GoalView>, ids: Seq<Seq<char>>) -> Seq<GoalView>
    decreases goals.len(),
{
    if goals.len() == 0 {
        Seq::empty()
    } else if ids.contains(goals.last().id) {
        goals_without(goals.drop_last(), ids)
    } else {
        goals_without(goals.drop_last(), ids).push(goals.last())
    }
}

/// Deleting the goal `id` and its subtree with the given history id: the
/// collapsing edges are added (where missing), the subtree's goal rows are
/// deleted, and the history entry keeps the subtree, both edge lists and the
/// tables before and after. The rows that refer to deleted goals (rankings, tags,
/// annotations) stay.
pub open spec fn remove_goal_outcome(s: StoreView, id: Seq<char>, event_id: Seq<char>, now: Seq<char>) -> Result<StoreView, GoalErrorView> {
    match subtree_of(s.goals, id) {
        None => Err(GoalErrorView::NoGoal(id)),
        Some(sub) => {
            let removed = removed_upto(s.edges, sub, sub.len() as int);
            let added = added_upto(s.edges, sub, removed, sub.len() as int);
            if has_event(s.events, event_id) {
                Err(GoalErrorView::DuplicateKey)
            } else {
                let s2 = StoreView { goals: goals_without(s.goals, goal_id_seq(sub)), edges: add_new(s.edges, added), ..s };
                Ok(StoreView {
                    events: s.events.push(LogEntryView {
                        event_id,
                        timestamp: now,
                        op: "Delete"@,
                        snapshot: Some(sub),
                        new_id: None,
                        snapshot_edges: EdgeRecordView::Present(EdgeSnapshotView { removed, added }),
                        change: Some(table_change(s, s2)),
                        note: None,
                    }),
                    ..s2
                })
            }
        },
    }
}

pub fn contains_pair(v: &Vec<(String, String)>, a: &str, b: &str) -> (r: bool)
    ensures
        r == pairs_view(v@).contains((a@, b@)),
{
    let ghost pv = pairs_view(v@);
    let mut i: usize = 0;
    while i < v.len()
        invariant
            pv == pairs_view(v@),
            i <= v@.len(),
            forall|k: int| 0 <= k < i ==> pv[k] != (a@, b@),
        decreases v@.len() - i,
    {
        assert(pv[i as int] == (v@[i as int].0@, v@[i as int].1@));
        if str_eq(v[i].0.as_str(), a) && str_eq(v[i].1.as_str(), b) {
            assert(pv[i as int] == (a@, b@));
            return true;
        }
        i += 1;
    }
    false
}

pub fn contains_str(v: &Vec<String>, x: &str) -> (r: bool)
    ensures
        r == v@.map_values(|s: String| s@).contains(x@),
{
    let ghost w = v@.map_values(|s: String| s@);
    let mut i: usize = 0;
    while i < v.len()
        invariant
            w == v@.map_values(|s: String| s@),
            i <= v@.len(),
            forall|k: int| 0 <= k < i ==> w[k] != x@,
        decreases v@.len() - i,
    {
        assert(w[i as int] == v@[i as int]@);
        if str_eq(v[i].as_str(), x) {
            return true;
        }
        i += 1;
    }
    false
}

fn touching_exec(edges: &Vec<(String, String)>, node: &str) -> (r: Vec<(String, String)>)
    ensures
        pairs_view(r@) == touching(pairs_view(edges@), node@),
{
    let ghost e = pairs_view(edges@);
    let mut r: Vec<(String, String)> = Vec::new();
    let mut i: usize = 0;
    while i < edges.len()
        invariant
            e == pairs_view(edges@),
            i <= edges@.len(),
            pairs_view(r@) == touching(e.take(i as int), node@),
        decreases edges@.len() - i,
    {
        assert(e.take(i + 1).drop_last() =~= e.take(i as int));
        assert(e.take(i + 1).last() == (edges@[i as int].0@, edges@[i as int].1@));
        if str_eq(edges[i].0.as_str(), node) || str_eq(edges[i].1.as_str(), node) {
            let ghost before = pairs_view(r@);
            r.push(copy_pair(&edges[i]));
            assert(pairs_view(r@) =~= before.push(e[i as int]));
        }
        i += 1;
    }
    assert(e.take(edges@.len() as int) =~= e);
    r
}

pub(crate) fn add_new_exec(acc: &mut Vec<(String, String)>, list: &Vec<(String, String)>)
    ensures
        pairs_view(final(acc)@) == add_new(pairs_view(old(acc)@), pairs_view(list@)),
{
    let ghost l = pairs_view(list@);
    let ghost a0 = pairs_view(acc@);
    let mut i: usize = 0;
    while i < list.len()
        invariant
            l == pairs_view(list@),
            i <= list@.len(),
            pairs_view(acc@) == add_new(a0, l.take(i as int)),
        decreases list@.len() - i,
    {
        assert(l.take(i + 1).drop_last() =~= l.take(i as int));
        assert(l.take(i + 1).last() == (list@[i as int].0@, list@[i as int].1@));
        if !contains_pair(acc, list[i].0.as_str(), list[i].1.as_str()) {
            let ghost before = pairs_view(acc@);
            acc.push(copy_pair(&list[i]));
            assert(pairs_view(acc@) =~= before.push(l[i as int]));
        }
        i += 1;
    }
    assert(l.take(list@.len() as int) =~= l);
}

fn uppers_exec(edges: &Vec<(String, String)>, node: &str) -> (r: Vec<String>)
    ensures
        r@.map_values(|s: String| s@) == uppers(pairs_view(edges@), node@),
{
    let ghost e = pairs_view(edges@);
    let mut r: Vec<String> = Vec::new();
    let mut i: usize = 0;
    while i < edges.len()
        invariant
            e == pairs_view(edges@),
            i <= edges@.len(),
            r@.map_values(|s: String| s@) == uppers(e.take(i as int), node@),
        decreases edges@.len() - i,
    {
        assert(e.take(i + 1).drop_last() =~= e.take(i as int));
        assert(e.take(i + 1).last() == (edges@[i as int].0@, edges@[i as int].1@));
        if str_eq(edges[i].1.as_str(), node) {
            let ghost before = r@.map_values(|s: String| s@);
            r.push(edges[i].0.clone());
            assert(r@.map_values(|s: String| s@) =~= before.push(e[i as int].0));
        }
        i += 1;
    }
    assert(e.take(edges@.len() as int) =~= e);
    r
}

fn lowers_exec(edges: &Vec<(String, String)>, node: &str) -> (r: Vec<String>)
    ensures
        r@.map_values(|s: String| s@) == lowers(pairs_view(edges@), node@),
{
    let ghost e = pairs_view(edges@);
    let mut r: Vec<String> = Vec::new();
    let mut i: usize = 0;
    while i < edges.len()
        invariant
            e == pairs_view(edges@),
            i <= edges@.len(),
            r@.map_values(|s: String| s@) == lowers(e.take(i as int), node@),
        decreases edges@.len() - i,
    {
        assert(e.take(i + 1).drop_last() =~= e.take(i as int));
        assert(e.take(i + 1).last() == (edges@[i as int].0@, edges@[i as int].1@));
        if str_eq(edges[i].0.as_str(), node) {
            let ghost before = r@.map_values(|s: String| s@);
            r.push(edges[i].1.clone());
            assert(r@.map_values(|s: String| s@) =~= before.push(e[i as int].1));
        }
        i += 1;
    }
    assert(e.take(edges@.len() as int) =~= e);
    r
}

fn add_row_exec(acc: &mut Vec<(String, String)>, u: &String, ls: &Vec<String>, sids: &Vec<String>, existing: &Vec<(String, String)>)
    ensures
        pairs_view(final(acc)@) == add_row(pairs_view(old(acc)@), u@, ls@.map_values(|s: String| s@),
            sids@.map_values(|s: String| s@), pairs_view(existing@)),
{
    let ghost lv = ls@.map_values(|s: String| s@);
    let ghost sv = sids@.map_values(|s: String| s@);
    let ghost a0 = pairs_view(acc@);
    let mut i: usize = 0;
    while i < ls.len()
        invariant
            lv == ls@.map_values(|s: String| s@),
            sv == sids@.map_values(|s: String| s@),
            i <= ls@.len(),
            pairs_view(acc@) == add_row(a0, u@, lv.take(i as int), sv, pairs_view(existing@)),
        decreases ls@.len() - i,
    {
        assert(lv.take(i + 1).drop_last() =~= lv.take(i as int));
        assert(lv.take(i + 1).last() == ls@[i as int]@);
        let l = &ls[i];
        if !contains_str(sids, l.as_str()) && !contains_pair(acc, u.as_str(), l.as_str())
            && !contains_pair(existing, u.as_str(), l.as_str()) {
            let ghost before = pairs_view(acc@);
            acc.push((u.clone(), l.clone()));
            assert(pairs_view(acc@) =~= before.push((u@, l@)));
        }
        i += 1;
    }
    assert(lv.take(ls@.len() as int) =~= lv);
}

fn add_cross_exec(acc: &mut Vec<(String, String)>, us: &Vec<String>, ls: &Vec<String>, sids: &Vec<String>, existing: &Vec<(String, String)>)
    ensures
        pairs_view(final(acc)@) == add_cross(pairs_view(old(acc)@), us@.map_values(|s: String| s@), ls@.map_values(|s: String| s@),
            sids@.map_values(|s: String| s@), pairs_view(existing@)),
{
    let ghost uv = us@.map_values(|s: String| s@);
    let ghost a0 = pairs_view(acc@);
    let mut i: usize = 0;
    while i < us.len()
        invariant
            uv == us@.map_values(|s: String| s@),
            i <= us@.len(),
            pairs_view(acc@) == add_cross(a0, uv.take(i as int), ls@.map_values(|s: String| s@),
                sids@.map_values(|s: String| s@), pairs_view(existing@)),
        decreases us@.len() - i,
    {
        assert(uv.take(i + 1).drop_last() =~= uv.take(i as int));
        assert(uv.take(i + 1).last() == us@[i as int]@);
        if !contains_str(sids, us[i].as_str()) {
            add_row_exec(acc, &us[i], ls, sids, existing);
        }
        i += 1;
    }
    assert(uv.take(us@.len() as int) =~= uv);
}

pub(crate) fn goals_without_exec(goals: &Vec<Goal>, ids: &Vec<String>) -> (r: Vec<Goal>)
    ensures
        goals_view(r@) == goals_without(goals_view(goals@), ids@.map_values(|s: String| s@)),
{
    let ghost gv = goals_view(goals@);
    let ghost iv = ids@.map_values(|s: String| s@);
    let mut r: Vec<Goal> = Vec::new();
    let mut i: usize = 0;
    while i < goals.len()
        invariant
            gv == goals_view(goals@),
            iv == ids@.map_values(|s: String| s@),
            i <= goals@.len(),
            goals_view(r@) == goals_without(gv.take(i as int), iv),
        decreases goals@.len() - i,
    {
        assert(gv.take(i + 1).drop_last() =~= gv.take(i as int));
        assert(gv.take(i + 1).last() == goals@[i as int]@);
        if !contains_str(ids, goals[i].id.as_str()) {
            let ghost before = goals_view(r@);
            r.push(crate::model::copy_goal(&goals[i]));
            assert(goals_view(r@) =~= before.push(gv[i as int]));
        }
        i += 1;
    }
    assert(gv.take(goals@.len() as int) =~= gv);
    r
}

pub proof fn lemma_goals_without_sub(goals: Seq<GoalView>, ids: Seq<Seq<char>>)
    ensures
        goals_without(goals, ids).len() <= goals.len(),
        forall|k: int| 0 <= k < goals_without(goals, ids).len() ==> goals.contains(#[trigger] goals_without(goals, ids)[k]),
    decreases goals.len(),
{
    if goals.len() > 0 {
        let t = goals.drop_last();
        lemma_goals_without_sub(t, ids);
        let w = goals_without(t, ids);
        assert forall|k: int| 0 <= k < goals_without(goals, ids).len() implies goals.contains(#[trigger] goals_without(goals, ids)[k]) by {
            if k < w.len() {
                assert(goals_without(goals, ids)[k] == w[k]);
                let j = choose|j: int| 0 <= j < t.len() && t[j] == w[k];
                assert(goals[j] == w[k]);
            } else {
                assert(goals[goals.len() - 1] == goals.last());
            }
        }
    }
}

/// The goals kept are the goals whose id is not among `ids`.
pub proof fn lemma_goals_without_members(goals: Seq<GoalView>, ids: Seq<Seq<char>>)
    ensures
        forall|g: GoalView| #[trigger] goals_without(goals, ids).contains(g) <==> goals.contains(g) && !ids.contains(g.id),
    decreases goals.len(),
{
    if goals.len() > 0 {
        let t = goals.drop_last();
        let x = goals.last();
        lemma_goals_without_members(t, ids);
        let r = goals_without(t, ids);
        let w = goals_without(goals, ids);
        assert(w == if ids.contains(x.id) { r } else { r.push(x) });
        assert forall|g: GoalView| w.contains(g) <==> goals.contains(g) && !ids.contains(g.id) by {
            if w.contains(g) {
                let k = choose|k: int| 0 <= k < w.len() && w[k] == g;
                if k < r.len() {
                    assert(r[k] == g);
                    assert(r.contains(g));
                    let j = choose|j: int| 0 <= j < t.len() && t[j] == g;
                    assert(goals[j] == t[j]);
                } else {
                    assert(g == x);
                    assert(goals[goals.len() - 1] == x);
                }
            }
            if goals.contains(g) && !ids.contains(g.id) {
                let j = choose|j: int| 0 <= j < goals.len() && goals[j] == g;
                if j < t.len() {
                    assert(t[j] == g);
                    assert(t.contains(g));
                    assert(r.contains(g));
                    let k = choose|k: int| 0 <= k < r.len() && r[k] == g;
                    if !ids.contains(x.id) {
                        assert(r.push(x)[k] == g);
                    }
                } else {
                    assert(g == x);
                    assert(r.push(x)[r.len() as int] == g);
                }
            }
        }
    }
}

/// Deleting goal rows keeps the store well formed.
pub proof fn lemma_goals_without_wf(goals: Seq<GoalView>, ids: Seq<Seq<char>>)
    requires
        no_dups(goal_id_seq(goals)),
        forall|i: int| 0 <= i < goals.len() ==> (#[trigger] goals[i]).kind == crate::ids::id_kind(goals[i].id),
    ensures
        no_dups(goal_id_seq(goals_without(goals, ids))),
        forall|i: int| 0 <= i < goals_without(goals, ids).len() ==> (#[trigger] goals_without(goals, ids)[i]).kind
            == crate::ids::id_kind(goals_without(goals, ids)[i].id),
    decreases goals.len(),
{
    lemma_goals_without_sub(goals, ids);
    if goals.len() > 0 {
        let t = goals.drop_last();
        assert(no_dups(goal_id_seq(t))) by {
            assert forall|a: int, b: int| 0 <= a < goal_id_seq(t).len() && 0 <= b < goal_id_seq(t).len() && a != b
                implies goal_id_seq(t)[a] != goal_id_seq(t)[b] by {
                assert(goal_id_seq(t)[a] == goal_id_seq(goals)[a]);
                assert(goal_id_seq(t)[b] == goal_id_seq(goals)[b]);
            }
        }
        lemma_goals_without_wf(t, ids);
        lemma_goals_without_sub(t, ids);
        let w = goals_without(t, ids);
        if !ids.contains(goals.last().id) {
            let r = w.push(goals.last());
            assert forall|a: int, b: int| 0 <= a < goal_id_seq(r).len() && 0 <= b < goal_id_seq(r).len() && a != b
                implies goal_id_seq(r)[a] != goal_id_seq(r)[b] by {
                if a == w.len() as int && b < w.len() {
                    assert(t.contains(w[b]));
                    let j = choose|j: int| 0 <= j < t.len() && t[j] == w[b];
                    assert(goal_id_seq(goals)[j] == w[b].id);
                    assert(goal_id_seq(goals)[goals.len() - 1] == goals.last().id);
                } else if b == w.len() as int && a < w.len() {
                    assert(t.contains(w[a]));
                    let j = choose|j: int| 0 <= j < t.len() && t[j] == w[a];
                    assert(goal_id_seq(goals)[j] == w[a].id);
                    assert(goal_id_seq(goals)[goals.len() - 1] == goals.last().id);
                } else {
                    assert(goal_id_seq(r)[a] == goal_id_seq(w)[a]);
                    assert(goal_id_seq(r)[b] == goal_id_seq(w)[b]);
                }
            }
            assert forall|i: int| 0 <= i < r.len() implies (#[trigger] r[i]).kind == crate::ids::id_kind(r[i].id) by {
                if i < w.len() {
                    assert(r[i] == w[i]);
                } else {
                    assert(goals[goals.len() - 1] == goals.last());
                }
            }
        }
    }
}

pub proof fn lemma_add_new_no_dups(acc: Seq<PairView>, list: Seq<PairView>)
    requires
        no_dups(acc),
    ensures
        no_dups(add_new(acc, list)),
    decreases list.len(),
{
    if list.len() > 0 {
        lemma_add_new_no_dups(acc, list.drop_last());
        let a = add_new(acc, list.drop_last());
        if !a.contains(list.last()) {
            assert forall|x: int, y: int| 0 <= x < a.push(list.last()).len() && 0 <= y < a.push(list.last()).len() && x != y
                implies a.push(list.last())[x] != a.push(list.last())[y] by {
                if x == a.len() as int && y < a.len() {
                    assert(a.contains(a[y]));
                } else if y == a.len() as int && x < a.len() {
                    assert(a.contains(a[x]));
                }
            }
        }
    }
}

impl Store {
    /// Deletes the goal `id` and its subtree with the given history id (see
    /// `remove_goal_outcome`).
    pub fn remove_goal_with_id(&mut self, id: &str, event_id: String, now: &str) -> (r: Result<(), GoalError>)
        requires
            wf(old(self)@),
            bounded_at(old(self)@.goals, id@),
        ensures
            wf(final(self)@),
            match remove_goal_outcome(old(self)@, id@, event_id@, now@) {
                Ok(v) => r is Ok && final(self)@ == v,
                Err(e) => r matches Err(y) && y@ == e && final(self)@ == old(self)@,
            },
    {
        let ghost s0 = self@;
        let subtree = match self.collect_subtree(id) {
            Ok(v) => v,
            Err(e) => {
                return Err(e);
            },
        };
        let ghost sub = goals_view(subtree@);
        let mut sids: Vec<String> = Vec::new();
        let mut i: usize = 0;
        while i < subtree.len()
            invariant
                i <= subtree@.len(),
                sids@.len() == i,
                forall|k: int| 0 <= k < i ==> (#[trigger] sids@[k])@ == subtree@[k].id@,
            decreases subtree@.len() - i,
        {
            sids.push(subtree[i].id.clone());
            i += 1;
        }
        assert(sids@.map_values(|s: String| s@) =~= goal_id_seq(sub));
        // The edges touching the subtree.
        let mut removed: Vec<(String, String)> = Vec::new();
        let mut k: usize = 0;
        while k < subtree.len()
            invariant
                s0 == self@,
                sub == goals_view(subtree@),
                k <= subtree@.len(),
                pairs_view(removed@) == removed_upto(s0.edges, sub, k as int),
            decreases subtree@.len() - k,
        {
            let t = touching_exec(&self.edges, subtree[k].id.as_str());
            add_new_exec(&mut removed, &t);
            k += 1;
        }
        let ghost rv = pairs_view(removed@);
        // The collapsing edges.
        let mut added: Vec<(String, String)> = Vec::new();
        let mut k: usize = 0;
        while k < subtree.len()
            invariant
                s0 == self@,
                sub == goals_view(subtree@),
                rv == pairs_view(removed@),
                sids@.map_values(|s: String| s@) == goal_id_seq(sub),
                k <= subtree@.len(),
                pairs_view(added@) == added_upto(s0.edges, sub, rv, k as int),
            decreases subtree@.len() - k,
        {
            let us = uppers_exec(&self.edges, subtree[k].id.as_str());
            let ls = lowers_exec(&self.edges, subtree[k].id.as_str());
            add_cross_exec(&mut added, &us, &ls, &sids, &removed);
            k += 1;
        }
        let ghost av = pairs_view(added@);
        let mut new_edges = copy_pairs(&self.edges);
        add_new_exec(&mut new_edges, &added);
        let kept = goals_without_exec(&self.goals, &sids);
        let before = TableState { goals: copy_goals(&self.goals), edges: copy_pairs(&self.edges), aliases: copy_pairs(&self.aliases) };
        let after = TableState { goals: copy_goals(&kept), edges: copy_pairs(&new_edges), aliases: copy_pairs(&self.aliases) };
        let e = LogEntry {
            event_id,
            timestamp: now.to_owned(),
            op: "Delete".to_owned(),
            snapshot: Some(copy_goals(&subtree)),
            new_id: None,
            snapshot_edges: EdgeRecord::Present(EdgeSnapshot { removed, added: crate::model::copy_pairs(&added) }),
            change: Some(TableChange { before, after }),
            note: None,
        };
        match self.push_event(e) {
            Err(err) => {
                return Err(err);
            },
            Ok(_) => {},
        }
        self.edges = new_edges;
        self.goals = kept;
        proof {
            lemma_add_new_no_dups(s0.edges, av);
            lemma_goals_without_wf(s0.goals, goal_id_seq(sub));
        }
        Ok(())
    }

    /// Deletes the goal `id` and its subtree (see `remove_goal_outcome`).
    pub fn remove_goal(&mut self, id: &str, now: &str) -> (r: Result<(), GoalError>)
        requires
            wf(old(self)@),
            bounded_at(old(self)@.goals, id@),
        ensures
            wf(final(self)@),
            exists|ebytes: Seq<u8>| #![trigger event_id_from_bytes('e', ebytes)] {
                &&& ebytes.len() == 8
                &&& match remove_goal_outcome(old(self)@, id@, event_id_from_bytes('e', ebytes), now@) {
                    Ok(v) => r is Ok && final(self)@ == v,
                    Err(e) => r matches Err(y) && y@ == e && final(self)@ == old(self)@,
                }
            },
    {
        let event_id = generate_event_id();
        self.remove_goal_with_id(id, event_id, now)
    }
}

} // verus!
