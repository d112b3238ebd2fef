//! Undoing the latest operation from its history entry.
use vstd::prelude::*;
use crate::model::{copy_goals, copy_pairs, goals_view, opt_view, pairs_view, AnnotationView, EdgeRecord, EdgeRecordView, Goal, GoalError, GoalErrorView, GoalView,
    LogEntryView, PairView, TableStateView};
use crate::text::{copy_str, first_index_of, find_char, lemma_seq_lt_asymmetric, lemma_seq_lt_total, lemma_seq_lt_transitive,
    seq_lt, str_eq, str_lt, substring};
use super::delete::{add_new, goals_without, lemma_add_new_no_dups, lemma_goals_without_wf};
use super::ops::{annotation_index, goal_row, has_annotation, has_event, lemma_without_pair_no_dups, without_pair};
use super::{alias_olds, annotation_ids, annotations_view, entries_view, table_state, event_ids, goal_id_seq, has_goal, no_dups, wf, Store, StoreView};

verus! {

/// Entry `k` is the latest: no other entry has a later timestamp, or the same
/// timestamp and a later row.
pub open spec fn is_latest(events: Seq<LogEntryView>, k: int) -> bool {
    &&& 0 <= k < events.len()
    &&& forall|j: int| 0 <= j < events.len() && j != k ==>
        seq_lt(#[trigger] events[j].timestamp, events[k].timestamp) || (events[j].timestamp == events[k].timestamp && j < k)
}

pub open spec fn latest_index(events: Seq<LogEntryView>) -> int {
    choose|k: int| is_latest(events, k)
}

/// The goals with the rows of `snap` inserted after them, or `None` where an
/// id is taken.
pub open spec fn insert_rows(goals: Seq<GoalView>, snap: Seq<GoalView>) -> Option<Seq<GoalView>>
    decreases snap.len(),
{
    if snap.len() == 0 {
        Some(goals)
    } else {
        match insert_rows(goals, snap.drop_last()) {
            None => None,
            Some(g) => {
                let x = snap.last();
                if has_goal(g, x.id) {
                    None
                } else {
                    Some(g.push(goal_row(x.id, x.parent_id, x.body, x.achieved)))
                }
            },
        }
    }
}

/// The goals with the one whose id is `id` marked `achieved`.
pub open spec fn set_achieved_where(goals: Seq<GoalView>, id: Seq<char>, achieved: bool) -> Seq<GoalView> {
    goals.map_values(|g: GoalView| if g.id == id { GoalView { achieved, ..g } } else { g })
}

/// The edges without each edge of `list`.
pub open spec fn without_pairs(e: Seq<PairView>, list: Seq<PairView>) -> Seq<PairView>
    decreases list.len(),
{
    if list.len() == 0 {
        e
    } else {
        without_pair(without_pairs(e, list.drop_last()), list.last())
    }
}

/// The two ids that `higher:lower` names, split at the first `:`.
pub open spec fn split_edge(n: Seq<char>) -> Option<(Seq<char>, Seq<char>)> {
    match first_index_of(n, ':') {
        None => None,
        Some(p) => Some((n.subrange(0, p), n.subrange(p + 1, n.len() as int))),
    }
}

/// The goals as rows are stored: each kind is the one its id encodes.
pub open spec fn stored_rows(t: Seq<GoalView>) -> Seq<GoalView> {
    t.map_values(|g: GoalView| goal_row(g.id, g.parent_id, g.body, g.achieved))
}

/// The goals, rankings and aliases that a history entry kept, put back; each
/// goal's kind is the one its id encodes. `None` where a key repeats.
pub open spec fn restored(s: StoreView, t: TableStateView) -> Option<StoreView> {
    if no_dups(goal_id_seq(t.goals)) && no_dups(t.edges) && no_dups(alias_olds(t.aliases)) {
        Some(StoreView {
            goals: stored_rows(t.goals),
            edges: t.edges,
            aliases: t.aliases,
            ..s
        })
    } else {
        None
    }
}

/// The annotations without the one whose id is `id`, if there is one.
pub open spec fn drop_annotation(anns: Seq<AnnotationView>, id: Seq<char>) -> Seq<AnnotationView> {
    if has_annotation(anns, id) {
        anns.remove(annotation_index(anns, id))
    } else {
        anns
    }
}

/// The notes with the one whose id is that of `a` set back to `a`, if there
/// is one.
pub open spec fn put_note_back(anns: Seq<AnnotationView>, a: AnnotationView) -> Seq<AnnotationView> {
    if has_annotation(anns, a.id) {
        anns.update(annotation_index(anns, a.id), a)
    } else {
        anns
    }
}

/// The notes with `a` inserted at position `i` (at the end where there are
/// fewer notes).
pub open spec fn reinsert_note(anns: Seq<AnnotationView>, a: AnnotationView, i: int) -> Seq<AnnotationView> {
    anns.insert(if i <= anns.len() { i } else { anns.len() as int }, a)
}

/// What undoing the history entry `e` (with goals `snap`) does to the
/// tables. Where a deletion or a modification kept the tables it changed and
/// they still stand as it left them, the tables from before it come back.
/// Otherwise (a later change stands in them, or an entry without that
/// record) it re-inserts its goals and reverses its edge record.
pub open spec fn undo_effect(s: StoreView, e: LogEntryView, snap: Seq<GoalView>) -> Result<StoreView, GoalErrorView> {
    let op = e.op;
    if (op == "Delete"@ || op == "Modify"@) && (e.change matches Some(c) && table_state(s) == c.after) {
        match restored(s, e.change->Some_0.before) {
            None => Err(GoalErrorView::DuplicateKey),
            Some(v) => Ok(v),
        }
    } else if op == "Annotate"@ {
        match e.new_id {
            None => Err(GoalErrorView::MissingNewId(op)),
            Some(a) => Ok(StoreView { annotations: drop_annotation(s.annotations, a), ..s }),
        }
    } else if op == "EditNote"@ || op == "DeleteNote"@ {
        match e.note {
            None => Err(GoalErrorView::MissingNote),
            Some((a, i)) => if op == "EditNote"@ {
                Ok(StoreView { annotations: put_note_back(s.annotations, a), ..s })
            } else if has_annotation(s.annotations, a.id) {
                Err(GoalErrorView::DuplicateKey)
            } else {
                Ok(StoreView { annotations: reinsert_note(s.annotations, a, i as int), ..s })
            },
        }
    } else if op == "Add"@ {
        match e.new_id {
            None => Err(GoalErrorView::MissingNewId(op)),
            Some(t) => Ok(StoreView { goals: goals_without(s.goals, seq![t]), ..s }),
        }
    } else if op == "Done"@ || op == "Undone"@ {
        if snap.len() == 0 {
            Err(GoalErrorView::EmptySnapshot)
        } else {
            Ok(StoreView { goals: set_achieved_where(s.goals, snap[0].id, snap[0].achieved), ..s })
        }
    } else if op == "Delete"@ {
        match insert_rows(s.goals, snap) {
            None => Err(GoalErrorView::DuplicateKey),
            Some(g2) => match e.snapshot_edges {
                EdgeRecordView::Absent => Ok(StoreView { goals: g2, ..s }),
                EdgeRecordView::Malformed => Err(GoalErrorView::MalformedEdges),
                EdgeRecordView::Present(es) => Ok(StoreView {
                    goals: g2,
                    edges: add_new(without_pairs(s.edges, es.added), es.removed),
                    ..s
                }),
            },
        }
    } else if op == "Prioritize"@ || op == "Deprioritize"@ {
        match e.new_id {
            None => Err(GoalErrorView::MissingNewId(op)),
            Some(n) => match split_edge(n) {
                None => Err(GoalErrorView::MalformedEdgeId(n)),
                Some((h, l)) => if op == "Prioritize"@ {
                    Ok(StoreView { edges: without_pair(s.edges, (h, l)), ..s })
                } else {
                    Ok(StoreView { edges: add_new(s.edges, seq![(h, l)]), ..s })
                },
            },
        }
    } else if op == "Modify"@ {
        match e.new_id {
            None => Err(GoalErrorView::MissingNewId(op)),
            Some(t) => match insert_rows(goals_without(s.goals, seq![t]), snap) {
                None => Err(GoalErrorView::DuplicateKey),
                Some(g2) => Ok(StoreView { goals: g2, ..s }),
            },
        }
    } else {
        Err(GoalErrorView::UnknownOp(op))
    }
}

/// Undoing the latest operation: its effect is reversed, and its history
/// entry moves to the undone entries.
pub open spec fn undo_outcome(s: StoreView) -> Result<StoreView, GoalErrorView> {
    if s.events.len() == 0 {
        Err(GoalErrorView::NothingToUndo)
    } else {
        let k = latest_index(s.events);
        let e = s.events[k];
        match e.snapshot {
            None => Err(GoalErrorView::MalformedSnapshot),
            Some(snap) => match undo_effect(s, e, snap) {
                Err(x) => Err(x),
                Ok(s2) => if has_event(s2.undone, e.event_id) {
                    Err(GoalErrorView::DuplicateKey)
                } else {
                    Ok(StoreView { events: s2.events.remove(k), undone: s2.undone.push(e), ..s2 })
                },
            },
        }
    }
}

pub proof fn lemma_latest_unique(events: Seq<LogEntryView>, a: int, b: int)
    requires
        is_latest(events, a),
        is_latest(events, b),
    ensures
        a == b,
{
    if a != b {
        let ta = events[a].timestamp;
        let tb = events[b].timestamp;
        if seq_lt(ta, tb) {
            lemma_seq_lt_asymmetric(ta, tb);
        } else if seq_lt(tb, ta) {
            lemma_seq_lt_asymmetric(tb, ta);
        }
    }
}

impl Store {
    /// The position of the latest history entry.
    fn latest_position(&self) -> (k: usize)
        requires
            self@.events.len() > 0,
        ensures
            k < self@.events.len(),
            is_latest(self@.events, k as int),
            latest_index(self@.events) == k,
    {
        let ghost ev = self@.events;
        let mut best: usize = 0;
        let mut i: usize = 1;
        while i < self.events.len()
            invariant
                ev == self@.events,
                ev.len() > 0,
                1 <= i <= ev.len(),
                best < i,
                forall|j: int| 0 <= j < i && j != best ==>
                    seq_lt(#[trigger] ev[j].timestamp, ev[best as int].timestamp) || (ev[j].timestamp == ev[best as int].timestamp && j < best),
            decreases ev.len() - i,
        {
            assert(ev[i as int] == self.events@[i as int]@);
            assert(ev[best as int] == self.events@[best as int]@);
            if !str_lt(self.events[i].timestamp.as_str(), self.events[best].timestamp.as_str()) {
                proof {
                    let ti = ev[i as int].timestamp;
                    let tb = ev[best as int].timestamp;
                    lemma_seq_lt_total(ti, tb);
                    assert forall|j: int| 0 <= j < i + 1 && j != i implies
                        seq_lt(#[trigger] ev[j].timestamp, ti) || (ev[j].timestamp == ti && j < i) by {
                        if j != best {
                            if seq_lt(ev[j].timestamp, tb) && seq_lt(tb, ti) {
                                lemma_seq_lt_transitive(ev[j].timestamp, tb, ti);
                            }
                        }
                    }
                }
                best = i;
            }
            i += 1;
        }
        proof {
            let c = latest_index(ev);
            assert(is_latest(ev, best as int));
            lemma_latest_unique(ev, c, best as int);
        }
        best
    }
}

fn insert_rows_exec(goals: &mut Vec<Goal>, snap: &Vec<Goal>) -> (ok: bool)
    ensures
        ok ==> insert_rows(goals_view(old(goals)@), goals_view(snap@)) == Some(goals_view(final(goals)@)),
        !ok ==> insert_rows(goals_view(old(goals)@), goals_view(snap@)) is None,
{
    let ghost g0 = goals_view(goals@);
    let ghost sv = goals_view(snap@);
    let mut i: usize = 0;
    while i < snap.len()
        invariant
            g0 == goals_view(old(goals)@),
            sv == goals_view(snap@),
            i <= snap@.len(),
            insert_rows(g0, sv.take(i as int)) == Some(goals_view(goals@)),
        decreases snap@.len() - i,
    {
        assert(sv.take(i + 1).drop_last() =~= sv.take(i as int));
        assert(sv.take(i + 1).last() == snap@[i as int]@);
        if super::modify::goal_in(goals, snap[i].id.as_str()) {
            proof {
                lemma_insert_rows_none(g0, sv, i + 1, sv.len() as int);
                assert(sv.take(sv.len() as int) =~= sv);
            }
            return false;
        }
        let x = &snap[i];
        let ghost before = goals_view(goals@);
        goals.push(Goal {
            id: x.id.clone(),
            parent_id: crate::model::copy_opt(&x.parent_id),
            body: x.body.clone(),
            achieved: x.achieved,
            kind: crate::ids::kind_from_id(x.id.as_str()),
        });
        assert(goals_view(goals@) =~= before.push(goal_row(x.id@, opt_view(x.parent_id), x.body@, x.achieved)));
        i += 1;
    }
    assert(sv.take(snap@.len() as int) =~= sv);
    true
}

proof fn lemma_insert_rows_none(g0: Seq<GoalView>, sv: Seq<GoalView>, k: int, j: int)
    requires
        0 <= k <= j <= sv.len(),
        insert_rows(g0, sv.take(k)) is None,
    ensures
        insert_rows(g0, sv.take(j)) is None,
    decreases j - k,
{
    if j > k {
        lemma_insert_rows_none(g0, sv, k, j - 1);
        assert(sv.take(j).drop_last() =~= sv.take(j - 1));
    }
}

/// Inserting rows keeps goal ids distinct and kinds right.
proof fn lemma_insert_rows_wf(goals: Seq<GoalView>, snap: Seq<GoalView>)
    requires
        no_dups(goal_id_seq(goals)),
        forall|i: int| 0 <= i < goals.len() ==> (#[trigger] goals[i]).kind == crate::ids::id_kind(goals[i].id),
        insert_rows(goals, snap) is Some,
    ensures
        no_dups(goal_id_seq(insert_rows(goals, snap).unwrap())),
        forall|i: int| 0 <= i < insert_rows(goals, snap).unwrap().len() ==> (#[trigger] insert_rows(goals, snap).unwrap()[i]).kind
            == crate::ids::id_kind(insert_rows(goals, snap).unwrap()[i].id),
    decreases snap.len(),
{
    if snap.len() > 0 {
        lemma_insert_rows_wf(goals, snap.drop_last());
        let g = insert_rows(goals, snap.drop_last()).unwrap();
        let x = snap.last();
        let r = g.push(goal_row(x.id, x.parent_id, x.body, x.achieved));
        assert forall|a: int, b: int| 0 <= a < goal_id_seq(r).len() && 0 <= b < goal_id_seq(r).len() && a != b
            implies goal_id_seq(r)[a] != goal_id_seq(r)[b] by {
            if a == g.len() as int {
                assert(goal_id_seq(g)[b] == g[b].id);
            } else if b == g.len() as int {
                assert(goal_id_seq(g)[a] == g[a].id);
            } else {
                assert(goal_id_seq(r)[a] == goal_id_seq(g)[a]);
                assert(goal_id_seq(r)[b] == goal_id_seq(g)[b]);
            }
        }
        assert forall|i: int| 0 <= i < r.len() implies (#[trigger] r[i]).kind == crate::ids::id_kind(r[i].id) by {
            if i < g.len() {
                assert(r[i] == g[i]);
            }
        }
    }
}

fn without_pairs_exec(e: &Vec<(String, String)>, list: &Vec<(String, String)>) -> (r: Vec<(String, String)>)
    ensures
        pairs_view(r@) == without_pairs(pairs_view(e@), pairs_view(list@)),
{
    let ghost lv = pairs_view(list@);
    let mut r = copy_pairs(e);
    let mut i: usize = 0;
    while i < list.len()
        invariant
            lv == pairs_view(list@),
            i <= list@.len(),
            pairs_view(r@) == without_pairs(pairs_view(e@), lv.take(i as int)),
        decreases list@.len() - i,
    {
        assert(lv.take(i + 1).drop_last() =~= lv.take(i as int));
        assert(lv.take(i + 1).last() == (list@[i as int].0@, list@[i as int].1@));
        r = super::ops::remove_pair_from(&r, list[i].0.as_str(), list[i].1.as_str());
        i += 1;
    }
    assert(lv.take(list@.len() as int) =~= lv);
    r
}

proof fn lemma_without_pairs_no_dups(e: Seq<PairView>, list: Seq<PairView>)
    requires
        no_dups(e),
    ensures
        no_dups(without_pairs(e, list)),
    decreases list.len(),
{
    if list.len() > 0 {
        lemma_without_pairs_no_dups(e, list.drop_last());
        lemma_without_pair_no_dups(without_pairs(e, list.drop_last()), list.last());
    }
}

/// The two ids named by `higher:lower`, split at the first `:`; an error
/// where there is no `:`.
pub fn parse_edge_new_id(n: &str) -> (r: Result<(String, String), GoalError>)
    ensures
        match split_edge(n@) {
            None => r matches Err(e) && e@ == GoalErrorView::MalformedEdgeId(n@),
            Some((h, l)) => r matches Ok(p) && p.0@ == h && p.1@ == l,
        },
{
    match find_char(n, ':') {
        None => Err(GoalError::MalformedEdgeId(copy_str(n))),
        Some(p) => {
            let len = n.unicode_len();
            let h = substring(n, 0, p);
            let l = substring(n, p + 1, len);
            Ok((h, l))
        },
    }
}

pub proof fn lemma_no_dups_remove<T>(s: Seq<T>, k: int)
    requires
        no_dups(s),
        0 <= k < s.len(),
    ensures
        no_dups(s.remove(k)),
{
    let r = s.remove(k);
    assert forall|a: int, b: int| 0 <= a < r.len() && 0 <= b < r.len() && a != b implies r[a] != r[b] by {
        let a2 = if a < k { a } else { a + 1 };
        let b2 = if b < k { b } else { b + 1 };
        assert(r[a] == s[a2]);
        assert(r[b] == s[b2]);
    }
}

/// The goals with each kind taken from the id, as rows are stored.
fn as_rows(v: &Vec<Goal>) -> (r: Vec<Goal>)
    ensures
        goals_view(r@) == stored_rows(goals_view(v@)),
{
    let mut r: Vec<Goal> = Vec::new();
    let mut i: usize = 0;
    while i < v.len()
        invariant
            i <= v@.len(),
            goals_view(r@) == stored_rows(goals_view(v@.take(i as int))),
        decreases v@.len() - i,
    {
        let g = &v[i];
        let ghost before = goals_view(r@);
        r.push(Goal {
            id: g.id.clone(),
            parent_id: crate::model::copy_opt(&g.parent_id),
            body: g.body.clone(),
            achieved: g.achieved,
            kind: crate::ids::kind_from_id(g.id.as_str()),
        });
        proof {
            let pre = goals_view(v@.take(i as int));
            let gv = v@[i as int]@;
            assert(goals_view(v@.take(i + 1)) =~= pre.push(gv));
            assert(stored_rows(pre.push(gv)) =~= stored_rows(pre).push(goal_row(gv.id, gv.parent_id, gv.body, gv.achieved)));
            assert(goals_view(r@) =~= before.push(goal_row(gv.id, gv.parent_id, gv.body, gv.achieved)));
        }
        i += 1;
    }
    assert(v@.take(v@.len() as int) =~= v@);
    r
}

/// The ids of the goals, in order.
fn goal_ids_of(v: &Vec<Goal>) -> (r: Vec<String>)
    ensures
        r@.map_values(|s: String| s@) == goal_id_seq(goals_view(v@)),
{
    let mut r: Vec<String> = Vec::new();
    let mut i: usize = 0;
    while i < v.len()
        invariant
            i <= v@.len(),
            r@.len() == i,
            forall|k: int| 0 <= k < i ==> (#[trigger] r@[k])@ == v@[k].id@,
        decreases v@.len() - i,
    {
        r.push(v[i].id.clone());
        i += 1;
    }
    assert(r@.map_values(|s: String| s@) =~= goal_id_seq(goals_view(v@)));
    r
}

/// The first components of the pairs, in order.
fn firsts_of(v: &Vec<(String, String)>) -> (r: Vec<String>)
    ensures
        r@.map_values(|s: String| s@) == alias_olds(pairs_view(v@)),
{
    let mut r: Vec<String> = Vec::new();
    let mut i: usize = 0;
    while i < v.len()
        invariant
            i <= v@.len(),
            r@.len() == i,
            forall|k: int| 0 <= k < i ==> (#[trigger] r@[k])@ == v@[k].0@,
        decreases v@.len() - i,
    {
        r.push(v[i].0.clone());
        i += 1;
    }
    assert(r@.map_values(|s: String| s@) =~= alias_olds(pairs_view(v@)));
    r
}

fn same_opt(a: &Option<String>, b: &Option<String>) -> (r: bool)
    ensures
        r == (opt_view(*a) == opt_view(*b)),
{
    match (a, b) {
        (Some(x), Some(y)) => str_eq(x.as_str(), y.as_str()),
        (None, None) => true,
        _ => false,
    }
}

/// Whether the two goal tables are the same, row for row.
fn same_goals(a: &Vec<Goal>, b: &Vec<Goal>) -> (r: bool)
    ensures
        r == (goals_view(a@) == goals_view(b@)),
{
    if a.len() != b.len() {
        assert(goals_view(a@).len() != goals_view(b@).len());
        return false;
    }
    let mut i: usize = 0;
    while i < a.len()
        invariant
            a@.len() == b@.len(),
            i <= a@.len(),
            forall|k: int| 0 <= k < i ==> a@[k]@ == b@[k]@,
        decreases a@.len() - i,
    {
        let x = &a[i];
        let y = &b[i];
        if !(str_eq(x.id.as_str(), y.id.as_str()) && same_opt(&x.parent_id, &y.parent_id) && str_eq(x.body.as_str(), y.body.as_str())
            && x.achieved == y.achieved && x.kind == y.kind) {
            assert(goals_view(a@)[i as int] != goals_view(b@)[i as int]);
            return false;
        }
        i += 1;
    }
    assert(goals_view(a@) =~= goals_view(b@));
    true
}

/// Whether the two tables of pairs are the same, row for row.
fn same_pairs(a: &Vec<(String, String)>, b: &Vec<(String, String)>) -> (r: bool)
    ensures
        r == (pairs_view(a@) == pairs_view(b@)),
{
    if a.len() != b.len() {
        assert(pairs_view(a@).len() != pairs_view(b@).len());
        return false;
    }
    let mut i: usize = 0;
    while i < a.len()
        invariant
            a@.len() == b@.len(),
            i <= a@.len(),
            forall|k: int| 0 <= k < i ==> a@[k].0@ == b@[k].0@ && a@[k].1@ == b@[k].1@,
        decreases a@.len() - i,
    {
        if !(str_eq(a[i].0.as_str(), b[i].0.as_str()) && str_eq(a[i].1.as_str(), b[i].1.as_str())) {
            assert(pairs_view(a@)[i as int] != pairs_view(b@)[i as int]);
            return false;
        }
        i += 1;
    }
    assert(pairs_view(a@) =~= pairs_view(b@));
    true
}

proof fn lemma_rows_wf(t: Seq<GoalView>)
    requires
        no_dups(goal_id_seq(t)),
    ensures
        no_dups(goal_id_seq(stored_rows(t))),
        forall|i: int| 0 <= i < t.len() ==> (#[trigger] stored_rows(t)[i]).kind
            == crate::ids::id_kind(t[i].id),
{
    let r = stored_rows(t);
    assert(goal_id_seq(r) =~= goal_id_seq(t));
}

impl Store {
    /// Undoes the latest operation (see `undo_outcome`).
    pub fn undo_last(&mut self) -> (r: Result<(), GoalError>)
        requires
            wf(old(self)@),
        ensures
            wf(final(self)@),
            match undo_outcome(old(self)@) {
                Ok(v) => r is Ok && final(self)@ == v,
                Err(e) => r matches Err(y) && y@ == e && final(self)@ == old(self)@,
            },
    {
        let ghost s0 = self@;
        if self.events.len() == 0 {
            return Err(GoalError::NothingToUndo);
        }
        let k = self.latest_position();
        let ghost ev = s0.events[k as int];
        assert(ev == self.events@[k as int]@);
        let snapshot: Vec<Goal> = match &self.events[k].snapshot {
            None => {
                return Err(GoalError::MalformedSnapshot);
            },
            Some(v) => copy_goals(v),
        };
        let ghost snap = goals_view(snapshot@);
        let op = self.events[k].op.clone();
        let mut goals: Vec<Goal> = copy_goals(&self.goals);
        let mut edges: Vec<(String, String)> = copy_pairs(&self.edges);
        let mut aliases: Vec<(String, String)> = copy_pairs(&self.aliases);
        let mut annotations = super::ops::copy_annotations(&self.annotations);
        assert(annotations_view(annotations@) =~= s0.annotations);
        let ghost eff = undo_effect(s0, ev, snap);
        let restorable = str_eq(op.as_str(), "Delete") || str_eq(op.as_str(), "Modify");
        let kept = match &self.events[k].change {
            Some(c) => if restorable && same_goals(&self.goals, &c.after.goals) && same_pairs(&self.edges, &c.after.edges)
                && same_pairs(&self.aliases, &c.after.aliases) {
                Some(&c.before)
            } else {
                None
            },
            None => None,
        };
        if let Some(t) = kept {
            let ids = goal_ids_of(&t.goals);
            let olds = firsts_of(&t.aliases);
            if !crate::store::distinct_strings(&ids) || !crate::store::distinct_pairs(&t.edges) || !crate::store::distinct_strings(&olds) {
                return Err(GoalError::DuplicateKey);
            }
            goals = as_rows(&t.goals);
            edges = copy_pairs(&t.edges);
            aliases = copy_pairs(&t.aliases);
            proof {
                lemma_rows_wf(goals_view(t.goals@));
            }
        } else if str_eq(op.as_str(), "Annotate") {
            match &self.events[k].new_id {
                None => {
                    return Err(GoalError::MissingNewId(op));
                },
                Some(a) => {
                    if let Some(p) = self.annotation_position(a.as_str()) {
                        proof {
                            let c = annotation_index(s0.annotations, a@);
                            assert(s0.annotations[c].id == a@);
                            assert(c == p as int);
                        }
                        annotations.remove(p);
                        proof {
                            assert(annotations_view(annotations@) =~= s0.annotations.remove(p as int));
                            assert(annotation_ids(s0.annotations.remove(p as int)) =~= annotation_ids(s0.annotations).remove(p as int));
                            lemma_no_dups_remove(annotation_ids(s0.annotations), p as int);
                        }
                    }
                },
            }
        } else if str_eq(op.as_str(), "EditNote") || str_eq(op.as_str(), "DeleteNote") {
            let (a, i) = match &self.events[k].note {
                None => {
                    return Err(GoalError::MissingNote);
                },
                Some(n) => (super::ops::copy_annotation(&n.0), n.1),
            };
            let pos = self.annotation_position(a.id.as_str());
            if str_eq(op.as_str(), "EditNote") {
                if let Some(p) = pos {
                    proof {
                        let c = annotation_index(s0.annotations, a.id@);
                        assert(s0.annotations[c].id == a.id@);
                        assert(c == p as int);
                    }
                    annotations.set(p, a);
                    proof {
                        assert(annotations_view(annotations@) =~= s0.annotations.update(p as int, a@));
                        assert(annotation_ids(annotations_view(annotations@)) =~= annotation_ids(s0.annotations));
                    }
                }
            } else {
                if pos.is_some() {
                    return Err(GoalError::DuplicateKey);
                }
                let at = if i <= annotations.len() { i } else { annotations.len() };
                let ghost av = a@;
                annotations.insert(at, a);
                proof {
                    assert(annotations_view(annotations@) =~= s0.annotations.insert(at as int, av));
                    let ids = annotation_ids(annotations_view(annotations@));
                    assert(ids =~= annotation_ids(s0.annotations).insert(at as int, av.id));
                    assert forall|x: int, y: int| 0 <= x < ids.len() && 0 <= y < ids.len() && x != y implies ids[x] != ids[y] by {
                        if x == at as int {
                            let y2 = if y < at { y } else { y - 1 };
                            assert(ids[y] == s0.annotations[y2].id);
                        } else if y == at as int {
                            let x2 = if x < at { x } else { x - 1 };
                            assert(ids[x] == s0.annotations[x2].id);
                        } else {
                            let x2 = if x < at { x } else { x - 1 };
                            let y2 = if y < at { y } else { y - 1 };
                            assert(ids[x] == annotation_ids(s0.annotations)[x2]);
                            assert(ids[y] == annotation_ids(s0.annotations)[y2]);
                        }
                    }
                }
            }
        } else if str_eq(op.as_str(), "Add") {
            match &self.events[k].new_id {
                None => {
                    return Err(GoalError::MissingNewId(op));
                },
                Some(t) => {
                    let mut ids: Vec<String> = Vec::new();
                    ids.push(t.clone());
                    assert(ids@.map_values(|s: String| s@) =~= seq![t@]);
                    goals = super::delete::goals_without_exec(&self.goals, &ids);
                    proof {
                        lemma_goals_without_wf(s0.goals, seq![t@]);
                    }
                },
            }
        } else if str_eq(op.as_str(), "Done") || str_eq(op.as_str(), "Undone") {
            if snapshot.len() == 0 {
                return Err(GoalError::EmptySnapshot);
            }
            let target = &snapshot[0];
            assert(snap[0] == target@);
            let mut i: usize = 0;
            while i < goals.len()
                invariant
                    s0 == old(self)@,
                    goals@.len() == s0.goals.len(),
                    i <= goals@.len(),
                    forall|j: int| 0 <= j < i ==> (#[trigger] goals@[j])@ == (if s0.goals[j].id == target.id@ {
                        GoalView { achieved: target.achieved, ..s0.goals[j] }
                    } else {
                        s0.goals[j]
                    }),
                    forall|j: int| i <= j < goals@.len() ==> (#[trigger] goals@[j])@ == s0.goals[j],
                decreases goals@.len() - i,
            {
                if str_eq(goals[i].id.as_str(), target.id.as_str()) {
                    let g = crate::model::copy_goal(&goals[i]);
                    goals.set(i, Goal { achieved: target.achieved, ..g });
                }
                i += 1;
            }
            assert(goals_view(goals@) =~= set_achieved_where(s0.goals, snap[0].id, snap[0].achieved));
            assert(goal_id_seq(goals_view(goals@)) =~= goal_id_seq(s0.goals));
        } else if str_eq(op.as_str(), "Delete") {
            if !insert_rows_exec(&mut goals, &snapshot) {
                return Err(GoalError::DuplicateKey);
            }
            proof {
                lemma_insert_rows_wf(s0.goals, snap);
            }
            match &self.events[k].snapshot_edges {
                EdgeRecord::Absent => {},
                EdgeRecord::Malformed => {
                    return Err(GoalError::MalformedEdges);
                },
                EdgeRecord::Present(es) => {
                    let mut e2 = without_pairs_exec(&self.edges, &es.added);
                    super::delete::add_new_exec(&mut e2, &es.removed);
                    proof {
                        lemma_without_pairs_no_dups(s0.edges, pairs_view(es.added@));
                        lemma_add_new_no_dups(without_pairs(s0.edges, pairs_view(es.added@)), pairs_view(es.removed@));
                    }
                    edges = e2;
                },
            }
        } else if str_eq(op.as_str(), "Prioritize") || str_eq(op.as_str(), "Deprioritize") {
            let n = match &self.events[k].new_id {
                None => {
                    return Err(GoalError::MissingNewId(op));
                },
                Some(n) => n.clone(),
            };
            let (h, l) = match parse_edge_new_id(n.as_str()) {
                Err(e) => {
                    return Err(e);
                },
                Ok(p) => p,
            };
            if str_eq(op.as_str(), "Prioritize") {
                edges = super::ops::remove_pair_from(&self.edges, h.as_str(), l.as_str());
                proof {
                    lemma_without_pair_no_dups(s0.edges, (h@, l@));
                }
            } else {
                let mut one: Vec<(String, String)> = Vec::new();
                one.push((h, l));
                let ghost hl = pairs_view(one@)[0];
                assert(pairs_view(one@) =~= seq![hl]);
                super::delete::add_new_exec(&mut edges, &one);
                proof {
                    lemma_add_new_no_dups(s0.edges, seq![hl]);
                }
            }
        } else if str_eq(op.as_str(), "Modify") {
            match &self.events[k].new_id {
                None => {
                    return Err(GoalError::MissingNewId(op));
                },
                Some(t) => {
                    let mut ids: Vec<String> = Vec::new();
                    ids.push(t.clone());
                    assert(ids@.map_values(|s: String| s@) =~= seq![t@]);
                    goals = super::delete::goals_without_exec(&self.goals, &ids);
                    proof {
                        lemma_goals_without_wf(s0.goals, seq![t@]);
                    }
                    let ghost g1 = goals_view(goals@);
                    if !insert_rows_exec(&mut goals, &snapshot) {
                        return Err(GoalError::DuplicateKey);
                    }
                    proof {
                        lemma_insert_rows_wf(g1, snap);
                    }
                },
            }
        } else {
            return Err(GoalError::UnknownOp(op));
        }
        let ghost anns = annotations_view(annotations@);
        assert(eff == Ok::<StoreView, GoalErrorView>(
            StoreView { goals: goals_view(goals@), edges: pairs_view(edges@), aliases: pairs_view(aliases@), annotations: anns, ..s0 }));
        // Move the entry to the undone entries.
        let eid = self.events[k].event_id.clone();
        let ghost done = StoreView { goals: goals_view(goals@), edges: pairs_view(edges@), aliases: pairs_view(aliases@), annotations: anns, ..s0 };
        assert(undo_outcome(s0) == (if has_event(s0.undone, ev.event_id) {
            Err::<StoreView, GoalErrorView>(GoalErrorView::DuplicateKey)
        } else {
            Ok(StoreView { events: s0.events.remove(k as int), undone: s0.undone.push(ev), ..done })
        }));
        let mut i: usize = 0;
        while i < self.undone.len()
            invariant
                s0 == self@,
                s0 == old(self)@,
                wf(s0),
                eid@ == ev.event_id,
                undo_outcome(s0) == (if has_event(s0.undone, ev.event_id) {
                    Err::<StoreView, GoalErrorView>(GoalErrorView::DuplicateKey)
                } else {
                    Ok(StoreView { events: s0.events.remove(k as int), undone: s0.undone.push(ev), ..done })
                }),
                i <= self.undone@.len(),
                forall|j: int| 0 <= j < i ==> s0.undone[j].event_id != eid@,
            decreases self.undone@.len() - i,
        {
            assert(s0.undone[i as int] == self.undone@[i as int]@);
            if str_eq(self.undone[i].event_id.as_str(), eid.as_str()) {
                assert(s0.undone[i as int].event_id == ev.event_id);
                return Err(GoalError::DuplicateKey);
            }
            i += 1;
        }
        let entry = self.events.remove(k);
        self.undone.push(entry);
        self.goals = goals;
        self.edges = edges;
        self.aliases = aliases;
        self.annotations = annotations;
        proof {
            assert(entries_view(self.events@) =~= s0.events.remove(k as int));
            assert(entries_view(self.undone@) =~= s0.undone.push(ev));
            assert(event_ids(self@.events) =~= event_ids(s0.events).remove(k as int));
            lemma_no_dups_remove(event_ids(s0.events), k as int);
            assert(event_ids(self@.undone) =~= event_ids(s0.undone).push(ev.event_id));
            assert forall|a: int, b: int| 0 <= a < event_ids(self@.undone).len() && 0 <= b < event_ids(self@.undone).len() && a != b
                implies event_ids(self@.undone)[a] != event_ids(self@.undone)[b] by {
                if a == s0.undone.len() as int {
                    assert(event_ids(s0.undone)[b] == s0.undone[b].event_id);
                } else if b == s0.undone.len() as int {
                    assert(event_ids(s0.undone)[a] == s0.undone[a].event_id);
                }
            }
        }
        Ok(())
    }
}

} // verus!
