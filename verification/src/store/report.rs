//! Read-only reports on the tables: the history as the log shows it, and the
//! pairs of pending goals that no ranking orders.
use vstd::prelude::*;
use crate::graph::{edges_within, reaches, reaches_exec};
use super::delete::contains_str;
use crate::model::{copy_goal, goals_view, pairs_view, Event, EventView, Goal, GoalView, LogEntry, LogEntryView,
    PairView};
use crate::sorting::{sort_positions, sorted_positions};
use super::{goal_id_seq, sort_by_id, Store, StoreView};

verus! {

/// The first goal recorded by a history entry, if it recorded any.
pub open spec fn first_goal(e: LogEntryView) -> Option<GoalView> {
    match e.snapshot {
        Some(s) => if s.len() > 0 {
            Some(s[0])
        } else {
            None
        },
        None => None,
    }
}

/// The log line of a history entry: the goal is the first one recorded,
/// else the id that the operation produced, else empty.
pub open spec fn event_line(e: LogEntryView) -> EventView {
    EventView {
        event_id: e.event_id,
        timestamp: e.timestamp,
        op: e.op,
        goal_id: match first_goal(e) {
            Some(g) => g.id,
            None => match e.new_id {
                Some(n) => n,
                None => Seq::empty(),
            },
        },
        goal_body: match first_goal(e) {
            Some(g) => g.body,
            None => Seq::empty(),
        },
    }
}

pub open spec fn time_keys(events: Seq<LogEntryView>) -> Seq<PairView> {
    events.map_values(|e: LogEntryView| (e.timestamp, Seq::<char>::empty()))
}

/// The log: one line per history entry, by timestamp, entries with equal
/// timestamps in the order they were recorded.
pub open spec fn history(events: Seq<LogEntryView>) -> Seq<EventView> {
    sorted_positions(time_keys(events), events.len() as int).map_values(|i: int| event_line(events[i]))
}

/// The goals not yet achieved, in their order.
pub open spec fn pending(s: Seq<GoalView>) -> Seq<GoalView>
    decreases s.len(),
{
    if s.len() == 0 {
        s
    } else {
        let r = pending(s.drop_last());
        if !s.last().achieved {
            r.push(s.last())
        } else {
            r
        }
    }
}

/// Neither goal can be reached from the other along the edges.
pub open spec fn unrelated(e: Seq<PairView>, a: Seq<char>, b: Seq<char>) -> bool {
    !reaches(e, a, b) && !reaches(e, b, a)
}

/// The unrelated pairs `(ps[i], ps[k])` for `i < k < j`, by `k`.
pub open spec fn row_pairs(ps: Seq<GoalView>, e: Seq<PairView>, i: int, j: int) -> Seq<(GoalView, GoalView)>
    decreases j - i,
{
    if j <= i + 1 {
        Seq::empty()
    } else {
        let r = row_pairs(ps, e, i, j - 1);
        if unrelated(e, ps[i].id, ps[j - 1].id) {
            r.push((ps[i], ps[j - 1]))
        } else {
            r
        }
    }
}

/// The unrelated pairs whose first goal is one of the first `i`, by first
/// goal and then by second.
pub open spec fn all_pairs(ps: Seq<GoalView>, e: Seq<PairView>, i: int) -> Seq<(GoalView, GoalView)>
    decreases i,
{
    if i <= 0 {
        Seq::empty()
    } else {
        all_pairs(ps, e, i - 1) + row_pairs(ps, e, i - 1, ps.len() as int)
    }
}

/// The pending goals (ordered by id) two at a time, where no ranking orders
/// one above the other, directly or through a chain of rankings between
/// goals of the table (done ones too; a ranking that a deleted goal left
/// behind is not followed).
pub open spec fn unranked(s: StoreView) -> Seq<(GoalView, GoalView)> {
    let ps = pending(sort_by_id(s.goals));
    all_pairs(ps, edges_within(s.edges, goal_id_seq(s.goals)), ps.len() as int)
}

pub open spec fn events_view(v: Seq<Event>) -> Seq<EventView> {
    v.map_values(|e: Event| e@)
}

pub open spec fn goal_pairs_view(v: Seq<(Goal, Goal)>) -> Seq<(GoalView, GoalView)> {
    v.map_values(|p: (Goal, Goal)| (p.0@, p.1@))
}

fn event_line_exec(e: &LogEntry) -> (r: Event)
    ensures
        r@ == event_line(e@),
{
    let first: Option<&Goal> = match &e.snapshot {
        Some(v) => if v.len() > 0 {
            Some(&v[0])
        } else {
            None
        },
        None => None,
    };
    let (goal_id, goal_body) = match first {
        Some(g) => (g.id.clone(), g.body.clone()),
        None => match &e.new_id {
            Some(n) => (n.clone(), String::new()),
            None => (String::new(), String::new()),
        },
    };
    Event {
        event_id: e.event_id.clone(),
        timestamp: e.timestamp.clone(),
        op: e.op.clone(),
        goal_id,
        goal_body,
    }
}

impl Store {
    /// The history as the log shows it (see `history`).
    pub fn list_events(&self) -> (r: Vec<Event>)
        ensures
            events_view(r@) == history(self@.events),
    {
        let ghost ev = self@.events;
        let mut keys: Vec<(String, String)> = Vec::new();
        let mut i: usize = 0;
        while i < self.events.len()
            invariant
                ev == self@.events,
                i <= ev.len(),
                keys@.len() == i,
                forall|k: int| 0 <= k < i ==> crate::model::pair_view(#[trigger] keys@[k]) == (ev[k].timestamp, Seq::<char>::empty()),
            decreases ev.len() - i,
        {
            assert(ev[i as int] == self.events@[i as int]@);
            keys.push((self.events[i].timestamp.clone(), String::new()));
            i += 1;
        }
        assert(pairs_view(keys@) =~= time_keys(ev));
        let pos = sort_positions(&keys);
        let ghost ps = pos@.map_values(|x: usize| x as int);
        let mut r: Vec<Event> = Vec::new();
        let mut j: usize = 0;
        while j < pos.len()
            invariant
                ev == self@.events,
                ps == pos@.map_values(|x: usize| x as int),
                pos@.len() == ev.len(),
                forall|k: int| 0 <= k < pos@.len() ==> pos@[k] < ev.len(),
                j <= pos@.len(),
                r@.len() == j,
                forall|k: int| 0 <= k < j ==> (#[trigger] r@[k])@ == event_line(ev[ps[k]]),
            decreases pos@.len() - j,
        {
            assert(ev[pos@[j as int] as int] == self.events@[pos@[j as int] as int]@);
            r.push(event_line_exec(&self.events[pos[j]]));
            j += 1;
        }
        assert(events_view(r@) =~= ps.map_values(|i: int| event_line(ev[i])));
        r
    }

    /// The pairs of pending goals that no chain of rankings orders (see
    /// `unranked`).
    pub fn unranked_pairs(&self) -> (r: Vec<(Goal, Goal)>)
        ensures
            goal_pairs_view(r@) == unranked(self@),
    {
        let goals = self.all_goals();
        let ghost gv = goals_view(goals@);
        let mut ps: Vec<Goal> = Vec::new();
        let mut i: usize = 0;
        while i < goals.len()
            invariant
                gv == goals_view(goals@),
                i <= goals@.len(),
                goals_view(ps@) == pending(gv.take(i as int)),
            decreases goals@.len() - i,
        {
            assert(gv.take(i + 1).drop_last() =~= gv.take(i as int));
            assert(gv.take(i + 1).last() == goals@[i as int]@);
            if !goals[i].achieved {
                ps.push(copy_goal(&goals[i]));
                assert(goals_view(ps@) =~= pending(gv.take(i as int)).push(goals@[i as int]@));
            }
            i += 1;
        }
        assert(gv.take(goals@.len() as int) =~= gv);
        let ghost pv = goals_view(ps@);
        let mut ids: Vec<String> = Vec::new();
        let mut i: usize = 0;
        while i < self.goals.len()
            invariant
                i <= self.goals@.len(),
                ids@.len() == i,
                forall|k: int| 0 <= k < i ==> (#[trigger] ids@[k])@ == self@.goals[k].id,
            decreases self.goals@.len() - i,
        {
            assert(self@.goals[i as int] == self.goals@[i as int]@);
            ids.push(self.goals[i].id.clone());
            i += 1;
        }
        assert(ids@.map_values(|s: String| s@) =~= goal_id_seq(self@.goals));
        let ghost idv = goal_id_seq(self@.goals);
        let ghost ev = self@.edges;
        let mut live: Vec<(String, String)> = Vec::new();
        let mut i: usize = 0;
        while i < self.edges.len()
            invariant
                ev == self@.edges,
                idv == ids@.map_values(|s: String| s@),
                i <= ev.len(),
                pairs_view(live@) == edges_within(ev.take(i as int), idv),
            decreases ev.len() - i,
        {
            assert(ev.take(i + 1).drop_last() =~= ev.take(i as int));
            assert(ev[i as int] == (self.edges@[i as int].0@, self.edges@[i as int].1@));
            if contains_str(&ids, self.edges[i].0.as_str()) && contains_str(&ids, self.edges[i].1.as_str()) {
                live.push((self.edges[i].0.clone(), self.edges[i].1.clone()));
                assert(pairs_view(live@) =~= edges_within(ev.take(i as int), idv).push(ev[i as int]));
            }
            i += 1;
        }
        assert(ev.take(ev.len() as int) =~= ev);
        let ghost pev = pairs_view(live@);
        let n = ps.len();
        let mut r: Vec<(Goal, Goal)> = Vec::new();
        let mut a: usize = 0;
        while a < n
            invariant
                pv == goals_view(ps@),
                pev == pairs_view(live@),
                n == ps@.len(),
                a <= n,
                goal_pairs_view(r@) == all_pairs(pv, pev, a as int),
            decreases n - a,
        {
            let ghost before = goal_pairs_view(r@);
            let mut b: usize = a + 1;
            while b < n
                invariant
                    pv == goals_view(ps@),
                    pev == pairs_view(live@),
                    n == ps@.len(),
                    a < n,
                    a + 1 <= b <= n,
                    goal_pairs_view(r@) == before + row_pairs(pv, pev, a as int, b as int),
                decreases n - b,
            {
                assert(pv[a as int] == ps@[a as int]@);
                assert(pv[b as int] == ps@[b as int]@);
                let ab = reaches_exec(&live, ps[a].id.as_str(), ps[b].id.as_str());
                let ba = reaches_exec(&live, ps[b].id.as_str(), ps[a].id.as_str());
                if !ab && !ba {
                    let ghost r0 = r@;
                    let x = copy_goal(&ps[a]);
                    let y = copy_goal(&ps[b]);
                    r.push((x, y));
                    assert(goal_pairs_view(r@) =~= goal_pairs_view(r0).push((pv[a as int], pv[b as int])));
                    assert(goal_pairs_view(r@) =~= before + row_pairs(pv, pev, a as int, b + 1));
                } else {
                    assert(goal_pairs_view(r@) =~= before + row_pairs(pv, pev, a as int, b + 1));
                }
                b += 1;
            }
            a += 1;
        }
        r
    }
}

} // verus!
