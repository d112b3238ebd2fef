//! Adding goals, marking them done, ranking, annotations, tags and id lookup.
use vstd::prelude::*;
use crate::graph::{reaches, reaches_exec};
use crate::ids::{generate_annotation_id, generate_event_id, generate_id, id_depth, id_from_bytes, id_kind,
    kind_from_id, parse_depth, random_bytes_needed, event_id_from_bytes};
use crate::model::{copy_goal, copy_opt, goals_view, opt_view, pairs_view, Annotation, AnnotationView, EdgeRecord,
    EdgeRecordView, Goal, GoalError, GoalErrorView, GoalKind, GoalView, LogEntry, LogEntryView, PairView};
use crate::text::{matches_prefix, matches_prefix_exec, push_char, str_eq};
use crate::sorting::{sort_positions, sorted_positions};
use super::{find_goal, goal_index, has_goal, no_dups, wf, Store, StoreView, goal_id_seq, annotation_ids, event_ids};

verus! {

/// Some history entry has this id.
pub open spec fn has_event(events: Seq<LogEntryView>, id: Seq<char>) -> bool {
    exists|i: int| 0 <= i < events.len() && (#[trigger] events[i]).event_id == id
}

/// The history entry of an operation, with no edge record.
pub open spec fn entry(event_id: Seq<char>, now: Seq<char>, op: Seq<char>, snapshot: Seq<GoalView>, new_id: Option<Seq<char>>) -> LogEntryView {
    LogEntryView {
        event_id,
        timestamp: now,
        op,
        snapshot: Some(snapshot),
        new_id,
        snapshot_edges: EdgeRecordView::Absent,
        change: None,
        note: None,
    }
}

/// A goal row as stored: its kind is the one its id encodes.
pub open spec fn goal_row(id: Seq<char>, parent_id: Option<Seq<char>>, body: Seq<char>, achieved: bool) -> GoalView {
    GoalView { id, parent_id, body, achieved, kind: id_kind(id) }
}

/// Adding a goal with the given ids: the goal row, then its history entry.
pub open spec fn add_goal_outcome(
    s: StoreView,
    body: Seq<char>,
    parent_id: Option<Seq<char>>,
    kind: GoalKind,
    id: Seq<char>,
    event_id: Seq<char>,
    now: Seq<char>,
) -> Result<(StoreView, Seq<char>), GoalErrorView> {
    if has_goal(s.goals, id) {
        Err(GoalErrorView::DuplicateKey)
    } else if parent_id matches Some(p) && !has_goal(s.goals, p) {
        Err(GoalErrorView::MissingReference)
    } else if has_event(s.events, event_id) {
        Err(GoalErrorView::DuplicateKey)
    } else {
        let snap = GoalView { id, parent_id, body, achieved: false, kind };
        Ok((
            StoreView {
                goals: s.goals.push(goal_row(id, parent_id, body, false)),
                events: s.events.push(entry(event_id, now, "Add"@, seq![snap], Some(id))),
                ..s
            },
            id,
        ))
    }
}

/// Marking a goal done or not done with the given history id.
pub open spec fn set_achieved_outcome(s: StoreView, id: Seq<char>, achieved: bool, event_id: Seq<char>, now: Seq<char>) -> Result<StoreView, GoalErrorView> {
    if id_kind(id) == GoalKind::Continuous {
        Err(GoalErrorView::ContinuousGoal(id))
    } else if !has_goal(s.goals, id) {
        Err(GoalErrorView::NoGoal(id))
    } else if has_event(s.events, event_id) {
        Err(GoalErrorView::DuplicateKey)
    } else {
        let i = goal_index(s.goals, id);
        let g = s.goals[i];
        Ok(StoreView {
            goals: s.goals.update(i, GoalView { achieved, ..g }),
            events: s.events.push(entry(event_id, now, if achieved { "Done"@ } else { "Undone"@ }, seq![g], None)),
            ..s
        })
    }
}

/// The id that a ranking's history entry records: `higher:lower`.
pub open spec fn edge_name(h: Seq<char>, l: Seq<char>) -> Seq<char> {
    h + seq![':'] + l
}

/// Ranking `h` above `l` with the given history id.
pub open spec fn add_edge_outcome(s: StoreView, h: Seq<char>, l: Seq<char>, event_id: Seq<char>, now: Seq<char>) -> Result<StoreView, GoalErrorView> {
    if h == l {
        Err(GoalErrorView::SelfPriority)
    } else if s.edges.contains((h, l)) {
        Err(GoalErrorView::EdgeExists(h, l))
    } else if reaches(s.edges, l, h) {
        Err(GoalErrorView::PriorityCycle)
    } else if !has_goal(s.goals, h) {
        Err(GoalErrorView::NoGoal(h))
    } else if !has_goal(s.goals, l) {
        Err(GoalErrorView::NoGoal(l))
    } else if has_event(s.events, event_id) {
        Err(GoalErrorView::DuplicateKey)
    } else {
        let gh = find_goal(s.goals, h).unwrap();
        let gl = find_goal(s.goals, l).unwrap();
        Ok(StoreView {
            edges: s.edges.push((h, l)),
            events: s.events.push(entry(event_id, now, "Prioritize"@, seq![gh, gl], Some(edge_name(h, l)))),
            ..s
        })
    }
}

/// The pairs other than `p`, in order.
pub open spec fn without_pair(s: Seq<PairView>, p: PairView) -> Seq<PairView>
    decreases s.len(),
{
    if s.len() == 0 {
        Seq::empty()
    } else if s.last() == p {
        without_pair(s.drop_last(), p)
    } else {
        without_pair(s.drop_last(), p).push(s.last())
    }
}

/// Removing the ranking of `h` above `l` with the given history id.
pub open spec fn remove_edge_outcome(s: StoreView, h: Seq<char>, l: Seq<char>, event_id: Seq<char>, now: Seq<char>) -> Result<StoreView, GoalErrorView> {
    if !s.edges.contains((h, l)) {
        Err(GoalErrorView::NoEdge(h, l))
    } else if !has_goal(s.goals, h) {
        Err(GoalErrorView::NoGoal(h))
    } else if !has_goal(s.goals, l) {
        Err(GoalErrorView::NoGoal(l))
    } else if has_event(s.events, event_id) {
        Err(GoalErrorView::DuplicateKey)
    } else {
        let gh = find_goal(s.goals, h).unwrap();
        let gl = find_goal(s.goals, l).unwrap();
        Ok(StoreView {
            edges: without_pair(s.edges, (h, l)),
            events: s.events.push(entry(event_id, now, "Deprioritize"@, seq![gh, gl], Some(edge_name(h, l)))),
            ..s
        })
    }
}

/// Some annotation has this id.
pub open spec fn has_annotation(anns: Seq<AnnotationView>, id: Seq<char>) -> bool {
    exists|i: int| 0 <= i < anns.len() && (#[trigger] anns[i]).id == id
}

pub open spec fn annotation_index(anns: Seq<AnnotationView>, id: Seq<char>) -> int {
    choose|i: int| 0 <= i < anns.len() && (#[trigger] anns[i]).id == id
}

/// Adding an annotation with the given id and history id: the annotation,
/// then a history entry that keeps the goal and names the annotation.
pub open spec fn add_annotation_outcome(
    s: StoreView,
    goal_id: Seq<char>,
    body: Seq<char>,
    ann_id: Seq<char>,
    event_id: Seq<char>,
    now: Seq<char>,
) -> Result<StoreView, GoalErrorView> {
    if has_annotation(s.annotations, ann_id) {
        Err(GoalErrorView::DuplicateKey)
    } else if !has_goal(s.goals, goal_id) {
        Err(GoalErrorView::MissingReference)
    } else if has_event(s.events, event_id) {
        Err(GoalErrorView::DuplicateKey)
    } else {
        Ok(StoreView {
            annotations: s.annotations.push(AnnotationView { id: ann_id, goal_id, body, created_at: now }),
            events: s.events.push(entry(event_id, now, "Annotate"@, seq![s.goals[goal_index(s.goals, goal_id)]], Some(ann_id))),
            ..s
        })
    }
}

/// The goal of a note as a history entry keeps it: its row, where there is
/// one.
pub open spec fn note_goal(s: StoreView, a: AnnotationView) -> Seq<GoalView> {
    if has_goal(s.goals, a.goal_id) {
        seq![s.goals[goal_index(s.goals, a.goal_id)]]
    } else {
        Seq::empty()
    }
}

/// The history entry of a change to the note at position `i`: the note as
/// it was and its place.
pub open spec fn note_entry(s: StoreView, i: int, event_id: Seq<char>, now: Seq<char>, op: Seq<char>) -> LogEntryView {
    let a = s.annotations[i];
    LogEntryView { note: Some((a, i as nat)), ..entry(event_id, now, op, note_goal(s, a), Some(a.id)) }
}

/// Replacing the text of the note `ann_id`, recorded under the given history id.
pub open spec fn edit_annotation_outcome(s: StoreView, ann_id: Seq<char>, body: Seq<char>, event_id: Seq<char>, now: Seq<char>) -> Result<StoreView, GoalErrorView> {
    if !has_annotation(s.annotations, ann_id) {
        Err(GoalErrorView::NoAnnotation(ann_id))
    } else if has_event(s.events, event_id) {
        Err(GoalErrorView::DuplicateKey)
    } else {
        let i = annotation_index(s.annotations, ann_id);
        Ok(StoreView {
            annotations: s.annotations.update(i, AnnotationView { body, ..s.annotations[i] }),
            events: s.events.push(note_entry(s, i, event_id, now, "EditNote"@)),
            ..s
        })
    }
}

/// Deleting the note `ann_id`, recorded under the given history id.
pub open spec fn delete_annotation_outcome(s: StoreView, ann_id: Seq<char>, event_id: Seq<char>, now: Seq<char>) -> Result<StoreView, GoalErrorView> {
    if !has_annotation(s.annotations, ann_id) {
        Err(GoalErrorView::NoAnnotation(ann_id))
    } else if has_event(s.events, event_id) {
        Err(GoalErrorView::DuplicateKey)
    } else {
        let i = annotation_index(s.annotations, ann_id);
        Ok(StoreView {
            annotations: s.annotations.remove(i),
            events: s.events.push(note_entry(s, i, event_id, now, "DeleteNote"@)),
            ..s
        })
    }
}

/// Tagging a goal; an existing tag is left as it is.
pub open spec fn add_tag_outcome(s: StoreView, goal_id: Seq<char>, tag: Seq<char>) -> Result<StoreView, GoalErrorView> {
    if s.tags.contains((goal_id, tag)) {
        Ok(s)
    } else if !has_goal(s.goals, goal_id) {
        Err(GoalErrorView::MissingReference)
    } else {
        Ok(StoreView { tags: s.tags.push((goal_id, tag)), ..s })
    }
}

/// The goal ids that start with `prefix`.
pub open spec fn matching_goal_ids(goals: Seq<GoalView>, prefix: Seq<char>) -> Seq<Seq<char>>
    decreases goals.len(),
{
    if goals.len() == 0 {
        Seq::empty()
    } else if matches_prefix(goals.last().id, prefix) {
        matching_goal_ids(goals.drop_last(), prefix).push(goals.last().id)
    } else {
        matching_goal_ids(goals.drop_last(), prefix)
    }
}

/// The aliases whose old id starts with `prefix`.
pub open spec fn matching_aliases(aliases: Seq<PairView>, prefix: Seq<char>) -> Seq<PairView>
    decreases aliases.len(),
{
    if aliases.len() == 0 {
        Seq::empty()
    } else if matches_prefix(aliases.last().0, prefix) {
        matching_aliases(aliases.drop_last(), prefix).push(aliases.last())
    } else {
        matching_aliases(aliases.drop_last(), prefix)
    }
}

/// The annotation ids that start with `prefix`.
pub open spec fn matching_annotation_ids(anns: Seq<AnnotationView>, prefix: Seq<char>) -> Seq<Seq<char>>
    decreases anns.len(),
{
    if anns.len() == 0 {
        Seq::empty()
    } else if matches_prefix(anns.last().id, prefix) {
        matching_annotation_ids(anns.drop_last(), prefix).push(anns.last().id)
    } else {
        matching_annotation_ids(anns.drop_last(), prefix)
    }
}

/// A goal id found from a prefix, and the old id it was renamed from when the
/// prefix matched an old id.
#[derive(Debug, Clone)]
pub struct ResolvedId {
    pub id: String,
    pub renamed_from: Option<String>,
}

/// What resolving a prefix gives: the one goal id it starts; else the new id
/// of the one renamed id it starts.
pub open spec fn resolve_outcome(s: StoreView, prefix: Seq<char>) -> Result<(Seq<char>, Option<Seq<char>>), GoalErrorView> {
    let ids = matching_goal_ids(s.goals, prefix);
    let al = matching_aliases(s.aliases, prefix);
    if ids.len() == 1 {
        Ok((ids[0], None))
    } else if ids.len() > 1 {
        Err(GoalErrorView::AmbiguousPrefix(prefix, ids.len() as usize))
    } else if al.len() == 0 {
        Err(GoalErrorView::NoMatch(prefix))
    } else if al.len() == 1 {
        Ok((al[0].1, Some(al[0].0)))
    } else {
        Err(GoalErrorView::AmbiguousAlias(prefix, al.len() as usize))
    }
}

/// The tags of the table ordered by goal then tag, grouped by goal.
pub open spec fn group_tags(t: Seq<PairView>) -> Seq<(Seq<char>, Seq<Seq<char>>)>
    decreases t.len(),
{
    if t.len() == 0 {
        Seq::empty()
    } else {
        let g = group_tags(t.drop_last());
        let x = t.last();
        if g.len() > 0 && g.last().0 == x.0 {
            g.update(g.len() - 1, (x.0, g.last().1.push(x.1)))
        } else {
            g.push((x.0, seq![x.1]))
        }
    }
}

/// The view of an optional string.
pub open spec fn opt_str(o: Option<&str>) -> Option<Seq<char>> {
    match o {
        Some(p) => Some(p@),
        None => None,
    }
}

/// The depth of a child of `parent_id` (0 at the top).
pub open spec fn child_depth(parent_id: Option<&str>) -> nat {
    match parent_id {
        Some(p) => (id_depth(p@) + 1) as nat,
        None => 0,
    }
}

impl Store {
    /// Appends a history entry; fails where its id is taken.
    pub(crate) fn push_event(&mut self, e: LogEntry) -> (r: Result<(), GoalError>)
        requires
            wf(old(self)@),
        ensures
            wf(final(self)@),
            match r {
                Ok(_) => !has_event(old(self)@.events, e@.event_id)
                    && final(self)@ == (StoreView { events: old(self)@.events.push(e@), ..old(self)@ }),
                Err(err) => has_event(old(self)@.events, e@.event_id) && final(self)@ == old(self)@
                    && err@ == GoalErrorView::DuplicateKey,
            },
    {
        let mut i: usize = 0;
        while i < self.events.len()
            invariant
                wf(self@),
                self@ == old(self)@,
                i <= self.events@.len(),
                forall|k: int| 0 <= k < i ==> self@.events[k].event_id != e@.event_id,
            decreases self.events@.len() - i,
        {
            assert(self@.events[i as int] == self.events@[i as int]@);
            if str_eq(self.events[i].event_id.as_str(), e.event_id.as_str()) {
                return Err(GoalError::DuplicateKey);
            }
            i += 1;
        }
        let ghost old_v = self@;
        self.events.push(e);
        assert(self@.events =~= old_v.events.push(e@));
        assert(event_ids(self@.events) =~= event_ids(old_v.events).push(e@.event_id));
        Ok(())
    }

    /// Adds a goal with the given goal and history ids and returns its id.
    pub fn add_goal_with_ids(&mut self, body: &str, parent_id: Option<&str>, kind: &GoalKind, id: String, event_id: String, now: &str) -> (r: Result<String, GoalError>)
        requires
            wf(old(self)@),
        ensures
            wf(final(self)@),
            match add_goal_outcome(old(self)@, body@, opt_str(parent_id), *kind, id@, event_id@, now@) {
                Ok((v, x)) => r matches Ok(y) && y@ == x && final(self)@ == v,
                Err(e) => r matches Err(y) && y@ == e && final(self)@ == old(self)@,
            },
    {
        let ghost pv: Option<Seq<char>> = opt_str(parent_id);
        if self.goal_position(id.as_str()).is_some() {
            return Err(GoalError::DuplicateKey);
        }
        let parent: Option<String> = match parent_id {
            Some(p) => {
                if self.goal_position(p).is_none() {
                    return Err(GoalError::MissingReference);
                }
                Some(p.to_owned())
            },
            None => None,
        };
        assert(opt_view(parent) == pv);
        let snap = Goal { id: id.clone(), parent_id: copy_opt(&parent), body: body.to_owned(), achieved: false, kind: *kind };
        let mut snapshot: Vec<Goal> = Vec::new();
        snapshot.push(snap);
        let e = LogEntry {
            event_id,
            timestamp: now.to_owned(),
            op: "Add".to_owned(),
            snapshot: Some(snapshot),
            new_id: Some(id.clone()),
            snapshot_edges: EdgeRecord::Absent,
            change: None,
            note: None,
        };
        assert(e@.snapshot == Some(seq![GoalView { id: id@, parent_id: pv, body: body@, achieved: false, kind: *kind }]));
        let ghost before = self@;
        match self.push_event(e) {
            Err(err) => {
                return Err(err);
            },
            Ok(_) => {},
        }
        let g = Goal { id: id.clone(), parent_id: parent, body: body.to_owned(), achieved: false, kind: kind_from_id(id.as_str()) };
        let ghost mid = self@;
        self.goals.push(g);
        assert(self@.goals =~= before.goals.push(goal_row(id@, pv, body@, false)));
        assert(goal_id_seq(self@.goals) =~= goal_id_seq(before.goals).push(id@));
        assert forall|a: int, b: int| 0 <= a < goal_id_seq(self@.goals).len() && 0 <= b < goal_id_seq(self@.goals).len() && a != b
            implies goal_id_seq(self@.goals)[a] != goal_id_seq(self@.goals)[b] by {
            if a == before.goals.len() as int {
                assert(before.goals[b].id == goal_id_seq(before.goals)[b]);
            } else if b == before.goals.len() as int {
                assert(before.goals[a].id == goal_id_seq(before.goals)[a]);
            }
        }
        Ok(id)
    }

    /// Adds a goal under `parent_id` (or at the top) and returns its fresh id,
    /// whose prefix gives the kind and the depth: one below the parent's.
    pub fn add_goal(&mut self, body: &str, parent_id: Option<&str>, kind: &GoalKind, now: &str) -> (r: Result<String, GoalError>)
        requires
            wf(old(self)@),
            parent_id matches Some(p) ==> id_depth(p@) < u32::MAX,
        ensures
            wf(final(self)@),
            exists|bytes: Seq<u8>, ebytes: Seq<u8>|
                #![trigger id_from_bytes(*kind, child_depth(parent_id), bytes), event_id_from_bytes('e', ebytes)]
                {
                &&& bytes.len() == random_bytes_needed(*kind, child_depth(parent_id))
                &&& ebytes.len() == 8
                &&& match add_goal_outcome(old(self)@, body@, opt_str(parent_id), *kind,
                        id_from_bytes(*kind, child_depth(parent_id), bytes), event_id_from_bytes('e', ebytes), now@) {
                    Ok((v, x)) => r matches Ok(y) && y@ == x && final(self)@ == v,
                    Err(e) => r matches Err(y) && y@ == e && final(self)@ == old(self)@,
                }
            },
            r matches Ok(y) ==> id_kind(y@) == *kind && id_depth(y@) == child_depth(parent_id),
    {
        let depth: u32 = match parent_id {
            Some(p) => parse_depth(p) + 1,
            None => 0,
        };
        let id = generate_id(kind, depth);
        let event_id = generate_event_id();
        let ghost bytes = choose|bytes: Seq<u8>| bytes.len() == random_bytes_needed(*kind, depth as nat)
            && #[trigger] id_from_bytes(*kind, depth as nat, bytes) == id@;
        let ghost ebytes = choose|bytes: Seq<u8>| bytes.len() == 8 && #[trigger] event_id_from_bytes('e', bytes) == event_id@;
        let r = self.add_goal_with_ids(body, parent_id, kind, id, event_id, now);
        assert(child_depth(parent_id) == depth as nat);
        r
    }
}

impl Store {
    /// Marks the goal `id` done (`achieved`) or not done, with the given history id.
    pub fn set_achieved_with_id(&mut self, id: &str, achieved: bool, event_id: String, now: &str) -> (r: Result<(), GoalError>)
        requires
            wf(old(self)@),
        ensures
            wf(final(self)@),
            match set_achieved_outcome(old(self)@, id@, achieved, event_id@, now@) {
                Ok(v) => r is Ok && final(self)@ == v,
                Err(e) => r matches Err(y) && y@ == e && final(self)@ == old(self)@,
            },
    {
        if kind_from_id(id) == GoalKind::Continuous {
            return Err(GoalError::ContinuousGoal(id.to_owned()));
        }
        let i = match self.goal_position(id) {
            None => {
                return Err(GoalError::NoGoal(id.to_owned()));
            },
            Some(i) => i,
        };
        let ghost before = self@;
        assert(before.goals[i as int] == self.goals@[i as int]@);
        let snap = copy_goal(&self.goals[i]);
        let mut snapshot: Vec<Goal> = Vec::new();
        snapshot.push(snap);
        let op = if achieved { "Done".to_owned() } else { "Undone".to_owned() };
        let e = LogEntry { event_id, timestamp: now.to_owned(), op, snapshot: Some(snapshot), new_id: None, snapshot_edges: EdgeRecord::Absent, change: None, note: None };
        assert(e@.snapshot == Some(seq![before.goals[i as int]]));
        match self.push_event(e) {
            Err(err) => {
                return Err(err);
            },
            Ok(_) => {},
        }
        let ghost mid = self@;
        let old_g = copy_goal(&self.goals[i]);
        let g = Goal { achieved, ..old_g };
        self.goals.set(i, g);
        assert(self@.goals =~= before.goals.update(i as int, GoalView { achieved, ..before.goals[i as int] }));
        assert(goal_id_seq(self@.goals) =~= goal_id_seq(before.goals));
        Ok(())
    }

    /// Marks the goal `id` done (`achieved`) or not done.
    pub fn set_achieved(&mut self, id: &str, achieved: bool, now: &str) -> (r: Result<(), GoalError>)
        requires
            wf(old(self)@),
        ensures
            wf(final(self)@),
            exists|ebytes: Seq<u8>| #![trigger event_id_from_bytes('e', ebytes)] {
                &&& ebytes.len() == 8
                &&& match set_achieved_outcome(old(self)@, id@, achieved, event_id_from_bytes('e', ebytes), now@) {
                    Ok(v) => r is Ok && final(self)@ == v,
                    Err(e) => r matches Err(y) && y@ == e && final(self)@ == old(self)@,
                }
            },
    {
        let event_id = generate_event_id();
        let r = self.set_achieved_with_id(id, achieved, event_id, now);
        r
    }

    /// Whether `higher` is ranked directly above `lower`.
    pub(crate) fn has_edge(&self, higher: &str, lower: &str) -> (r: bool)
        ensures
            r == self@.edges.contains((higher@, lower@)),
    {
        let mut i: usize = 0;
        while i < self.edges.len()
            invariant
                i <= self.edges@.len(),
                forall|k: int| 0 <= k < i ==> self@.edges[k] != (higher@, lower@),
            decreases self.edges@.len() - i,
        {
            assert(self@.edges[i as int] == (self.edges@[i as int].0@, self.edges@[i as int].1@));
            if str_eq(self.edges[i].0.as_str(), higher) && str_eq(self.edges[i].1.as_str(), lower) {
                assert(self@.edges[i as int] == (higher@, lower@));
                return true;
            }
            i += 1;
        }
        false
    }

    /// Whether ranking `higher` above `lower` would close a cycle: `higher`
    /// can already be reached from `lower` along the rankings.
    pub fn would_create_cycle(&self, higher: &str, lower: &str) -> (r: bool)
        ensures
            r == reaches(self@.edges, lower@, higher@),
    {
        reaches_exec(&self.edges, lower, higher)
    }

    /// Ranks `higher` above `lower`, with the given history id.
    pub fn add_priority_edge_with_id(&mut self, higher: &str, lower: &str, event_id: String, now: &str) -> (r: Result<(), GoalError>)
        requires
            wf(old(self)@),
        ensures
            wf(final(self)@),
            match add_edge_outcome(old(self)@, higher@, lower@, event_id@, now@) {
                Ok(v) => r is Ok && final(self)@ == v,
                Err(e) => r matches Err(y) && y@ == e && final(self)@ == old(self)@,
            },
    {
        if str_eq(higher, lower) {
            return Err(GoalError::SelfPriority);
        }
        if self.has_edge(higher, lower) {
            return Err(GoalError::EdgeExists(higher.to_owned(), lower.to_owned()));
        }
        if self.would_create_cycle(higher, lower) {
            return Err(GoalError::PriorityCycle);
        }
        let gh = match self.get_goal(higher) {
            Ok(g) => g,
            Err(e) => {
                return Err(e);
            },
        };
        let gl = match self.get_goal(lower) {
            Ok(g) => g,
            Err(e) => {
                return Err(e);
            },
        };
        let mut snapshot: Vec<Goal> = Vec::new();
        snapshot.push(gh);
        snapshot.push(gl);
        let mut name = higher.to_owned();
        push_char(&mut name, ':');
        name.append(lower);
        assert(name@ =~= edge_name(higher@, lower@));
        let e = LogEntry { event_id, timestamp: now.to_owned(), op: "Prioritize".to_owned(), snapshot: Some(snapshot), new_id: Some(name), snapshot_edges: EdgeRecord::Absent, change: None, note: None };
        let ghost before = self@;
        assert(e@.snapshot == Some(seq![find_goal(before.goals, higher@).unwrap(), find_goal(before.goals, lower@).unwrap()]));
        match self.push_event(e) {
            Err(err) => {
                return Err(err);
            },
            Ok(_) => {},
        }
        self.edges.push((higher.to_owned(), lower.to_owned()));
        assert(self@.edges =~= before.edges.push((higher@, lower@)));
        assert forall|a: int, b: int| 0 <= a < self@.edges.len() && 0 <= b < self@.edges.len() && a != b
            implies self@.edges[a] != self@.edges[b] by {
            if a == before.edges.len() as int {
                assert(before.edges.contains(before.edges[b]));
            } else if b == before.edges.len() as int {
                assert(before.edges.contains(before.edges[a]));
            }
        }
        Ok(())
    }

    /// Ranks `higher` above `lower`.
    pub fn add_priority_edge(&mut self, higher: &str, lower: &str, now: &str) -> (r: Result<(), GoalError>)
        requires
            wf(old(self)@),
        ensures
            wf(final(self)@),
            exists|ebytes: Seq<u8>| #![trigger event_id_from_bytes('e', ebytes)] {
                &&& ebytes.len() == 8
                &&& match add_edge_outcome(old(self)@, higher@, lower@, event_id_from_bytes('e', ebytes), now@) {
                    Ok(v) => r is Ok && final(self)@ == v,
                    Err(e) => r matches Err(y) && y@ == e && final(self)@ == old(self)@,
                }
            },
    {
        let event_id = generate_event_id();
        self.add_priority_edge_with_id(higher, lower, event_id, now)
    }

    /// Removes the ranking of `higher` above `lower`, with the given history id.
    pub fn remove_priority_edge_with_id(&mut self, higher: &str, lower: &str, event_id: String, now: &str) -> (r: Result<(), GoalError>)
        requires
            wf(old(self)@),
        ensures
            wf(final(self)@),
            match remove_edge_outcome(old(self)@, higher@, lower@, event_id@, now@) {
                Ok(v) => r is Ok && final(self)@ == v,
                Err(e) => r matches Err(y) && y@ == e && final(self)@ == old(self)@,
            },
    {
        if !self.has_edge(higher, lower) {
            return Err(GoalError::NoEdge(higher.to_owned(), lower.to_owned()));
        }
        let gh = match self.get_goal(higher) {
            Ok(g) => g,
            Err(e) => {
                return Err(e);
            },
        };
        let gl = match self.get_goal(lower) {
            Ok(g) => g,
            Err(e) => {
                return Err(e);
            },
        };
        let mut snapshot: Vec<Goal> = Vec::new();
        snapshot.push(gh);
        snapshot.push(gl);
        let mut name = higher.to_owned();
        push_char(&mut name, ':');
        name.append(lower);
        assert(name@ =~= edge_name(higher@, lower@));
        let e = LogEntry { event_id, timestamp: now.to_owned(), op: "Deprioritize".to_owned(), snapshot: Some(snapshot), new_id: Some(name), snapshot_edges: EdgeRecord::Absent, change: None, note: None };
        let ghost before = self@;
        assert(e@.snapshot == Some(seq![find_goal(before.goals, higher@).unwrap(), find_goal(before.goals, lower@).unwrap()]));
        match self.push_event(e) {
            Err(err) => {
                return Err(err);
            },
            Ok(_) => {},
        }
        let kept = remove_pair_from(&self.edges, higher, lower);
        self.edges = kept;
        proof {
            lemma_without_pair_no_dups(before.edges, (higher@, lower@));
        }
        Ok(())
    }

    /// Removes the ranking of `higher` above `lower`.
    pub fn remove_priority_edge(&mut self, higher: &str, lower: &str, now: &str) -> (r: Result<(), GoalError>)
        requires
            wf(old(self)@),
        ensures
            wf(final(self)@),
            exists|ebytes: Seq<u8>| #![trigger event_id_from_bytes('e', ebytes)] {
                &&& ebytes.len() == 8
                &&& match remove_edge_outcome(old(self)@, higher@, lower@, event_id_from_bytes('e', ebytes), now@) {
                    Ok(v) => r is Ok && final(self)@ == v,
                    Err(e) => r matches Err(y) && y@ == e && final(self)@ == old(self)@,
                }
            },
    {
        let event_id = generate_event_id();
        self.remove_priority_edge_with_id(higher, lower, event_id, now)
    }
}

/// The pairs other than `(a, b)`, in order.
pub fn remove_pair_from(v: &Vec<(String, String)>, a: &str, b: &str) -> (r: Vec<(String, String)>)
    ensures
        pairs_view(r@) == without_pair(pairs_view(v@), (a@, b@)),
{
    let ghost pv = pairs_view(v@);
    let mut r: Vec<(String, String)> = Vec::new();
    let mut i: usize = 0;
    while i < v.len()
        invariant
            pv == pairs_view(v@),
            i <= v@.len(),
            pairs_view(r@) == without_pair(pv.take(i as int), (a@, b@)),
        decreases v@.len() - i,
    {
        assert(pv.take(i + 1).drop_last() =~= pv.take(i as int));
        assert(pv.take(i + 1).last() == (v@[i as int].0@, v@[i as int].1@));
        if !(str_eq(v[i].0.as_str(), a) && str_eq(v[i].1.as_str(), b)) {
            let ghost before = pairs_view(r@);
            r.push((v[i].0.clone(), v[i].1.clone()));
            assert(pairs_view(r@) =~= before.push(pv[i as int]));
        }
        i += 1;
    }
    assert(pv.take(v@.len() as int) =~= pv);
    r
}

pub proof fn lemma_without_pair_sub(s: Seq<PairView>, p: PairView)
    ensures
        forall|k: int| 0 <= k < without_pair(s, p).len() ==> s.contains(#[trigger] without_pair(s, p)[k]) && without_pair(s, p)[k] != p,
        without_pair(s, p).len() <= s.len(),
    decreases s.len(),
{
    if s.len() > 0 {
        lemma_without_pair_sub(s.drop_last(), p);
        let w = without_pair(s.drop_last(), p);
        assert forall|k: int| 0 <= k < without_pair(s, p).len() implies s.contains(#[trigger] without_pair(s, p)[k]) && without_pair(s, p)[k] != p by {
            if k < w.len() {
                assert(without_pair(s, p)[k] == w[k]);
                let j = choose|j: int| 0 <= j < s.drop_last().len() && s.drop_last()[j] == w[k];
                assert(s[j] == w[k]);
            } else {
                assert(s[s.len() - 1] == s.last());
            }
        }
    }
}

/// Removing a pair keeps the pairs distinct.
pub proof fn lemma_without_pair_no_dups(s: Seq<PairView>, p: PairView)
    requires
        no_dups(s),
    ensures
        no_dups(without_pair(s, p)),
    decreases s.len(),
{
    if s.len() > 0 {
        let t = s.drop_last();
        assert(no_dups(t));
        lemma_without_pair_no_dups(t, p);
        lemma_without_pair_sub(t, p);
        let w = without_pair(t, p);
        if s.last() != p {
            assert forall|a: int, b: int| 0 <= a < w.push(s.last()).len() && 0 <= b < w.push(s.last()).len() && a != b
                implies w.push(s.last())[a] != w.push(s.last())[b] by {
                if a == w.len() as int && b < w.len() {
                    assert(t.contains(w[b]));
                    let j = choose|j: int| 0 <= j < t.len() && t[j] == w[b];
                    assert(s[j] == w[b]);
                } else if b == w.len() as int && a < w.len() {
                    assert(t.contains(w[a]));
                    let j = choose|j: int| 0 <= j < t.len() && t[j] == w[a];
                    assert(s[j] == w[a]);
                }
            }
        }
    }
}

/// The annotations of the goal `gid`, in table order.
pub open spec fn annotations_of(anns: Seq<AnnotationView>, gid: Seq<char>) -> Seq<AnnotationView>
    decreases anns.len(),
{
    if anns.len() == 0 {
        Seq::empty()
    } else if anns.last().goal_id == gid {
        annotations_of(anns.drop_last(), gid).push(anns.last())
    } else {
        annotations_of(anns.drop_last(), gid)
    }
}

pub open spec fn created_keys(s: Seq<AnnotationView>) -> Seq<PairView> {
    s.map_values(|a: AnnotationView| (a.created_at, Seq::<char>::empty()))
}

/// The annotations of the goal `gid`, oldest first (equal times in table order).
pub open spec fn annotations_for_spec(anns: Seq<AnnotationView>, gid: Seq<char>) -> Seq<AnnotationView> {
    let f = annotations_of(anns, gid);
    sorted_positions(created_keys(f), f.len() as int).map_values(|i: int| f[i])
}

/// The tags ordered by goal, then tag.
pub open spec fn sorted_tags(t: Seq<PairView>) -> Seq<PairView> {
    sorted_positions(t, t.len() as int).map_values(|i: int| t[i])
}

pub open spec fn groups_view(v: Seq<(String, Vec<String>)>) -> Seq<(Seq<char>, Seq<Seq<char>>)> {
    v.map_values(|g: (String, Vec<String>)| (g.0@, g.1@.map_values(|s: String| s@)))
}

pub fn copy_annotation(a: &Annotation) -> (r: Annotation)
    ensures
        r@ == a@,
{
    Annotation { id: a.id.clone(), goal_id: a.goal_id.clone(), body: a.body.clone(), created_at: a.created_at.clone() }
}

pub fn copy_annotations(v: &Vec<Annotation>) -> (r: Vec<Annotation>)
    ensures
        r@.len() == v@.len(),
        forall|k: int| 0 <= k < v@.len() ==> (#[trigger] r@[k])@ == v@[k]@,
{
    let mut r: Vec<Annotation> = Vec::new();
    let mut i: usize = 0;
    while i < v.len()
        invariant
            i <= v@.len(),
            r@.len() == i,
            forall|k: int| 0 <= k < i ==> (#[trigger] r@[k])@ == v@[k]@,
        decreases v@.len() - i,
    {
        r.push(copy_annotation(&v[i]));
        i += 1;
    }
    r
}

impl Store {
    /// The position of the annotation with this id.
    pub(crate) fn annotation_position(&self, ann_id: &str) -> (r: Option<usize>)
        requires
            wf(self@),
        ensures
            match r {
                Some(i) => i < self@.annotations.len() && has_annotation(self@.annotations, ann_id@)
                    && self@.annotations[i as int].id == ann_id@
                    && forall|k: int| 0 <= k < self@.annotations.len() && k != i ==> self@.annotations[k].id != ann_id@,
                None => !has_annotation(self@.annotations, ann_id@),
            },
    {
        let ghost av = self@.annotations;
        let mut i: usize = 0;
        while i < self.annotations.len()
            invariant
                av == self@.annotations,
                wf(self@),
                i <= self.annotations@.len(),
                forall|k: int| 0 <= k < i ==> av[k].id != ann_id@,
            decreases self.annotations@.len() - i,
        {
            assert(av[i as int] == self.annotations@[i as int]@);
            if str_eq(self.annotations[i].id.as_str(), ann_id) {
                assert forall|k: int| 0 <= k < av.len() && k != i implies av[k].id != ann_id@ by {
                    assert(annotation_ids(av)[k] == av[k].id);
                    assert(annotation_ids(av)[i as int] == av[i as int].id);
                }
                return Some(i);
            }
            i += 1;
        }
        None
    }

    /// Adds an annotation with the given id to the goal `goal_id`, recording
    /// it under the given history id.
    pub fn add_annotation_with_id(&mut self, goal_id: &str, body: &str, ann_id: String, event_id: String, now: &str) -> (r: Result<String, GoalError>)
        requires
            wf(old(self)@),
        ensures
            wf(final(self)@),
            match add_annotation_outcome(old(self)@, goal_id@, body@, ann_id@, event_id@, now@) {
                Ok(v) => r matches Ok(x) && x@ == ann_id@ && final(self)@ == v,
                Err(e) => r matches Err(y) && y@ == e && final(self)@ == old(self)@,
            },
    {
        if self.annotation_position(ann_id.as_str()).is_some() {
            return Err(GoalError::DuplicateKey);
        }
        let pos = match self.goal_position(goal_id) {
            None => {
                return Err(GoalError::MissingReference);
            },
            Some(p) => p,
        };
        let mut snapshot: Vec<Goal> = Vec::new();
        snapshot.push(copy_goal(&self.goals[pos]));
        let ghost s0 = self@;
        assert(goals_view(snapshot@) =~= seq![s0.goals[goal_index(s0.goals, goal_id@)]]);
        let e = LogEntry {
            event_id,
            timestamp: now.to_owned(),
            op: "Annotate".to_owned(),
            snapshot: Some(snapshot),
            new_id: Some(ann_id.clone()),
            snapshot_edges: EdgeRecord::Absent,
            change: None,
            note: None,
        };
        match self.push_event(e) {
            Err(err) => {
                return Err(err);
            },
            Ok(_) => {},
        }
        let ghost before = self@;
        let a = Annotation { id: ann_id.clone(), goal_id: goal_id.to_owned(), body: body.to_owned(), created_at: now.to_owned() };
        self.annotations.push(a);
        assert(self@.annotations =~= before.annotations.push(AnnotationView { id: ann_id@, goal_id: goal_id@, body: body@, created_at: now@ }));
        assert(annotation_ids(self@.annotations) =~= annotation_ids(before.annotations).push(ann_id@));
        assert forall|x: int, y: int| 0 <= x < annotation_ids(self@.annotations).len() && 0 <= y < annotation_ids(self@.annotations).len() && x != y
            implies annotation_ids(self@.annotations)[x] != annotation_ids(self@.annotations)[y] by {
            if x == before.annotations.len() as int {
                assert(before.annotations[y].id == annotation_ids(before.annotations)[y]);
            } else if y == before.annotations.len() as int {
                assert(before.annotations[x].id == annotation_ids(before.annotations)[x]);
            }
        }
        Ok(ann_id)
    }

    /// Adds an annotation to the goal `goal_id` and returns its fresh id.
    pub fn add_annotation(&mut self, goal_id: &str, body: &str, now: &str) -> (r: Result<String, GoalError>)
        requires
            wf(old(self)@),
        ensures
            wf(final(self)@),
            exists|abytes: Seq<u8>, ebytes: Seq<u8>| #![trigger event_id_from_bytes('n', abytes), event_id_from_bytes('e', ebytes)] {
                &&& abytes.len() == 8
                &&& ebytes.len() == 8
                &&& match add_annotation_outcome(old(self)@, goal_id@, body@, event_id_from_bytes('n', abytes),
                    event_id_from_bytes('e', ebytes), now@) {
                    Ok(v) => r matches Ok(x) && x@ == event_id_from_bytes('n', abytes) && final(self)@ == v,
                    Err(e) => r matches Err(y) && y@ == e && final(self)@ == old(self)@,
                }
            },
    {
        let ann_id = generate_annotation_id();
        let event_id = generate_event_id();
        self.add_annotation_with_id(goal_id, body, ann_id, event_id, now)
    }

    /// The history entry of a change to the note at position `i`.
    fn note_entry_exec(&self, i: usize, event_id: String, now: &str, op: &str) -> (e: LogEntry)
        requires
            wf(self@),
            i < self@.annotations.len(),
        ensures
            e@ == note_entry(self@, i as int, event_id@, now@, op@),
    {
        let a = copy_annotation(&self.annotations[i]);
        let ghost av = self@.annotations[i as int];
        assert(a@ == av);
        let mut snapshot: Vec<Goal> = Vec::new();
        match self.goal_position(a.goal_id.as_str()) {
            Some(p) => {
                snapshot.push(copy_goal(&self.goals[p]));
                assert(goals_view(snapshot@) =~= seq![self@.goals[p as int]]);
            },
            None => {
                assert(goals_view(snapshot@) =~= Seq::<GoalView>::empty());
            },
        }
        LogEntry {
            event_id,
            timestamp: now.to_owned(),
            op: op.to_owned(),
            snapshot: Some(snapshot),
            new_id: Some(a.id.clone()),
            snapshot_edges: EdgeRecord::Absent,
            change: None,
            note: Some((a, i)),
        }
    }

    /// Replaces the text of the annotation `ann_id`, recorded under the given
    /// history id (see `edit_annotation_outcome`).
    pub fn edit_annotation_with_id(&mut self, ann_id: &str, body: &str, event_id: String, now: &str) -> (r: Result<(), GoalError>)
        requires
            wf(old(self)@),
        ensures
            wf(final(self)@),
            match edit_annotation_outcome(old(self)@, ann_id@, body@, event_id@, now@) {
                Ok(v) => r is Ok && final(self)@ == v,
                Err(e) => r matches Err(y) && y@ == e && final(self)@ == old(self)@,
            },
    {
        match self.annotation_position(ann_id) {
            None => Err(GoalError::NoAnnotation(ann_id.to_owned())),
            Some(i) => {
                let ghost s0 = self@;
                assert(annotation_index(s0.annotations, ann_id@) == i as int) by {
                    let c = annotation_index(s0.annotations, ann_id@);
                    assert(s0.annotations[c].id == ann_id@);
                }
                let e = self.note_entry_exec(i, event_id, now, "EditNote");
                match self.push_event(e) {
                    Err(err) => {
                        return Err(err);
                    },
                    Ok(_) => {},
                }
                let ghost before = self@;
                let old_a = copy_annotation(&self.annotations[i]);
                self.annotations.set(i, Annotation { body: body.to_owned(), ..old_a });
                assert(self@.annotations =~= before.annotations.update(i as int, AnnotationView { body: body@, ..before.annotations[i as int] }));
                assert(annotation_ids(self@.annotations) =~= annotation_ids(before.annotations));
                Ok(())
            },
        }
    }

    /// Replaces the text of the annotation `ann_id`, recorded under a fresh
    /// history id.
    pub fn edit_annotation(&mut self, ann_id: &str, body: &str, now: &str) -> (r: Result<(), GoalError>)
        requires
            wf(old(self)@),
        ensures
            wf(final(self)@),
            exists|ebytes: Seq<u8>| #![trigger event_id_from_bytes('e', ebytes)] {
                &&& ebytes.len() == 8
                &&& match edit_annotation_outcome(old(self)@, ann_id@, body@, event_id_from_bytes('e', ebytes), now@) {
                    Ok(v) => r is Ok && final(self)@ == v,
                    Err(e) => r matches Err(y) && y@ == e && final(self)@ == old(self)@,
                }
            },
    {
        let event_id = generate_event_id();
        self.edit_annotation_with_id(ann_id, body, event_id, now)
    }

    /// Deletes the annotation `ann_id`, recorded under the given history id
    /// (see `delete_annotation_outcome`).
    pub fn delete_annotation_with_id(&mut self, ann_id: &str, event_id: String, now: &str) -> (r: Result<(), GoalError>)
        requires
            wf(old(self)@),
        ensures
            wf(final(self)@),
            match delete_annotation_outcome(old(self)@, ann_id@, event_id@, now@) {
                Ok(v) => r is Ok && final(self)@ == v,
                Err(e) => r matches Err(y) && y@ == e && final(self)@ == old(self)@,
            },
    {
        match self.annotation_position(ann_id) {
            None => Err(GoalError::NoAnnotation(ann_id.to_owned())),
            Some(i) => {
                let ghost s0 = self@;
                assert(annotation_index(s0.annotations, ann_id@) == i as int) by {
                    let c = annotation_index(s0.annotations, ann_id@);
                    assert(s0.annotations[c].id == ann_id@);
                }
                let e = self.note_entry_exec(i, event_id, now, "DeleteNote");
                match self.push_event(e) {
                    Err(err) => {
                        return Err(err);
                    },
                    Ok(_) => {},
                }
                let ghost before = self@;
                self.annotations.remove(i);
                assert(self@.annotations =~= before.annotations.remove(i as int));
                assert(annotation_ids(self@.annotations) =~= annotation_ids(before.annotations).remove(i as int));
                proof {
                    crate::store::undo::lemma_no_dups_remove(annotation_ids(before.annotations), i as int);
                }
                Ok(())
            },
        }
    }

    /// Deletes the annotation `ann_id`, recorded under a fresh history id.
    pub fn delete_annotation(&mut self, ann_id: &str, now: &str) -> (r: Result<(), GoalError>)
        requires
            wf(old(self)@),
        ensures
            wf(final(self)@),
            exists|ebytes: Seq<u8>| #![trigger event_id_from_bytes('e', ebytes)] {
                &&& ebytes.len() == 8
                &&& match delete_annotation_outcome(old(self)@, ann_id@, event_id_from_bytes('e', ebytes), now@) {
                    Ok(v) => r is Ok && final(self)@ == v,
                    Err(e) => r matches Err(y) && y@ == e && final(self)@ == old(self)@,
                }
            },
    {
        let event_id = generate_event_id();
        self.delete_annotation_with_id(ann_id, event_id, now)
    }

    /// The annotations of the goal `goal_id`, oldest first.
    pub fn annotations_for(&self, goal_id: &str) -> (r: Vec<Annotation>)
        ensures
            r@.map_values(|a: Annotation| a@) == annotations_for_spec(self@.annotations, goal_id@),
    {
        let ghost av = self@.annotations;
        let mut found: Vec<Annotation> = Vec::new();
        let mut i: usize = 0;
        while i < self.annotations.len()
            invariant
                av == self@.annotations,
                i <= self.annotations@.len(),
                found@.map_values(|a: Annotation| a@) == annotations_of(av.take(i as int), goal_id@),
            decreases self.annotations@.len() - i,
        {
            assert(av.take(i + 1).drop_last() =~= av.take(i as int));
            assert(av.take(i + 1).last() == self.annotations@[i as int]@);
            if str_eq(self.annotations[i].goal_id.as_str(), goal_id) {
                let ghost before = found@.map_values(|a: Annotation| a@);
                found.push(copy_annotation(&self.annotations[i]));
                assert(found@.map_values(|a: Annotation| a@) =~= before.push(self.annotations@[i as int]@));
            }
            i += 1;
        }
        assert(av.take(self.annotations@.len() as int) =~= av);
        let ghost f = found@.map_values(|a: Annotation| a@);
        let mut keys: Vec<(String, String)> = Vec::new();
        let mut j: usize = 0;
        while j < found.len()
            invariant
                f == found@.map_values(|a: Annotation| a@),
                j <= found@.len(),
                keys@.len() == j,
                forall|k: int| 0 <= k < j ==> pair_view_of(#[trigger] keys@[k]) == (f[k].created_at, Seq::<char>::empty()),
            decreases found@.len() - j,
        {
            keys.push((found[j].created_at.clone(), String::new()));
            j += 1;
        }
        assert(pairs_view(keys@) =~= created_keys(f));
        let pos = sort_positions(&keys);
        let ghost ps = pos@.map_values(|x: usize| x as int);
        let mut r: Vec<Annotation> = Vec::new();
        let mut j: usize = 0;
        while j < pos.len()
            invariant
                f == found@.map_values(|a: Annotation| a@),
                ps == pos@.map_values(|x: usize| x as int),
                pos@.len() == found@.len(),
                forall|k: int| 0 <= k < pos@.len() ==> pos@[k] < found@.len(),
                j <= pos@.len(),
                r@.len() == j,
                forall|k: int| 0 <= k < j ==> (#[trigger] r@[k])@ == f[ps[k]],
            decreases pos@.len() - j,
        {
            r.push(copy_annotation(&found[pos[j]]));
            j += 1;
        }
        assert(r@.map_values(|a: Annotation| a@) =~= ps.map_values(|i: int| f[i]));
        r
    }

    /// Tags the goal `goal_id` with `tag`; an existing tag is kept as it is.
    pub fn add_tag(&mut self, goal_id: &str, tag: &str) -> (r: Result<(), GoalError>)
        requires
            wf(old(self)@),
        ensures
            wf(final(self)@),
            match add_tag_outcome(old(self)@, goal_id@, tag@) {
                Ok(v) => r is Ok && final(self)@ == v,
                Err(e) => r matches Err(y) && y@ == e && final(self)@ == old(self)@,
            },
    {
        let mut i: usize = 0;
        while i < self.tags.len()
            invariant
                wf(self@),
                self@ == old(self)@,
                i <= self.tags@.len(),
                forall|k: int| 0 <= k < i ==> self@.tags[k] != (goal_id@, tag@),
            decreases self.tags@.len() - i,
        {
            assert(self@.tags[i as int] == (self.tags@[i as int].0@, self.tags@[i as int].1@));
            if str_eq(self.tags[i].0.as_str(), goal_id) && str_eq(self.tags[i].1.as_str(), tag) {
                assert(self@.tags[i as int] == (goal_id@, tag@));
                return Ok(());
            }
            i += 1;
        }
        if self.goal_position(goal_id).is_none() {
            return Err(GoalError::MissingReference);
        }
        let ghost before = self@;
        self.tags.push((goal_id.to_owned(), tag.to_owned()));
        assert(self@.tags =~= before.tags.push((goal_id@, tag@)));
        assert forall|a: int, b: int| 0 <= a < self@.tags.len() && 0 <= b < self@.tags.len() && a != b
            implies self@.tags[a] != self@.tags[b] by {
            if a == before.tags.len() as int {
                assert(before.tags.contains(before.tags[b]));
            } else if b == before.tags.len() as int {
                assert(before.tags.contains(before.tags[a]));
            }
        }
        Ok(())
    }

    /// Removes the tag `tag` from the goal `goal_id`, if it is there.
    pub fn remove_tag(&mut self, goal_id: &str, tag: &str) -> (r: Result<(), GoalError>)
        requires
            wf(old(self)@),
        ensures
            wf(final(self)@),
            r is Ok,
            final(self)@ == (StoreView { tags: without_pair(old(self)@.tags, (goal_id@, tag@)), ..old(self)@ }),
    {
        let ghost before = self@;
        let kept = remove_pair_from(&self.tags, goal_id, tag);
        self.tags = kept;
        proof {
            lemma_without_pair_no_dups(before.tags, (goal_id@, tag@));
        }
        Ok(())
    }

    /// Every tagged goal with its tags, ordered by goal id, then tag.
    pub fn all_goal_tags(&self) -> (r: Vec<(String, Vec<String>)>)
        ensures
            groups_view(r@) == group_tags(sorted_tags(self@.tags)),
    {
        let ghost t = self@.tags;
        let pos = sort_positions(&self.tags);
        let ghost ps = pos@.map_values(|x: usize| x as int);
        let ghost st = sorted_tags(t);
        assert(st == ps.map_values(|i: int| t[i]));
        let mut r: Vec<(String, Vec<String>)> = Vec::new();
        let mut j: usize = 0;
        while j < pos.len()
            invariant
                t == self@.tags,
                ps == pos@.map_values(|x: usize| x as int),
                st == ps.map_values(|i: int| t[i]),
                pos@.len() == self.tags@.len(),
                forall|k: int| 0 <= k < pos@.len() ==> pos@[k] < self.tags@.len(),
                j <= pos@.len(),
                groups_view(r@) == group_tags(st.take(j as int)),
            decreases pos@.len() - j,
        {
            let p = pos[j];
            let ghost x = st[j as int];
            assert(x == (self.tags@[p as int].0@, self.tags@[p as int].1@));
            assert(st.take(j + 1).drop_last() =~= st.take(j as int));
            assert(st.take(j + 1).last() == x);
            let ghost g = groups_view(r@);
            let n = r.len();
            let mut same = false;
            if n > 0 {
                same = str_eq(r[n - 1].0.as_str(), self.tags[p].0.as_str());
                assert(g.last().0 == r@[n - 1].0@);
            }
            if same {
                let (key, mut list) = r.pop().unwrap();
                let ghost old_list = list@.map_values(|s: String| s@);
                list.push(self.tags[p].1.clone());
                assert(list@.map_values(|s: String| s@) =~= old_list.push(x.1));
                r.push((key, list));
                assert(groups_view(r@) =~= g.update(g.len() - 1, (x.0, g.last().1.push(x.1))));
            } else {
                let mut list: Vec<String> = Vec::new();
                list.push(self.tags[p].1.clone());
                assert(list@.map_values(|s: String| s@) =~= seq![x.1]);
                r.push((self.tags[p].0.clone(), list));
                assert(groups_view(r@) =~= g.push((x.0, seq![x.1])));
            }
            j += 1;
        }
        assert(st.take(pos@.len() as int) =~= st);
        r
    }

    /// The one annotation id that starts with `prefix`.
    pub fn resolve_annotation_id(&self, prefix: &str) -> (r: Result<String, GoalError>)
        ensures
            ({
                let m = matching_annotation_ids(self@.annotations, prefix@);
                &&& m.len() == 1 ==> (r matches Ok(x) && x@ == m[0])
                &&& m.len() == 0 ==> (r matches Err(e) && e@ == GoalErrorView::NoAnnotationMatch(prefix@))
                &&& m.len() > 1 ==> (r matches Err(e) && e@ == GoalErrorView::AmbiguousAnnotation(prefix@, m.len() as usize))
            }),
    {
        let ghost av = self@.annotations;
        let mut found: Vec<String> = Vec::new();
        let mut i: usize = 0;
        while i < self.annotations.len()
            invariant
                av == self@.annotations,
                i <= self.annotations@.len(),
                found@.len() <= i,
                found@.map_values(|s: String| s@) == matching_annotation_ids(av.take(i as int), prefix@),
            decreases self.annotations@.len() - i,
        {
            assert(av.take(i + 1).drop_last() =~= av.take(i as int));
            assert(av.take(i + 1).last() == self.annotations@[i as int]@);
            if matches_prefix_exec(self.annotations[i].id.as_str(), prefix) {
                let ghost before = found@.map_values(|s: String| s@);
                found.push(self.annotations[i].id.clone());
                assert(found@.map_values(|s: String| s@) =~= before.push(av[i as int].id));
            }
            i += 1;
        }
        assert(av.take(self.annotations@.len() as int) =~= av);
        if found.len() == 1 {
            assert(found@[0]@ == found@.map_values(|s: String| s@)[0]);
            Ok(found[0].clone())
        } else if found.len() == 0 {
            Err(GoalError::NoAnnotationMatch(prefix.to_owned()))
        } else {
            Err(GoalError::AmbiguousAnnotation(prefix.to_owned(), found.len()))
        }
    }

    /// The goal id that `prefix` names: the one goal id that starts with it;
    /// else, when no goal id does, the current id of the one renamed id that
    /// starts with it, together with that old id.
    pub fn resolve_id(&self, prefix: &str) -> (r: Result<ResolvedId, GoalError>)
        ensures
            match resolve_outcome(self@, prefix@) {
                Ok((id, old)) => r matches Ok(x) && x.id@ == id && opt_view(x.renamed_from) == old,
                Err(e) => r matches Err(y) && y@ == e,
            },
    {
        let ghost gv = self@.goals;
        let mut found: Vec<String> = Vec::new();
        let mut i: usize = 0;
        while i < self.goals.len()
            invariant
                gv == self@.goals,
                i <= self.goals@.len(),
                found@.len() <= i,
                found@.map_values(|s: String| s@) == matching_goal_ids(gv.take(i as int), prefix@),
            decreases self.goals@.len() - i,
        {
            assert(gv.take(i + 1).drop_last() =~= gv.take(i as int));
            assert(gv.take(i + 1).last() == self.goals@[i as int]@);
            if matches_prefix_exec(self.goals[i].id.as_str(), prefix) {
                let ghost before = found@.map_values(|s: String| s@);
                found.push(self.goals[i].id.clone());
                assert(found@.map_values(|s: String| s@) =~= before.push(gv[i as int].id));
            }
            i += 1;
        }
        assert(gv.take(self.goals@.len() as int) =~= gv);
        if found.len() == 1 {
            assert(found@[0]@ == found@.map_values(|s: String| s@)[0]);
            return Ok(ResolvedId { id: found[0].clone(), renamed_from: None });
        } else if found.len() > 1 {
            return Err(GoalError::AmbiguousPrefix(prefix.to_owned(), found.len()));
        }
        let ghost al = self@.aliases;
        let mut hits: Vec<(String, String)> = Vec::new();
        let mut i: usize = 0;
        while i < self.aliases.len()
            invariant
                al == self@.aliases,
                i <= self.aliases@.len(),
                hits@.len() <= i,
                pairs_view(hits@) == matching_aliases(al.take(i as int), prefix@),
            decreases self.aliases@.len() - i,
        {
            assert(al.take(i + 1).drop_last() =~= al.take(i as int));
            assert(al.take(i + 1).last() == (self.aliases@[i as int].0@, self.aliases@[i as int].1@));
            if matches_prefix_exec(self.aliases[i].0.as_str(), prefix) {
                let ghost before = pairs_view(hits@);
                hits.push((self.aliases[i].0.clone(), self.aliases[i].1.clone()));
                assert(pairs_view(hits@) =~= before.push(al[i as int]));
            }
            i += 1;
        }
        assert(al.take(self.aliases@.len() as int) =~= al);
        if hits.len() == 0 {
            Err(GoalError::NoMatch(prefix.to_owned()))
        } else if hits.len() == 1 {
            assert(pairs_view(hits@)[0] == (hits@[0].0@, hits@[0].1@));
            Ok(ResolvedId { id: hits[0].1.clone(), renamed_from: Some(hits[0].0.clone()) })
        } else {
            Err(GoalError::AmbiguousAlias(prefix.to_owned(), hits.len()))
        }
    }
}

pub open spec fn pair_view_of(p: (String, String)) -> PairView {
    (p.0@, p.1@)
}

} // verus!
