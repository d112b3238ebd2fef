//! The tracker's tables: goals, priority edges, id aliases, annotations, tags
//! and the undo history, with the queries on them.
//!
//! Each table keeps its rows in insertion order, which is the order of their
//! row ids.
use vstd::prelude::*;

pub mod delete;
pub mod modify;
pub mod ops;
pub mod report;
pub mod tree;
pub mod undo;


use crate::ids::{id_kind, kind_from_id};
use crate::model::{copy_goal, copy_goals, copy_opt, copy_pairs, goals_view, opt_view, pair_view, pairs_view, Annotation, AnnotationView, Goal, GoalError, GoalErrorView, GoalView, LogEntry, LogEntryView, PairView, TableChangeView, TableStateView};
use crate::sorting::{sort_positions, sorted_positions};
use crate::text::str_eq;

verus! {

pub struct Store {
    pub(crate) goals: Vec<Goal>,
    pub(crate) edges: Vec<(String, String)>,
    pub(crate) aliases: Vec<(String, String)>,
    pub(crate) annotations: Vec<Annotation>,
    pub(crate) tags: Vec<(String, String)>,
    pub(crate) events: Vec<LogEntry>,
    pub(crate) undone: Vec<LogEntry>,
}

/// The mathematical value of the tables.
pub struct StoreView {
    pub goals: Seq<GoalView>,
    pub edges: Seq<PairView>,
    pub aliases: Seq<PairView>,
    pub annotations: Seq<AnnotationView>,
    pub tags: Seq<PairView>,
    pub events: Seq<LogEntryView>,
    pub undone: Seq<LogEntryView>,
}

pub open spec fn annotations_view(v: Seq<Annotation>) -> Seq<AnnotationView> {
    v.map_values(|a: Annotation| a@)
}

pub open spec fn entries_view(v: Seq<LogEntry>) -> Seq<LogEntryView> {
    v.map_values(|e: LogEntry| e@)
}

impl View for Store {
    type V = StoreView;

    closed spec fn view(&self) -> StoreView {
        StoreView {
            goals: goals_view(self.goals@),
            edges: pairs_view(self.edges@),
            aliases: pairs_view(self.aliases@),
            annotations: annotations_view(self.annotations@),
            tags: pairs_view(self.tags@),
            events: entries_view(self.events@),
            undone: entries_view(self.undone@),
        }
    }
}

/// No two elements are equal.
pub open spec fn no_dups<T>(s: Seq<T>) -> bool {
    forall|i: int, j: int| 0 <= i < s.len() && 0 <= j < s.len() && i != j ==> s[i] != s[j]
}

pub open spec fn goal_id_seq(goals: Seq<GoalView>) -> Seq<Seq<char>> {
    goals.map_values(|g: GoalView| g.id)
}

pub open spec fn alias_olds(aliases: Seq<PairView>) -> Seq<Seq<char>> {
    aliases.map_values(|p: PairView| p.0)
}

pub open spec fn annotation_ids(anns: Seq<AnnotationView>) -> Seq<Seq<char>> {
    anns.map_values(|a: AnnotationView| a.id)
}

pub open spec fn event_ids(events: Seq<LogEntryView>) -> Seq<Seq<char>> {
    events.map_values(|e: LogEntryView| e.event_id)
}

/// The keys of every table are unique, and each goal's kind is the one its
/// id encodes.
pub open spec fn wf(v: StoreView) -> bool {
    &&& no_dups(goal_id_seq(v.goals))
    &&& forall|i: int| 0 <= i < v.goals.len() ==> (#[trigger] v.goals[i]).kind == id_kind(v.goals[i].id)
    &&& no_dups(v.edges)
    &&& no_dups(alias_olds(v.aliases))
    &&& no_dups(annotation_ids(v.annotations))
    &&& no_dups(v.tags)
    &&& no_dups(event_ids(v.events))
    &&& no_dups(event_ids(v.undone))
}

/// The goals, rankings and aliases of the tables, as a history entry keeps them.
pub open spec fn table_state(s: StoreView) -> TableStateView {
    TableStateView { goals: s.goals, edges: s.edges, aliases: s.aliases }
}

/// The goals, rankings and aliases before and after an operation.
pub open spec fn table_change(before: StoreView, after: StoreView) -> TableChangeView {
    TableChangeView { before: table_state(before), after: table_state(after) }
}

/// Some goal has this id.
pub open spec fn has_goal(goals: Seq<GoalView>, id: Seq<char>) -> bool {
    exists|i: int| 0 <= i < goals.len() && (#[trigger] goals[i]).id == id
}

/// The position of the goal with this id.
pub open spec fn goal_index(goals: Seq<GoalView>, id: Seq<char>) -> int {
    choose|i: int| 0 <= i < goals.len() && (#[trigger] goals[i]).id == id
}

/// The goal with this id.
pub open spec fn find_goal(goals: Seq<GoalView>, id: Seq<char>) -> Option<GoalView> {
    if has_goal(goals, id) {
        Some(goals[goal_index(goals, id)])
    } else {
        None
    }
}

/// The goals whose parent is `pid`, in table order.
pub open spec fn with_parent(goals: Seq<GoalView>, pid: Seq<char>) -> Seq<GoalView>
    decreases goals.len(),
{
    if goals.len() == 0 {
        Seq::empty()
    } else {
        let r = with_parent(goals.drop_last(), pid);
        if goals.last().parent_id == Some(pid) {
            r.push(goals.last())
        } else {
            r
        }
    }
}

pub open spec fn id_keys(s: Seq<GoalView>) -> Seq<PairView> {
    s.map_values(|g: GoalView| (g.id, Seq::<char>::empty()))
}

/// The goals ordered by id.
pub open spec fn sort_by_id(s: Seq<GoalView>) -> Seq<GoalView> {
    sorted_positions(id_keys(s), s.len() as int).map_values(|i: int| s[i])
}

/// The children of `pid`, ordered by id.
pub open spec fn children(goals: Seq<GoalView>, pid: Seq<char>) -> Seq<GoalView> {
    sort_by_id(with_parent(goals, pid))
}

/// The children of every goal of `level`, one goal after another.
pub open spec fn expand(goals: Seq<GoalView>, level: Seq<GoalView>) -> Seq<GoalView>
    decreases level.len(),
{
    if level.len() == 0 {
        Seq::empty()
    } else {
        expand(goals, level.drop_last()) + children(goals, level.last().id)
    }
}

/// The goals `k` levels below `root`, in breadth-first order.
pub open spec fn level(goals: Seq<GoalView>, root: GoalView, k: nat) -> Seq<GoalView>
    decreases k,
{
    if k == 0 {
        seq![root]
    } else {
        expand(goals, level(goals, root, (k - 1) as nat))
    }
}

/// Levels `0..k` one after another.
pub open spec fn levels(goals: Seq<GoalView>, root: GoalView, k: nat) -> Seq<GoalView>
    decreases k,
{
    if k == 0 {
        Seq::empty()
    } else {
        levels(goals, root, (k - 1) as nat) + level(goals, root, (k - 1) as nat)
    }
}

/// The subtree of `root` in breadth-first order, children by id: `root`,
/// then its children, then their children, and so on.
pub open spec fn subtree(goals: Seq<GoalView>, root: GoalView) -> Seq<GoalView> {
    levels(goals, root, goals.len() + 1)
}

/// The descent from `root` ends: no goal lies more levels below it than there
/// are goals (it fails only when parent links form a cycle).
pub open spec fn bounded(goals: Seq<GoalView>, root: GoalView) -> bool {
    level(goals, root, goals.len() + 1).len() == 0
}

/// The subtree of the goal with this id, if there is one.
pub open spec fn subtree_of(goals: Seq<GoalView>, id: Seq<char>) -> Option<Seq<GoalView>> {
    match find_goal(goals, id) {
        Some(root) => Some(subtree(goals, root)),
        None => None,
    }
}

/// The descent from the goal with this id ends (or there is no such goal).
pub open spec fn bounded_at(goals: Seq<GoalView>, id: Seq<char>) -> bool {
    match find_goal(goals, id) {
        Some(root) => bounded(goals, root),
        None => true,
    }
}

pub proof fn lemma_level_empty_after(goals: Seq<GoalView>, root: GoalView, k: nat, j: nat)
    requires
        level(goals, root, k).len() == 0,
        k <= j,
    ensures
        level(goals, root, j).len() == 0,
        levels(goals, root, j + 1) == levels(goals, root, k),
    decreases j - k,
{
    if j > k {
        lemma_level_empty_after(goals, root, k, (j - 1) as nat);
        assert(levels(goals, root, j + 1) =~= levels(goals, root, j));
    } else {
        assert(levels(goals, root, k + 1) =~= levels(goals, root, k));
    }
}

/// Level `j` is empty once level `k <= j` is.
pub proof fn lemma_bounded_levels(goals: Seq<GoalView>, root: GoalView, k: nat)
    requires
        bounded(goals, root),
        level(goals, root, k).len() > 0,
    ensures
        k < goals.len() + 1,
{
    if k >= goals.len() + 1 {
        lemma_level_empty_after(goals, root, (goals.len() + 1) as nat, k);
    }
}

pub proof fn lemma_find_goal(goals: Seq<GoalView>, i: int)
    requires
        no_dups(goal_id_seq(goals)),
        0 <= i < goals.len(),
    ensures
        has_goal(goals, goals[i].id),
        goal_index(goals, goals[i].id) == i,
        find_goal(goals, goals[i].id) == Some(goals[i]),
{
    assert(has_goal(goals, goals[i].id));
    let j = goal_index(goals, goals[i].id);
    if j != i {
        assert(goal_id_seq(goals)[i] == goal_id_seq(goals)[j]);
    }
}

/// Whether the strings are pairwise different.
pub fn distinct_strings(v: &Vec<String>) -> (r: bool)
    ensures
        r == no_dups(v@.map_values(|s: String| s@)),
{
    let ghost w = v@.map_values(|s: String| s@);
    let mut i: usize = 0;
    while i < v.len()
        invariant
            w == v@.map_values(|s: String| s@),
            i <= v@.len(),
            forall|a: int, b: int| 0 <= a < i && 0 <= b < v@.len() && a != b ==> w[a] != w[b],
        decreases v@.len() - i,
    {
        let mut j: usize = 0;
        while j < v.len()
            invariant
                w == v@.map_values(|s: String| s@),
                i < v@.len(),
                j <= v@.len(),
                forall|a: int, b: int| 0 <= a < i && 0 <= b < v@.len() && a != b ==> w[a] != w[b],
                forall|b: int| 0 <= b < j && b != i ==> w[i as int] != w[b],
            decreases v@.len() - j,
        {
            if j != i && str_eq(v[i].as_str(), v[j].as_str()) {
                assert(w[i as int] == w[j as int]);
                return false;
            }
            j += 1;
        }
        i += 1;
    }
    true
}

/// Whether the pairs are pairwise different.
pub fn distinct_pairs(v: &Vec<(String, String)>) -> (r: bool)
    ensures
        r == no_dups(pairs_view(v@)),
{
    let ghost w = pairs_view(v@);
    let mut i: usize = 0;
    while i < v.len()
        invariant
            w == pairs_view(v@),
            i <= v@.len(),
            forall|a: int, b: int| 0 <= a < i && 0 <= b < v@.len() && a != b ==> w[a] != w[b],
        decreases v@.len() - i,
    {
        let mut j: usize = 0;
        while j < v.len()
            invariant
                w == pairs_view(v@),
                i < v@.len(),
                j <= v@.len(),
                forall|a: int, b: int| 0 <= a < i && 0 <= b < v@.len() && a != b ==> w[a] != w[b],
                forall|b: int| 0 <= b < j && b != i ==> w[i as int] != w[b],
            decreases v@.len() - j,
        {
            if j != i && str_eq(v[i].0.as_str(), v[j].0.as_str()) && str_eq(v[i].1.as_str(), v[j].1.as_str()) {
                assert(w[i as int] == w[j as int]);
                return false;
            }
            j += 1;
        }
        assert forall|b: int| 0 <= b < v@.len() && b != i implies w[i as int] != w[b] by {}
        i += 1;
    }
    true
}

/// The keys of the rows are unique: goal ids, ranking pairs, old ids of
/// aliases, annotation ids, tag pairs, and history ids in each history table.
pub open spec fn keys_unique(
    goals: Seq<GoalView>,
    edges: Seq<PairView>,
    aliases: Seq<PairView>,
    annotations: Seq<AnnotationView>,
    tags: Seq<PairView>,
    events: Seq<LogEntryView>,
    undone: Seq<LogEntryView>,
) -> bool {
    &&& no_dups(goal_id_seq(goals))
    &&& no_dups(edges)
    &&& no_dups(alias_olds(aliases))
    &&& no_dups(annotation_ids(annotations))
    &&& no_dups(tags)
    &&& no_dups(event_ids(events))
    &&& no_dups(event_ids(undone))
}

impl Store {
    /// Empty tables.
    pub fn new() -> (s: Store)
        ensures
            wf(s@),
            s@.goals.len() == 0,
            s@.edges.len() == 0,
            s@.aliases.len() == 0,
            s@.annotations.len() == 0,
            s@.tags.len() == 0,
            s@.events.len() == 0,
            s@.undone.len() == 0,
    {
        Store {
            goals: Vec::new(),
            edges: Vec::new(),
            aliases: Vec::new(),
            annotations: Vec::new(),
            tags: Vec::new(),
            events: Vec::new(),
            undone: Vec::new(),
        }
    }

    /// Tables made of these rows, each in row-id order; a goal's kind is
    /// taken from its id. `None` where a key repeats.
    pub fn from_tables(
        goals: Vec<Goal>,
        edges: Vec<(String, String)>,
        aliases: Vec<(String, String)>,
        annotations: Vec<Annotation>,
        tags: Vec<(String, String)>,
        events: Vec<LogEntry>,
        undone: Vec<LogEntry>,
    ) -> (r: Option<Store>)
        ensures
            match r {
                Some(s) => {
                    &&& wf(s@)
                    &&& s@.goals.len() == goals@.len()
                    &&& forall|i: int| 0 <= i < goals@.len() ==> {
                        let g = (#[trigger] s@.goals[i]);
                        &&& g.id == goals@[i].id@
                        &&& g.parent_id == opt_view(goals@[i].parent_id)
                        &&& g.body == goals@[i].body@
                        &&& g.achieved == goals@[i].achieved
                    }
                    &&& s@.edges == pairs_view(edges@)
                    &&& s@.aliases == pairs_view(aliases@)
                    &&& s@.annotations == annotations_view(annotations@)
                    &&& s@.tags == pairs_view(tags@)
                    &&& s@.events == entries_view(events@)
                    &&& s@.undone == entries_view(undone@)
                },
                None => !keys_unique(goals_view(goals@), pairs_view(edges@), pairs_view(aliases@),
                    annotations_view(annotations@), pairs_view(tags@), entries_view(events@), entries_view(undone@)),
            },
    {
        let mut gs: Vec<Goal> = Vec::new();
        let mut i: usize = 0;
        while i < goals.len()
            invariant
                i <= goals@.len(),
                gs@.len() == i,
                forall|k: int| 0 <= k < i ==> {
                    let g = (#[trigger] gs@[k]);
                    &&& g.id@ == goals@[k].id@
                    &&& opt_view(g.parent_id) == opt_view(goals@[k].parent_id)
                    &&& g.body@ == goals@[k].body@
                    &&& g.achieved == goals@[k].achieved
                    &&& g.kind == id_kind(g.id@)
                },
            decreases goals@.len() - i,
        {
            let g = &goals[i];
            gs.push(Goal {
                id: g.id.clone(),
                parent_id: copy_opt(&g.parent_id),
                body: g.body.clone(),
                achieved: g.achieved,
                kind: kind_from_id(g.id.as_str()),
            });
            i += 1;
        }
        let mut ids: Vec<String> = Vec::new();
        let mut i: usize = 0;
        while i < gs.len()
            invariant
                i <= gs@.len(),
                ids@.len() == i,
                forall|k: int| 0 <= k < i ==> (#[trigger] ids@[k])@ == gs@[k].id@,
            decreases gs@.len() - i,
        {
            ids.push(gs[i].id.clone());
            i += 1;
        }
        assert(ids@.map_values(|s: String| s@) =~= goal_id_seq(goals_view(gs@)));
        assert(goal_id_seq(goals_view(gs@)) =~= goal_id_seq(goals_view(goals@)));
        if !distinct_strings(&ids) {
            return None;
        }
        if !distinct_pairs(&edges) || !distinct_pairs(&tags) {
            return None;
        }
        let mut olds: Vec<String> = Vec::new();
        let mut i: usize = 0;
        while i < aliases.len()
            invariant
                i <= aliases@.len(),
                olds@.len() == i,
                forall|k: int| 0 <= k < i ==> (#[trigger] olds@[k])@ == aliases@[k].0@,
            decreases aliases@.len() - i,
        {
            olds.push(aliases[i].0.clone());
            i += 1;
        }
        assert(olds@.map_values(|s: String| s@) =~= alias_olds(pairs_view(aliases@)));
        if !distinct_strings(&olds) {
            return None;
        }
        let mut aids: Vec<String> = Vec::new();
        let mut i: usize = 0;
        while i < annotations.len()
            invariant
                i <= annotations@.len(),
                aids@.len() == i,
                forall|k: int| 0 <= k < i ==> (#[trigger] aids@[k])@ == annotations@[k].id@,
            decreases annotations@.len() - i,
        {
            aids.push(annotations[i].id.clone());
            i += 1;
        }
        assert(aids@.map_values(|s: String| s@) =~= annotation_ids(annotations_view(annotations@)));
        if !distinct_strings(&aids) {
            return None;
        }
        let mut eids: Vec<String> = Vec::new();
        let mut i: usize = 0;
        while i < events.len()
            invariant
                i <= events@.len(),
                eids@.len() == i,
                forall|k: int| 0 <= k < i ==> (#[trigger] eids@[k])@ == events@[k].event_id@,
            decreases events@.len() - i,
        {
            eids.push(events[i].event_id.clone());
            i += 1;
        }
        assert(eids@.map_values(|s: String| s@) =~= event_ids(entries_view(events@)));
        if !distinct_strings(&eids) {
            return None;
        }
        let mut uids: Vec<String> = Vec::new();
        let mut i: usize = 0;
        while i < undone.len()
            invariant
                i <= undone@.len(),
                uids@.len() == i,
                forall|k: int| 0 <= k < i ==> (#[trigger] uids@[k])@ == undone@[k].event_id@,
            decreases undone@.len() - i,
        {
            uids.push(undone[i].event_id.clone());
            i += 1;
        }
        assert(uids@.map_values(|s: String| s@) =~= event_ids(entries_view(undone@)));
        if !distinct_strings(&uids) {
            return None;
        }
        let s = Store { goals: gs, edges, aliases, annotations, tags, events, undone };
        assert(forall|k: int| 0 <= k < s@.goals.len() ==> (#[trigger] s@.goals[k]) == s.goals@[k]@);
        Some(s)
    }

    /// The goals in row-id order.
    pub fn goals_table(&self) -> (r: &Vec<Goal>)
        ensures
            goals_view(r@) == self@.goals,
    {
        &self.goals
    }

    /// The id aliases in row-id order, as `(old, new)` pairs.
    pub fn aliases_table(&self) -> (r: &Vec<(String, String)>)
        ensures
            pairs_view(r@) == self@.aliases,
    {
        &self.aliases
    }

    /// The annotations in row-id order.
    pub fn annotations_table(&self) -> (r: &Vec<Annotation>)
        ensures
            annotations_view(r@) == self@.annotations,
    {
        &self.annotations
    }

    /// The tags in row-id order, as `(goal, tag)` pairs.
    pub fn tags_table(&self) -> (r: &Vec<(String, String)>)
        ensures
            pairs_view(r@) == self@.tags,
    {
        &self.tags
    }

    /// The history in row-id order.
    pub fn events_table(&self) -> (r: &Vec<LogEntry>)
        ensures
            entries_view(r@) == self@.events,
    {
        &self.events
    }

    /// The undone history entries in row-id order.
    pub fn undone_table(&self) -> (r: &Vec<LogEntry>)
        ensures
            entries_view(r@) == self@.undone,
    {
        &self.undone
    }

    /// The position of the goal with this id.
    pub(crate) fn goal_position(&self, id: &str) -> (r: Option<usize>)
        requires
            wf(self@),
        ensures
            match r {
                Some(i) => i < self@.goals.len() && has_goal(self@.goals, id@) && goal_index(self@.goals, id@) == i
                    && self@.goals[i as int].id == id@,
                None => !has_goal(self@.goals, id@),
            },
    {
        let ghost gv = self@.goals;
        let mut i: usize = 0;
        while i < self.goals.len()
            invariant
                gv == self@.goals,
                wf(self@),
                i <= self.goals@.len(),
                forall|k: int| 0 <= k < i ==> gv[k].id != id@,
            decreases self.goals@.len() - i,
        {
            assert(gv[i as int] == self.goals@[i as int]@);
            if str_eq(self.goals[i].id.as_str(), id) {
                proof {
                    lemma_find_goal(gv, i as int);
                }
                return Some(i);
            }
            i += 1;
        }
        None
    }

    /// The goal with this id.
    pub fn get_goal(&self, id: &str) -> (r: Result<Goal, GoalError>)
        requires
            wf(self@),
        ensures
            match r {
                Ok(g) => find_goal(self@.goals, id@) == Some(g@),
                Err(e) => find_goal(self@.goals, id@) is None && e@ == GoalErrorView::NoGoal(id@),
            },
    {
        match self.goal_position(id) {
            Some(i) => {
                assert(self@.goals[i as int] == self.goals@[i as int]@);
                Ok(copy_goal(&self.goals[i]))
            },
            None => Err(GoalError::NoGoal(id.to_owned())),
        }
    }

    /// The children of the goal `parent_id`, ordered by id.
    pub fn children_of(&self, parent_id: &str) -> (r: Vec<Goal>)
        ensures
            goals_view(r@) == children(self@.goals, parent_id@),
    {
        let ghost gv = self@.goals;
        let mut found: Vec<Goal> = Vec::new();
        let mut i: usize = 0;
        while i < self.goals.len()
            invariant
                gv == self@.goals,
                i <= self.goals@.len(),
                goals_view(found@) == with_parent(gv.take(i as int), parent_id@),
            decreases self.goals@.len() - i,
        {
            assert(gv.take(i + 1).drop_last() =~= gv.take(i as int));
            assert(gv.take(i + 1).last() == self.goals@[i as int]@);
            let g = &self.goals[i];
            let is_child = match &g.parent_id {
                Some(p) => str_eq(p.as_str(), parent_id),
                None => false,
            };
            if is_child {
                found.push(copy_goal(g));
                assert(goals_view(found@) =~= with_parent(gv.take(i as int), parent_id@).push(g@));
            }
            i += 1;
        }
        assert(gv.take(self.goals@.len() as int) =~= gv);
        sort_goals_by_id(&found)
    }

    /// Whether the descent from the goal `root_id` ends (see `bounded`).
    pub fn subtree_is_bounded(&self, root_id: &str) -> (r: bool)
        requires
            wf(self@),
        ensures
            r == bounded_at(self@.goals, root_id@),
    {
        let ghost gv = self@.goals;
        match self.goal_position(root_id) {
            None => true,
            Some(ri) => {
                let ghost root = gv[ri as int];
                assert(root == self.goals@[ri as int]@);
                let mut current: Vec<Goal> = Vec::new();
                current.push(copy_goal(&self.goals[ri]));
                assert(goals_view(current@) =~= level(gv, root, 0));
                let n = self.goals.len();
                let mut k: usize = 0;
                assert(find_goal(gv, root_id@) == Some(root));
                while k < n
                    invariant
                        gv == self@.goals,
                        find_goal(gv, root_id@) == Some(root),
                        n == gv.len(),
                        k <= n,
                        goals_view(current@) == level(gv, root, k as nat),
                    decreases n - k,
                {
                    if current.len() == 0 {
                        proof {
                            lemma_level_empty_after(gv, root, k as nat, (n + 1) as nat);
                            assert(find_goal(gv, root_id@) == Some(root));
                            assert(bounded(gv, root));
                        }
                        return true;
                    }
                    current = self.expand_level(&current);
                    k += 1;
                }
                current = self.expand_level(&current);
                assert(goals_view(current@) == level(gv, root, (n + 1) as nat));
                current.len() == 0
            },
        }
    }

    /// The children of each goal of `level`, one goal after another.
    fn expand_level(&self, lv: &Vec<Goal>) -> (r: Vec<Goal>)
        ensures
            goals_view(r@) == expand(self@.goals, goals_view(lv@)),
    {
        let ghost l = goals_view(lv@);
        let mut next: Vec<Goal> = Vec::new();
        let mut j: usize = 0;
        while j < lv.len()
            invariant
                l == goals_view(lv@),
                j <= lv@.len(),
                goals_view(next@) == expand(self@.goals, l.take(j as int)),
            decreases lv@.len() - j,
        {
            assert(l.take(j + 1).drop_last() =~= l.take(j as int));
            assert(l.take(j + 1).last() == lv@[j as int]@);
            let kids = self.children_of(lv[j].id.as_str());
            let ghost before = goals_view(next@);
            let mut t: usize = 0;
            while t < kids.len()
                invariant
                    j < lv@.len(),
                    t <= kids@.len(),
                    goals_view(next@) == before + goals_view(kids@).take(t as int),
                decreases kids@.len() - t,
            {
                let ghost old_next = goals_view(next@);
                let c = copy_goal(&kids[t]);
                next.push(c);
                assert(goals_view(next@) =~= old_next.push(kids@[t as int]@));
                assert(goals_view(kids@).take(t + 1) =~= goals_view(kids@).take(t as int).push(kids@[t as int]@));
                assert(goals_view(next@) =~= before + goals_view(kids@).take(t + 1));
                t += 1;
            }
            assert(goals_view(kids@).take(kids@.len() as int) =~= goals_view(kids@));
            j += 1;
        }
        assert(l.take(lv@.len() as int) =~= l);
        next
    }

    /// The subtree of the goal `root_id` in breadth-first order, children by id.
    pub fn collect_subtree(&self, root_id: &str) -> (r: Result<Vec<Goal>, GoalError>)
        requires
            wf(self@),
            bounded_at(self@.goals, root_id@),
        ensures
            match r {
                Ok(v) => subtree_of(self@.goals, root_id@) == Some(goals_view(v@)),
                Err(e) => subtree_of(self@.goals, root_id@) is None && e@ == GoalErrorView::NoGoal(root_id@),
            },
    {
        let ghost gv = self@.goals;
        match self.goal_position(root_id) {
            None => Err(GoalError::NoGoal(root_id.to_owned())),
            Some(ri) => {
                let ghost root = gv[ri as int];
                assert(root == self.goals@[ri as int]@);
                let mut current: Vec<Goal> = Vec::new();
                current.push(copy_goal(&self.goals[ri]));
                assert(goals_view(current@) =~= level(gv, root, 0));
                let mut result = copy_goals(&current);
                assert(levels(gv, root, 1) == levels(gv, root, 0) + level(gv, root, 0));
                assert(goals_view(result@) =~= levels(gv, root, 1));
                let ghost mut k: nat = 0;
                while current.len() > 0
                    invariant
                        gv == self@.goals,
                        k <= gv.len() + 1,
                        bounded(gv, root),
                        goals_view(current@) == level(gv, root, k),
                        goals_view(result@) == levels(gv, root, k + 1),
                    decreases gv.len() + 1 - k,
                {
                    proof {
                        lemma_bounded_levels(gv, root, k);
                    }
                    current = self.expand_level(&current);
                    let ghost before = goals_view(result@);
                    let mut t: usize = 0;
                    while t < current.len()
                        invariant
                            t <= current@.len(),
                            goals_view(result@) == before + goals_view(current@).take(t as int),
                        decreases current@.len() - t,
                    {
                        let ghost old_res = goals_view(result@);
                        let c = copy_goal(&current[t]);
                        result.push(c);
                        assert(goals_view(result@) =~= old_res.push(current@[t as int]@));
                        assert(goals_view(current@).take(t + 1) =~= goals_view(current@).take(t as int).push(current@[t as int]@));
                        assert(goals_view(result@) =~= before + goals_view(current@).take(t + 1));
                        t += 1;
                    }
                    assert(goals_view(current@).take(current@.len() as int) =~= goals_view(current@));
                    proof {
                        assert(levels(gv, root, k + 2) == levels(gv, root, k + 1) + level(gv, root, k + 1));
                        k = k + 1;
                    }
                }
                proof {
                    if k <= gv.len() {
                        lemma_level_empty_after(gv, root, k, gv.len());
                        assert(levels(gv, root, k + 1) == levels(gv, root, k) + level(gv, root, k));
                        assert(levels(gv, root, k + 1) =~= levels(gv, root, k));
                    } else {
                        assert(levels(gv, root, k + 1) == levels(gv, root, k) + level(gv, root, k));
                        assert(levels(gv, root, k + 1) =~= levels(gv, root, k));
                    }
                }
                Ok(result)
            },
        }
    }

    /// All goals, ordered by id.
    pub fn all_goals(&self) -> (r: Vec<Goal>)
        ensures
            goals_view(r@) == sort_by_id(self@.goals),
    {
        sort_goals_by_id(&self.goals)
    }

    /// Every goal's id with a number that orders goals as their row ids do.
    pub fn goal_rowids(&self) -> (r: Vec<(String, i64)>)
        requires
            self@.goals.len() < i64::MAX,
        ensures
            r@.len() == self@.goals.len(),
            forall|i: int| 0 <= i < r@.len() ==> (#[trigger] r@[i]).0@ == self@.goals[i].id && r@[i].1 == i + 1,
    {
        let mut r: Vec<(String, i64)> = Vec::new();
        let mut i: usize = 0;
        while i < self.goals.len()
            invariant
                self.goals@.len() < i64::MAX,
                i <= self.goals@.len(),
                r@.len() == i,
                forall|k: int| 0 <= k < i ==> (#[trigger] r@[k]).0@ == self@.goals[k].id && r@[k].1 == k + 1,
            decreases self.goals@.len() - i,
        {
            assert(self@.goals[i as int] == self.goals@[i as int]@);
            r.push((self.goals[i].id.clone(), (i + 1) as i64));
            i += 1;
        }
        r
    }

    /// All priority edges as `(higher, lower)` pairs, in row-id order.
    pub fn all_priority_edges(&self) -> (r: Vec<(String, String)>)
        ensures
            pairs_view(r@) == self@.edges,
    {
        copy_pairs(&self.edges)
    }
}

/// The goals ordered by id, equal ids keeping their order.
pub fn sort_goals_by_id(v: &Vec<Goal>) -> (r: Vec<Goal>)
    ensures
        goals_view(r@) == sort_by_id(goals_view(v@)),
{
    let ghost gv = goals_view(v@);
    let mut keys: Vec<(String, String)> = Vec::new();
    let mut i: usize = 0;
    while i < v.len()
        invariant
            gv == goals_view(v@),
            i <= v@.len(),
            keys@.len() == i,
            forall|k: int| 0 <= k < i ==> pair_view(#[trigger] keys@[k]) == (gv[k].id, Seq::<char>::empty()),
        decreases v@.len() - i,
    {
        keys.push((v[i].id.clone(), String::new()));
        i += 1;
    }
    assert(pairs_view(keys@) =~= id_keys(gv));
    let pos = sort_positions(&keys);
    let ghost ps = pos@.map_values(|x: usize| x as int);
    let mut r: Vec<Goal> = Vec::new();
    let mut j: usize = 0;
    while j < pos.len()
        invariant
            gv == goals_view(v@),
            ps == pos@.map_values(|x: usize| x as int),
            pos@.len() == v@.len(),
            forall|k: int| 0 <= k < pos@.len() ==> pos@[k] < v@.len(),
            j <= pos@.len(),
            r@.len() == j,
            forall|k: int| 0 <= k < j ==> (#[trigger] r@[k])@ == gv[ps[k]],
        decreases pos@.len() - j,
    {
        r.push(copy_goal(&v[pos[j]]));
        j += 1;
    }
    assert(goals_view(r@) =~= ps.map_values(|i: int| gv[i]));
    r
}

} // verus!
