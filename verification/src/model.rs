//! The records of the goal tracker and their mathematical views.
use vstd::prelude::*;

verus! {

/// Whether a goal can be achieved (and marked done) or is ongoing.
#[derive(Debug, Clone, Copy, PartialEq, Eq, Structural)]
pub enum GoalKind {
    Achievable,
    Continuous,
}

/// A goal: a node of the goal tree.
#[derive(Debug, Clone)]
pub struct Goal {
    pub id: String,
    pub parent_id: Option<String>,
    pub body: String,
    pub achieved: bool,
    pub kind: GoalKind,
}

/// A free-text note attached to a goal.
#[derive(Debug, Clone)]
pub struct Annotation {
    pub id: String,
    pub goal_id: String,
    pub body: String,
    pub created_at: String,
}

/// One line of the history shown by the log.
#[derive(Debug, Clone)]
pub struct Event {
    pub event_id: String,
    pub timestamp: String,
    pub op: String,
    pub goal_id: String,
    pub goal_body: String,
}

/// What a modification does to a goal's parent.
#[derive(Debug, Clone)]
pub enum ModifyParent {
    Keep,
    Detach,
    Reparent(String),
}

/// The priority edges that deleting a subtree removed, and the edges that it
/// added to keep the ordering of the remaining goals.
#[derive(Debug, Clone)]
pub struct EdgeSnapshot {
    pub removed: Vec<(String, String)>,
    pub added: Vec<(String, String)>,
}

/// The edge record kept with a history entry.
#[derive(Debug, Clone)]
pub enum EdgeRecord {
    Absent,
    Malformed,
    Present(EdgeSnapshot),
}

/// The goals, priority edges and id aliases, each table in row order.
#[derive(Debug, Clone)]
pub struct TableState {
    pub goals: Vec<Goal>,
    pub edges: Vec<(String, String)>,
    pub aliases: Vec<(String, String)>,
}

/// The goals, priority edges and id aliases just before and just after an
/// operation.
#[derive(Debug, Clone)]
pub struct TableChange {
    pub before: TableState,
    pub after: TableState,
}

/// One entry of the undo history: the operation, the goals as they were
/// before it (`None` where the stored record could not be read), the id
/// that the operation produced, if any, and, for a deletion or a
/// modification, the tables it changed as they were before and after it;
/// for a change to a note, the note as it was and its place among the notes.
#[derive(Debug, Clone)]
pub struct LogEntry {
    pub event_id: String,
    pub timestamp: String,
    pub op: String,
    pub snapshot: Option<Vec<Goal>>,
    pub new_id: Option<String>,
    pub snapshot_edges: EdgeRecord,
    pub change: Option<TableChange>,
    pub note: Option<(Annotation, usize)>,
}

/// The ways an operation of the tracker can fail.
#[derive(Debug, Clone)]
pub enum GoalError {
    /// No goal has this id.
    NoGoal(String),
    /// No goal id and no alias starts with this prefix.
    NoMatch(String),
    /// The prefix starts this many goal ids.
    AmbiguousPrefix(String, usize),
    /// The prefix starts this many renamed ids.
    AmbiguousAlias(String, usize),
    /// A continuous goal cannot be marked done or not done.
    ContinuousGoal(String),
    /// A goal cannot be moved under one of its own descendants.
    ReparentUnderDescendant,
    /// A goal cannot be ranked above itself.
    SelfPriority,
    /// This ranking already exists.
    EdgeExists(String, String),
    /// The ranking would make the priority order cyclic.
    PriorityCycle,
    /// This ranking does not exist.
    NoEdge(String, String),
    /// The history is empty.
    NothingToUndo,
    /// A history entry lacks the id of what it created.
    MissingNewId(String),
    /// A history entry holds no goal.
    EmptySnapshot,
    /// A history entry of a change to a note lacks the note.
    MissingNote,
    /// A history entry's goals could not be read.
    MalformedSnapshot,
    /// A history entry's edge record could not be read.
    MalformedEdges,
    /// A history entry names an edge without a `:` between its ends.
    MalformedEdgeId(String),
    /// A history entry has an operation that undo does not know.
    UnknownOp(String),
    /// No annotation has this id.
    NoAnnotation(String),
    /// No annotation id starts with this prefix.
    NoAnnotationMatch(String),
    /// The prefix starts this many annotation ids.
    AmbiguousAnnotation(String, usize),
    /// A row would repeat the key of an existing row.
    DuplicateKey,
    /// A row would refer to a goal that does not exist.
    MissingReference,
}

/// The mathematical value of an error.
pub enum GoalErrorView {
    NoGoal(Seq<char>),
    NoMatch(Seq<char>),
    AmbiguousPrefix(Seq<char>, usize),
    AmbiguousAlias(Seq<char>, usize),
    ContinuousGoal(Seq<char>),
    ReparentUnderDescendant,
    SelfPriority,
    EdgeExists(Seq<char>, Seq<char>),
    PriorityCycle,
    NoEdge(Seq<char>, Seq<char>),
    NothingToUndo,
    MissingNewId(Seq<char>),
    EmptySnapshot,
    MissingNote,
    MalformedSnapshot,
    MalformedEdges,
    MalformedEdgeId(Seq<char>),
    UnknownOp(Seq<char>),
    NoAnnotation(Seq<char>),
    NoAnnotationMatch(Seq<char>),
    AmbiguousAnnotation(Seq<char>, usize),
    DuplicateKey,
    MissingReference,
}

impl View for GoalError {
    type V = GoalErrorView;

    open spec fn view(&self) -> GoalErrorView {
        match self {
            GoalError::NoGoal(s) => GoalErrorView::NoGoal(s@),
            GoalError::NoMatch(s) => GoalErrorView::NoMatch(s@),
            GoalError::AmbiguousPrefix(s, n) => GoalErrorView::AmbiguousPrefix(s@, *n),
            GoalError::AmbiguousAlias(s, n) => GoalErrorView::AmbiguousAlias(s@, *n),
            GoalError::ContinuousGoal(s) => GoalErrorView::ContinuousGoal(s@),
            GoalError::ReparentUnderDescendant => GoalErrorView::ReparentUnderDescendant,
            GoalError::SelfPriority => GoalErrorView::SelfPriority,
            GoalError::EdgeExists(a, b) => GoalErrorView::EdgeExists(a@, b@),
            GoalError::PriorityCycle => GoalErrorView::PriorityCycle,
            GoalError::NoEdge(a, b) => GoalErrorView::NoEdge(a@, b@),
            GoalError::NothingToUndo => GoalErrorView::NothingToUndo,
            GoalError::MissingNewId(s) => GoalErrorView::MissingNewId(s@),
            GoalError::EmptySnapshot => GoalErrorView::EmptySnapshot,
            GoalError::MissingNote => GoalErrorView::MissingNote,
            GoalError::MalformedSnapshot => GoalErrorView::MalformedSnapshot,
            GoalError::MalformedEdges => GoalErrorView::MalformedEdges,
            GoalError::MalformedEdgeId(s) => GoalErrorView::MalformedEdgeId(s@),
            GoalError::UnknownOp(s) => GoalErrorView::UnknownOp(s@),
            GoalError::NoAnnotation(s) => GoalErrorView::NoAnnotation(s@),
            GoalError::NoAnnotationMatch(s) => GoalErrorView::NoAnnotationMatch(s@),
            GoalError::AmbiguousAnnotation(s, n) => GoalErrorView::AmbiguousAnnotation(s@, *n),
            GoalError::DuplicateKey => GoalErrorView::DuplicateKey,
            GoalError::MissingReference => GoalErrorView::MissingReference,
        }
    }
}

/// The mathematical value of a goal.
pub struct GoalView {
    pub id: Seq<char>,
    pub parent_id: Option<Seq<char>>,
    pub body: Seq<char>,
    pub achieved: bool,
    pub kind: GoalKind,
}

pub open spec fn opt_view(o: Option<String>) -> Option<Seq<char>> {
    match o {
        Some(s) => Some(s@),
        None => None,
    }
}

impl View for Goal {
    type V = GoalView;

    open spec fn view(&self) -> GoalView {
        GoalView {
            id: self.id@,
            parent_id: opt_view(self.parent_id),
            body: self.body@,
            achieved: self.achieved,
            kind: self.kind,
        }
    }
}

pub struct AnnotationView {
    pub id: Seq<char>,
    pub goal_id: Seq<char>,
    pub body: Seq<char>,
    pub created_at: Seq<char>,
}

impl View for Annotation {
    type V = AnnotationView;

    open spec fn view(&self) -> AnnotationView {
        AnnotationView {
            id: self.id@,
            goal_id: self.goal_id@,
            body: self.body@,
            created_at: self.created_at@,
        }
    }
}

pub struct EventView {
    pub event_id: Seq<char>,
    pub timestamp: Seq<char>,
    pub op: Seq<char>,
    pub goal_id: Seq<char>,
    pub goal_body: Seq<char>,
}

impl View for Event {
    type V = EventView;

    open spec fn view(&self) -> EventView {
        EventView {
            event_id: self.event_id@,
            timestamp: self.timestamp@,
            op: self.op@,
            goal_id: self.goal_id@,
            goal_body: self.goal_body@,
        }
    }
}

pub enum ModifyParentView {
    Keep,
    Detach,
    Reparent(Seq<char>),
}

impl View for ModifyParent {
    type V = ModifyParentView;

    open spec fn view(&self) -> ModifyParentView {
        match self {
            ModifyParent::Keep => ModifyParentView::Keep,
            ModifyParent::Detach => ModifyParentView::Detach,
            ModifyParent::Reparent(p) => ModifyParentView::Reparent(p@),
        }
    }
}

/// A pair of ids: a priority edge `(higher, lower)`, a tag `(goal, tag)` or an
/// alias `(old, new)`.
pub type PairView = (Seq<char>, Seq<char>);

pub open spec fn pair_view(p: (String, String)) -> PairView {
    (p.0@, p.1@)
}

pub open spec fn pairs_view(v: Seq<(String, String)>) -> Seq<PairView> {
    v.map_values(|p: (String, String)| pair_view(p))
}

pub open spec fn goals_view(v: Seq<Goal>) -> Seq<GoalView> {
    v.map_values(|g: Goal| g@)
}

pub struct EdgeSnapshotView {
    pub removed: Seq<PairView>,
    pub added: Seq<PairView>,
}

pub enum EdgeRecordView {
    Absent,
    Malformed,
    Present(EdgeSnapshotView),
}

impl View for EdgeRecord {
    type V = EdgeRecordView;

    open spec fn view(&self) -> EdgeRecordView {
        match self {
            EdgeRecord::Absent => EdgeRecordView::Absent,
            EdgeRecord::Malformed => EdgeRecordView::Malformed,
            EdgeRecord::Present(s) => EdgeRecordView::Present(
                EdgeSnapshotView { removed: pairs_view(s.removed@), added: pairs_view(s.added@) },
            ),
        }
    }
}

pub struct TableStateView {
    pub goals: Seq<GoalView>,
    pub edges: Seq<PairView>,
    pub aliases: Seq<PairView>,
}

impl View for TableState {
    type V = TableStateView;

    open spec fn view(&self) -> TableStateView {
        TableStateView { goals: goals_view(self.goals@), edges: pairs_view(self.edges@), aliases: pairs_view(self.aliases@) }
    }
}

pub struct TableChangeView {
    pub before: TableStateView,
    pub after: TableStateView,
}

impl View for TableChange {
    type V = TableChangeView;

    open spec fn view(&self) -> TableChangeView {
        TableChangeView { before: self.before@, after: self.after@ }
    }
}

pub struct LogEntryView {
    pub event_id: Seq<char>,
    pub timestamp: Seq<char>,
    pub op: Seq<char>,
    pub snapshot: Option<Seq<GoalView>>,
    pub new_id: Option<Seq<char>>,
    pub snapshot_edges: EdgeRecordView,
    pub change: Option<TableChangeView>,
    pub note: Option<(AnnotationView, nat)>,
}

impl View for LogEntry {
    type V = LogEntryView;

    open spec fn view(&self) -> LogEntryView {
        LogEntryView {
            event_id: self.event_id@,
            timestamp: self.timestamp@,
            op: self.op@,
            snapshot: match self.snapshot {
                Some(v) => Some(goals_view(v@)),
                None => None,
            },
            new_id: opt_view(self.new_id),
            snapshot_edges: self.snapshot_edges@,
            change: match self.change {
                Some(t) => Some(t@),
                None => None,
            },
            note: match self.note {
                Some(a) => Some((a.0@, a.1 as nat)),
                None => None,
            },
        }
    }
}

/// A copy of a goal with the same view.
pub fn copy_goal(g: &Goal) -> (r: Goal)
    ensures
        r@ == g@,
{
    Goal {
        id: g.id.clone(),
        parent_id: copy_opt(&g.parent_id),
        body: g.body.clone(),
        achieved: g.achieved,
        kind: g.kind,
    }
}

pub fn copy_opt(o: &Option<String>) -> (r: Option<String>)
    ensures
        opt_view(r) == opt_view(*o),
{
    match o {
        Some(s) => Some(s.clone()),
        None => None,
    }
}

pub fn copy_goals(v: &Vec<Goal>) -> (r: Vec<Goal>)
    ensures
        goals_view(r@) == goals_view(v@),
        r@.len() == v@.len(),
{
    let mut r: Vec<Goal> = Vec::new();
    let mut i: usize = 0;
    while i < v.len()
        invariant
            i <= v.len(),
            r@.len() == i,
            forall|k: int| 0 <= k < i ==> r@[k]@ == v@[k]@,
        decreases v.len() - i,
    {
        r.push(copy_goal(&v[i]));
        i += 1;
    }
    assert(goals_view(r@) =~= goals_view(v@));
    r
}

pub fn copy_pair(p: &(String, String)) -> (r: (String, String))
    ensures
        pair_view(r) == pair_view(*p),
{
    (p.0.clone(), p.1.clone())
}

pub fn copy_pairs(v: &Vec<(String, String)>) -> (r: Vec<(String, String)>)
    ensures
        pairs_view(r@) == pairs_view(v@),
        r@.len() == v@.len(),
{
    let mut r: Vec<(String, String)> = Vec::new();
    let mut i: usize = 0;
    while i < v.len()
        invariant
            i <= v.len(),
            r@.len() == i,
            forall|k: int| 0 <= k < i ==> pair_view(r@[k]) == pair_view(v@[k]),
        decreases v.len() - i,
    {
        r.push(copy_pair(&v[i]));
        i += 1;
    }
    assert(pairs_view(r@) =~= pairs_view(v@));
    r
}

} // verus!
