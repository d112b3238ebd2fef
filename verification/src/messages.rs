//! The text of each error, as the tracker reports it.
use vstd::prelude::*;
use crate::model::{GoalError, GoalErrorView};
use crate::text::{concat, push_char, str_eq};

verus! {

/// The digit character of `d` (`0 <= d < 10`).
pub open spec fn digit(d: nat) -> char {
    (d + 48) as char
}

/// The decimal text of `n`.
pub open spec fn decimal(n: nat) -> Seq<char>
    decreases n,
{
    if n < 10 {
        seq![digit(n)]
    } else {
        decimal(n / 10) + seq![digit(n % 10)]
    }
}

/// The decimal text of `n`.
pub fn decimal_string(n: usize) -> (s: String)
    ensures
        s@ == decimal(n as nat),
    decreases n,
{
    if n < 10 {
        let mut s = String::new();
        push_char(&mut s, ((n as u8) + 48) as char);
        assert(s@ =~= seq![digit(n as nat)]);
        s
    } else {
        let mut s = decimal_string(n / 10);
        push_char(&mut s, (((n % 10) as u8) + 48) as char);
        s
    }
}

fn join3(a: &str, b: &str, c: &str) -> (r: String)
    ensures
        r@ == a@ + b@ + c@,
{
    let ab = concat(a, b);
    concat(ab.as_str(), c)
}

fn join5(a: &str, b: &str, c: &str, d: &str, e: &str) -> (r: String)
    ensures
        r@ == a@ + b@ + c@ + d@ + e@,
{
    let abc = join3(a, b, c);
    join3(abc.as_str(), d, e)
}

/// The operations whose history entries name an edge.
pub open spec fn names_edge(op: Seq<char>) -> bool {
    op == "Prioritize"@ || op == "Deprioritize"@
}

/// The text of an error.
pub open spec fn error_text(e: GoalErrorView) -> Seq<char> {
    match e {
        GoalErrorView::NoGoal(id) => "no goal with id '"@ + id + "'"@,
        GoalErrorView::NoMatch(p) => "no goal matching '"@ + p + "'"@,
        GoalErrorView::AmbiguousPrefix(p, n) => "ambiguous prefix '"@ + p + "' matches "@ + decimal(n as nat) + " goals"@,
        GoalErrorView::AmbiguousAlias(p, n) => "ambiguous prefix '"@ + p + "' matches "@ + decimal(n as nat)
            + " goal aliases"@,
        GoalErrorView::ContinuousGoal(id) => "goal '"@ + id + "' is continuous and cannot be marked done"@,
        GoalErrorView::ReparentUnderDescendant => "cannot reparent a goal under one of its own descendants"@,
        GoalErrorView::SelfPriority => "cannot prioritize a goal over itself"@,
        GoalErrorView::EdgeExists(h, l) => "priority edge already exists: "@ + h + " > "@ + l + ""@,
        GoalErrorView::PriorityCycle => "adding this priority relation would create a cycle"@,
        GoalErrorView::NoEdge(h, l) => "no priority edge "@ + h + " > "@ + l + ""@,
        GoalErrorView::NothingToUndo => "nothing to undo"@,
        GoalErrorView::MissingNewId(op) => if names_edge(op) {
            "malformed "@ + op + " event"@
        } else {
            "malformed "@ + op + " event: missing new_id"@
        },
        GoalErrorView::EmptySnapshot => "malformed event: empty snapshot"@,
        GoalErrorView::MissingNote => "malformed event: missing note"@,
        GoalErrorView::MalformedSnapshot => "malformed event: unreadable snapshot"@,
        GoalErrorView::MalformedEdges => "malformed event: unreadable edge snapshot"@,
        GoalErrorView::MalformedEdgeId(s) => "malformed edge new_id: '"@ + s + "'"@,
        GoalErrorView::UnknownOp(op) => "unknown op '"@ + op + "'"@,
        GoalErrorView::NoAnnotation(id) => "no annotation with id '"@ + id + "'"@,
        GoalErrorView::NoAnnotationMatch(p) => "no annotation matching '"@ + p + "'"@,
        GoalErrorView::AmbiguousAnnotation(p, n) => "ambiguous annotation prefix '"@ + p + "' matches "@ + decimal(
            n as nat,
        ) + " annotations"@,
        GoalErrorView::DuplicateKey => "UNIQUE constraint failed"@,
        GoalErrorView::MissingReference => "FOREIGN KEY constraint failed"@,
    }
}

impl GoalError {
    /// The text of the error (see `error_text`).
    pub fn message(&self) -> (r: String)
        ensures
            r@ == error_text(self@),
    {
        match self {
            GoalError::NoGoal(id) => join3("no goal with id '", id.as_str(), "'"),
            GoalError::NoMatch(p) => join3("no goal matching '", p.as_str(), "'"),
            GoalError::AmbiguousPrefix(p, n) => {
                let count = decimal_string(*n);
                join5("ambiguous prefix '", p.as_str(), "' matches ", count.as_str(), " goals")
            },
            GoalError::AmbiguousAlias(p, n) => {
                let count = decimal_string(*n);
                join5("ambiguous prefix '", p.as_str(), "' matches ", count.as_str(), " goal aliases")
            },
            GoalError::ContinuousGoal(id) => join3("goal '", id.as_str(), "' is continuous and cannot be marked done"),
            GoalError::ReparentUnderDescendant => "cannot reparent a goal under one of its own descendants".to_string(),
            GoalError::SelfPriority => "cannot prioritize a goal over itself".to_string(),
            GoalError::EdgeExists(h, l) => join5("priority edge already exists: ", h.as_str(), " > ", l.as_str(), ""),
            GoalError::PriorityCycle => "adding this priority relation would create a cycle".to_string(),
            GoalError::NoEdge(h, l) => join5("no priority edge ", h.as_str(), " > ", l.as_str(), ""),
            GoalError::NothingToUndo => "nothing to undo".to_string(),
            GoalError::MissingNewId(op) => {
                if str_eq(op.as_str(), "Prioritize") || str_eq(op.as_str(), "Deprioritize") {
                    join3("malformed ", op.as_str(), " event")
                } else {
                    join3("malformed ", op.as_str(), " event: missing new_id")
                }
            },
            GoalError::EmptySnapshot => "malformed event: empty snapshot".to_string(),
            GoalError::MissingNote => "malformed event: missing note".to_string(),
            GoalError::MalformedSnapshot => "malformed event: unreadable snapshot".to_string(),
            GoalError::MalformedEdges => "malformed event: unreadable edge snapshot".to_string(),
            GoalError::MalformedEdgeId(s) => join3("malformed edge new_id: '", s.as_str(), "'"),
            GoalError::UnknownOp(op) => join3("unknown op '", op.as_str(), "'"),
            GoalError::NoAnnotation(id) => join3("no annotation with id '", id.as_str(), "'"),
            GoalError::NoAnnotationMatch(p) => join3("no annotation matching '", p.as_str(), "'"),
            GoalError::AmbiguousAnnotation(p, n) => {
                let count = decimal_string(*n);
                join5("ambiguous annotation prefix '", p.as_str(), "' matches ", count.as_str(), " annotations")
            },
            GoalError::DuplicateKey => "UNIQUE constraint failed".to_string(),
            GoalError::MissingReference => "FOREIGN KEY constraint failed".to_string(),
        }
    }
}

} // verus!
