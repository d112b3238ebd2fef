//! The text that the tracker prints: the goal tree and the history log.
use vstd::prelude::*;
use crate::model::{goals_view, pairs_view, Event, EventView, Goal, GoalKind, GoalView, PairView};
use crate::priority::{compute_priority_order, distinct, goal_ids, priority_order, priority_positions, rowids_view, views};
use crate::store::goal_id_seq;
use crate::text::{push_char, str_eq};

verus! {

/// The goals whose parent is `p` (`None`: the roots), in their order.
pub open spec fn under(goals: Seq<GoalView>, p: Option<Seq<char>>) -> Seq<GoalView>
    decreases goals.len(),
{
    if goals.len() == 0 {
        Seq::empty()
    } else {
        let r = under(goals.drop_last(), p);
        if goals.last().parent_id == p {
            r.push(goals.last())
        } else {
            r
        }
    }
}

/// `[x]` for an achieved goal, `[ ]` for a pending one, `[~]` for a
/// continuous one.
pub open spec fn marker(g: GoalView) -> Seq<char> {
    match g.kind {
        GoalKind::Achievable => if g.achieved {
            seq!['[', 'x', ']']
        } else {
            seq!['[', ' ', ']']
        },
        GoalKind::Continuous => seq!['[', '~', ']'],
    }
}

/// Four spaces per level.
pub open spec fn indent(depth: nat) -> Seq<char>
    decreases depth,
{
    if depth == 0 {
        Seq::empty()
    } else {
        indent((depth - 1) as nat) + seq![' ', ' ', ' ', ' ']
    }
}

pub open spec fn two_spaces() -> Seq<char> {
    seq![' ', ' ']
}

/// The line of a goal at a depth: indent, marker, id and body.
pub open spec fn node_line(g: GoalView, depth: nat) -> Seq<char> {
    indent(depth) + marker(g) + two_spaces() + g.id + two_spaces() + g.body + seq!['\n']
}

/// The lines of the goals under `p`, in their order, each followed by the
/// lines of its own children one level deeper, down to `fuel` levels.
pub open spec fn tree_text(goals: Seq<GoalView>, p: Option<Seq<char>>, depth: nat, fuel: nat) -> Seq<char>
    decreases fuel, 0nat,
{
    if fuel == 0 {
        Seq::empty()
    } else {
        nodes_text(goals, under(goals, p), depth, (fuel - 1) as nat)
    }
}

/// The lines of the goals of `cs` at `depth`, each followed by its subtree.
/// A pending goal is always printed; an achieved goal only where something
/// below it is printed (as the context of a pending descendant).
pub open spec fn nodes_text(goals: Seq<GoalView>, cs: Seq<GoalView>, depth: nat, fuel: nat) -> Seq<char>
    decreases fuel, cs.len(),
{
    if cs.len() == 0 {
        Seq::empty()
    } else {
        let g = cs.last();
        let below = tree_text(goals, Some(g.id), depth + 1, fuel);
        nodes_text(goals, cs.drop_last(), depth, fuel) + if !g.achieved || below.len() > 0 {
            node_line(g, depth) + below
        } else {
            Seq::empty()
        }
    }
}

/// The goals in priority order (see `priority_order`).
pub open spec fn in_priority_order(goals: Seq<GoalView>, e: Seq<PairView>, r: Seq<(Seq<char>, i64)>) -> Seq<GoalView> {
    priority_positions(goal_id_seq(goals), e, r).map_values(|i: int| goals[i])
}

/// The goal ids are distinct.
pub open spec fn distinct_ids(goals: Seq<GoalView>) -> bool {
    forall|i: int, j: int| 0 <= i < goals.len() && 0 <= j < goals.len() && i != j ==> goals[i].id != goals[j].id
}

fn push_str(out: &mut String, s: &str)
    ensures
        final(out)@ == old(out)@ + s@,
{
    out.append(s);
}

fn push_two_spaces(out: &mut String)
    ensures
        final(out)@ == old(out)@ + two_spaces(),
{
    push_char(out, ' ');
    push_char(out, ' ');
    assert(out@ =~= old(out)@ + two_spaces());
}

fn same_parent(p: &Option<String>, q: Option<&str>) -> (r: bool)
    ensures
        r == (crate::model::opt_view(*p) == match q {
            Some(s) => Some(s@),
            None => None::<Seq<char>>,
        }),
{
    match (p, q) {
        (Some(a), Some(b)) => str_eq(a.as_str(), b),
        (None, None) => true,
        _ => false,
    }
}

/// The goals under `p`, in their order.
fn goals_under(goals: &Vec<Goal>, p: Option<&str>) -> (r: Vec<Goal>)
    ensures
        goals_view(r@) == under(goals_view(goals@), match p {
            Some(s) => Some(s@),
            None => None,
        }),
{
    let ghost pv: Option<Seq<char>> = match p {
        Some(s) => Some(s@),
        None => None,
    };
    let ghost gv = goals_view(goals@);
    let mut r: Vec<Goal> = Vec::new();
    let mut i: usize = 0;
    while i < goals.len()
        invariant
            gv == goals_view(goals@),
            pv == match p {
                Some(s) => Some(s@),
                None => None::<Seq<char>>,
            },
            i <= goals@.len(),
            goals_view(r@) == under(gv.take(i as int), pv),
        decreases goals@.len() - i,
    {
        assert(gv.take(i + 1).drop_last() =~= gv.take(i as int));
        assert(gv.take(i + 1).last() == goals@[i as int]@);
        if same_parent(&goals[i].parent_id, p) {
            r.push(crate::model::copy_goal(&goals[i]));
            assert(goals_view(r@) =~= under(gv.take(i as int), pv).push(goals@[i as int]@));
        }
        i += 1;
    }
    assert(gv.take(goals@.len() as int) =~= gv);
    r
}

fn push_line(out: &mut String, g: &Goal, depth: usize)
    ensures
        final(out)@ == old(out)@ + node_line(g@, depth as nat),
{
    let mut d: usize = 0;
    while d < depth
        invariant
            d <= depth,
            out@ == old(out)@ + indent(d as nat),
        decreases depth - d,
    {
        let ghost before = out@;
        push_char(out, ' ');
        push_char(out, ' ');
        push_char(out, ' ');
        push_char(out, ' ');
        assert(out@ =~= old(out)@ + indent((d + 1) as nat));
        d += 1;
    }
    let ghost a = out@;
    push_char(out, '[');
    match g.kind {
        GoalKind::Achievable => {
            if g.achieved {
                push_char(out, 'x');
            } else {
                push_char(out, ' ');
            }
        },
        GoalKind::Continuous => {
            push_char(out, '~');
        },
    }
    push_char(out, ']');
    assert(out@ =~= a + marker(g@));
    push_two_spaces(out);
    push_str(out, g.id.as_str());
    push_two_spaces(out);
    push_str(out, g.body.as_str());
    push_char(out, '\n');
    assert(out@ =~= old(out)@ + node_line(g@, depth as nat));
}

/// Appends the lines of the goals under `p` (see `tree_text`).
fn print_node(goals: &Vec<Goal>, p: Option<&str>, depth: usize, fuel: usize, out: &mut String)
    requires
        depth + fuel <= usize::MAX,
    ensures
        final(out)@ == old(out)@ + tree_text(goals_view(goals@), match p {
            Some(s) => Some(s@),
            None => None,
        }, depth as nat, fuel as nat),
    decreases fuel, 0nat,
{
    if fuel == 0 {
        assert(out@ =~= old(out)@ + Seq::<char>::empty());
        return;
    }
    let cs = goals_under(goals, p);
    print_nodes(goals, &cs, depth, fuel - 1, out);
}

/// Appends the lines of the goals of `cs`, each with its subtree (see
/// `nodes_text`).
fn print_nodes(goals: &Vec<Goal>, cs: &Vec<Goal>, depth: usize, fuel: usize, out: &mut String)
    requires
        depth + fuel < usize::MAX,
    ensures
        final(out)@ == old(out)@ + nodes_text(goals_view(goals@), goals_view(cs@), depth as nat, fuel as nat),
    decreases fuel, cs@.len(),
{
    let ghost gv = goals_view(goals@);
    let ghost cv = goals_view(cs@);
    let mut i: usize = 0;
    while i < cs.len()
        invariant
            gv == goals_view(goals@),
            cv == goals_view(cs@),
            depth + fuel < usize::MAX,
            i <= cs@.len(),
            out@ == old(out)@ + nodes_text(gv, cv.take(i as int), depth as nat, fuel as nat),
        decreases cs@.len() - i,
    {
        assert(cv.take(i + 1).drop_last() =~= cv.take(i as int));
        assert(cv.take(i + 1).last() == cs@[i as int]@);
        let mut below = String::new();
        print_node(goals, Some(cs[i].id.as_str()), depth + 1, fuel, &mut below);
        assert(below@ =~= tree_text(gv, Some(cs@[i as int].id@), (depth + 1) as nat, fuel as nat));
        let ghost before = out@;
        if !cs[i].achieved || below.unicode_len() > 0 {
            push_line(out, &cs[i], depth);
            push_str(out, below.as_str());
        }
        assert(out@ =~= old(out)@ + nodes_text(gv, cv.take(i + 1), depth as nat, fuel as nat));
        i += 1;
    }
    assert(cv.take(cs@.len() as int) =~= cv);
}

/// The position of the goal whose id is `id`.
fn position_of_id(goals: &[Goal], id: &str) -> (r: Option<usize>)
    ensures
        match r {
            Some(j) => j < goals@.len() && goals@[j as int].id@ == id@,
            None => forall|x: int| 0 <= x < goals@.len() ==> goals@[x].id@ != id@,
        },
{
    let mut j: usize = 0;
    while j < goals.len()
        invariant
            j <= goals@.len(),
            forall|x: int| 0 <= x < j ==> goals@[x].id@ != id@,
        decreases goals@.len() - j,
    {
        if str_eq(goals[j].id.as_str(), id) {
            return Some(j);
        }
        j += 1;
    }
    None
}

/// The goal tree as listed: the goals in priority order (see
/// `compute_priority_order`), the roots first, each followed by its children
/// one level deeper, so that the children of one goal come in priority order.
/// Pending goals are listed; an achieved goal only as the context of a
/// pending descendant. Every line ends in a newline.
pub fn print_tree(goals: &[Goal], edges: &[(String, String)], rowids: &[(String, i64)]) -> (r: String)
    requires
        distinct(goal_ids(goals@)),
    ensures
        r@ == tree_text(in_priority_order(goals_view(goals@), pairs_view(edges@), rowids_view(rowids@)), None, 0, goals@.len()),
{
    let ghost gv = goals_view(goals@);
    let ghost pos = priority_positions(goal_id_seq(gv), pairs_view(edges@), rowids_view(rowids@));
    assert(goal_ids(goals@) =~= goal_id_seq(gv));
    let order = compute_priority_order(goals, edges, rowids);
    proof {
        crate::priority_facts::lemma_positions_permutation(goal_id_seq(gv), pairs_view(edges@), rowids_view(rowids@));
        assert(priority_order(goal_id_seq(gv), pairs_view(edges@), rowids_view(rowids@)).len() == pos.len());
        assert forall|j: int| 0 <= j < pos.len() implies (#[trigger] order@[j])@ == gv[pos[j]].id by {
            assert(views(order@)[j] == order@[j]@);
        }
    }
    let mut v: Vec<Goal> = Vec::new();
    let mut k: usize = 0;
    while k < order.len()
        invariant
            gv == goals_view(goals@),
            distinct(goal_id_seq(gv)),
            pos.len() == order@.len(),
            forall|j: int| 0 <= j < pos.len() ==> 0 <= #[trigger] pos[j] < gv.len(),
            forall|j: int| 0 <= j < pos.len() ==> (#[trigger] order@[j])@ == gv[pos[j]].id,
            k <= order@.len(),
            goals_view(v@) == pos.take(k as int).map_values(|i: int| gv[i]),
        decreases order@.len() - k,
    {
        let ghost want = pos[k as int];
        assert(order@[k as int]@ == gv[want].id);
        let j = match position_of_id(goals, order[k].as_str()) {
            Some(j) => j,
            None => {
                // Not reached: every id of the order is the id of a goal.
                assert(goal_id_seq(gv)[want] == gv[want].id);
                0
            },
        };
        assert(j as int == want) by {
            assert(goal_id_seq(gv)[j as int] == gv[j as int].id);
            assert(goal_id_seq(gv)[want] == gv[want].id);
        }
        let ghost before = goals_view(v@);
        v.push(crate::model::copy_goal(&goals[j]));
        proof {
            let t = pos.take(k as int);
            assert(pos.take(k + 1) =~= t.push(want));
            assert(t.push(want).map_values(|i: int| gv[i]) =~= t.map_values(|i: int| gv[i]).push(gv[want]));
            assert(goals[j as int]@ == gv[want]);
            assert(goals_view(v@) =~= before.push(gv[want]));
        }
        k += 1;
    }
    assert(pos.take(order@.len() as int) =~= pos);
    assert(goals_view(v@) =~= in_priority_order(gv, pairs_view(edges@), rowids_view(rowids@)));
    let mut out = String::new();
    print_node(&v, None, 0, goals.len(), &mut out);
    assert(out@ =~= Seq::<char>::empty() + tree_text(goals_view(v@), None, 0, goals@.len()));
    out
}

/// `s` followed by spaces up to `width` characters.
pub open spec fn pad_right(s: Seq<char>, width: nat) -> Seq<char> {
    if s.len() >= width {
        s
    } else {
        s + Seq::new((width - s.len()) as nat, |i: int| ' ')
    }
}

/// The log line of an event: id, time, the operation padded to eight
/// characters, goal id and quoted body.
pub open spec fn log_line(e: EventView) -> Seq<char> {
    e.event_id + two_spaces() + e.timestamp + two_spaces() + pad_right(e.op, 8) + two_spaces() + e.goal_id
        + two_spaces() + seq!['"'] + e.goal_body + seq!['"', '\n']
}

pub open spec fn log_text(events: Seq<EventView>) -> Seq<char>
    decreases events.len(),
{
    if events.len() == 0 {
        Seq::empty()
    } else {
        log_text(events.drop_last()) + log_line(events.last())
    }
}

/// The log as printed: one line per event.
pub fn print_log(events: &[Event]) -> (r: String)
    ensures
        r@ == log_text(events@.map_values(|e: Event| e@)),
{
    let ghost ev = events@.map_values(|e: Event| e@);
    let mut out = String::new();
    let mut i: usize = 0;
    while i < events.len()
        invariant
            ev == events@.map_values(|e: Event| e@),
            i <= events@.len(),
            out@ == log_text(ev.take(i as int)),
        decreases events@.len() - i,
    {
        assert(ev.take(i + 1).drop_last() =~= ev.take(i as int));
        assert(ev.take(i + 1).last() == events@[i as int]@);
        let e = &events[i];
        let ghost before = out@;
        push_str(&mut out, e.event_id.as_str());
        push_two_spaces(&mut out);
        push_str(&mut out, e.timestamp.as_str());
        push_two_spaces(&mut out);
        push_str(&mut out, e.op.as_str());
        let n = e.op.unicode_len();
        let mut k: usize = n;
        while k < 8
            invariant
                n == e.op@.len(),
                n <= k <= 8 || (k == n && n >= 8),
                out@ == before + e.event_id@ + two_spaces() + e.timestamp@ + two_spaces() + e.op@ + Seq::new(
                    (k - n) as nat,
                    |j: int| ' ',
                ),
            decreases 8 - k,
        {
            push_char(&mut out, ' ');
            assert(Seq::new((k + 1 - n) as nat, |j: int| ' ') =~= Seq::new((k - n) as nat, |j: int| ' ').push(' '));
            k += 1;
        }
        assert(e.op@ + Seq::new((k - n) as nat, |j: int| ' ') =~= pad_right(e.op@, 8));
        push_two_spaces(&mut out);
        push_str(&mut out, e.goal_id.as_str());
        push_two_spaces(&mut out);
        push_char(&mut out, '"');
        push_str(&mut out, e.goal_body.as_str());
        push_char(&mut out, '"');
        push_char(&mut out, '\n');
        assert(out@ =~= before + log_line(events@[i as int]@));
        i += 1;
    }
    assert(ev.take(events@.len() as int) =~= ev);
    out
}

/// `c` is a line of descent below `p`: its first goal is a child of `p`, and
/// each next goal a child of the one before.
#[verifier::opaque]
pub open spec fn descent(goals: Seq<GoalView>, p: Option<Seq<char>>, c: Seq<GoalView>) -> bool {
    &&& forall|k: int| 0 <= k < c.len() ==> goals.contains(#[trigger] c[k])
    &&& c.len() > 0 ==> c[0].parent_id == p
    &&& forall|k: int| 0 < k < c.len() ==> (#[trigger] c[k]).parent_id == Some(c[k - 1].id)
}

/// Some line of descent below `p` is `k` goals long.
pub open spec fn deep(goals: Seq<GoalView>, p: Option<Seq<char>>, k: nat) -> bool {
    exists|c: Seq<GoalView>| c.len() == k && #[trigger] descent(goals, p, c)
}

proof fn lemma_under_members(goals: Seq<GoalView>, p: Option<Seq<char>>)
    ensures
        forall|g: GoalView| #[trigger] under(goals, p).contains(g) <==> goals.contains(g) && g.parent_id == p,
    decreases goals.len(),
{
    if goals.len() > 0 {
        let t = goals.drop_last();
        let x = goals.last();
        lemma_under_members(t, p);
        let r = under(t, p);
        let w = under(goals, p);
        assert(w == if x.parent_id == p { r.push(x) } else { r });
        assert forall|g: GoalView| w.contains(g) <==> goals.contains(g) && g.parent_id == p by {
            if w.contains(g) {
                let k = choose|k: int| 0 <= k < w.len() && w[k] == g;
                if k < r.len() {
                    assert(r[k] == g);
                    assert(r.contains(g));
                    assert(t.contains(g));
                    let j = choose|j: int| 0 <= j < t.len() && t[j] == g;
                    assert(goals[j] == t[j]);
                } else {
                    assert(goals[goals.len() - 1] == x);
                }
            }
            if goals.contains(g) && g.parent_id == p {
                let j = choose|j: int| 0 <= j < goals.len() && goals[j] == g;
                if j < t.len() {
                    assert(t[j] == g);
                    assert(t.contains(g));
                    assert(r.contains(g));
                    let k = choose|k: int| 0 <= k < r.len() && r[k] == g;
                    if x.parent_id == p {
                        assert(r.push(x)[k] == g);
                    }
                } else {
                    assert(g == x);
                    assert(r.push(x)[r.len() as int] == g);
                }
            }
        }
    }
}

/// The goals printed under `p` are its children.
proof fn lemma_printed_children(goals: Seq<GoalView>, p: Option<Seq<char>>)
    ensures
        forall|g: GoalView| #[trigger] under(goals, p).contains(g) ==> goals.contains(g) && g.parent_id == p,
{
    lemma_under_members(goals, p);
}

/// A child of `p` followed by a line of descent below it is a line of
/// descent below `p`.
#[verifier::spinoff_prover]
proof fn lemma_descent_cons(goals: Seq<GoalView>, p: Option<Seq<char>>, g: GoalView, c: Seq<GoalView>)
    requires
        goals.contains(g),
        g.parent_id == p,
        descent(goals, Some(g.id), c),
    ensures
        descent(goals, p, seq![g] + c),
{
    reveal(descent);
    let c2 = seq![g] + c;
    assert forall|i: int| 0 < i < c2.len() implies (#[trigger] c2[i]).parent_id == Some(c2[i - 1].id) by {
        if i > 1 {
            assert(c2[i] == c[i - 1] && c2[i - 1] == c[i - 2]);
        } else {
            assert(c2[1] == c[0]);
        }
    }
    assert forall|i: int| 0 <= i < c2.len() implies goals.contains(#[trigger] c2[i]) by {
        if i > 0 {
            assert(c2[i] == c[i - 1]);
        }
    }
}

/// Where no line of descent below `p` is `f + 1` goals long, one more level
/// of fuel prints nothing more.
#[verifier::spinoff_prover]
proof fn lemma_fuel_enough(goals: Seq<GoalView>, p: Option<Seq<char>>, depth: nat, f: nat)
    requires
        !deep(goals, p, f + 1),
    ensures
        tree_text(goals, p, depth, f) == tree_text(goals, p, depth, f + 1),
    decreases f, 0int,
{
    let cs = under(goals, p);
    lemma_printed_children(goals, p);
    assert(tree_text(goals, p, depth, f + 1) == nodes_text(goals, cs, depth, f));
    if f == 0 {
        if cs.len() > 0 {
            assert(cs.contains(cs[0]));
            assert(descent(goals, Some(cs[0].id), Seq::<GoalView>::empty())) by {
                reveal(descent);
            }
            lemma_descent_cons(goals, p, cs[0], Seq::<GoalView>::empty());
            assert(seq![cs[0]] + Seq::<GoalView>::empty() =~= seq![cs[0]]);
            assert(deep(goals, p, 1));
        }
        assert(nodes_text(goals, cs, depth, 0) == Seq::<char>::empty());
    } else {
        assert(tree_text(goals, p, depth, f) == nodes_text(goals, cs, depth, (f - 1) as nat));
        assert forall|k: int| 0 <= k < cs.len() implies !deep(goals, Some(#[trigger] cs[k].id), f) by {
            assert(cs.contains(cs[k]));
            if deep(goals, Some(cs[k].id), f) {
                let c = choose|c: Seq<GoalView>| c.len() == f && #[trigger] descent(goals, Some(cs[k].id), c);
                lemma_descent_cons(goals, p, cs[k], c);
                assert((seq![cs[k]] + c).len() == f + 1);
            }
        }
        lemma_nodes_fuel_enough(goals, cs, depth, (f - 1) as nat, cs.len() as int);
        assert(cs.take(cs.len() as int) =~= cs);
    }
}

/// The lines of the first `m` goals of `cs` do not change with one more level
/// of fuel where no line of descent below any of them is `f + 2` goals long.
#[verifier::spinoff_prover]
proof fn lemma_nodes_fuel_enough(goals: Seq<GoalView>, cs: Seq<GoalView>, depth: nat, f: nat, m: int)
    requires
        0 <= m <= cs.len(),
        forall|k: int| 0 <= k < cs.len() ==> !deep(goals, Some(#[trigger] cs[k].id), f + 1),
    ensures
        nodes_text(goals, cs.take(m), depth, f) == nodes_text(goals, cs.take(m), depth, f + 1),
    decreases f, m + 1,
{
    if m > 0 {
        lemma_nodes_fuel_enough(goals, cs, depth, f, m - 1);
        assert(cs.take(m).drop_last() =~= cs.take(m - 1));
        assert(cs.take(m).last() == cs[m - 1]);
        lemma_fuel_enough(goals, Some(cs[m - 1].id), depth + 1, f);
    } else {
        assert(cs.take(0).len() == 0);
    }
}

/// With distinct ids no line of descent from the roots is longer than the
/// number of goals.
/// The position of a goal in the table.
spec fn position_in(goals: Seq<GoalView>, g: GoalView) -> int {
    choose|i: int| 0 <= i < goals.len() && goals[i] == g
}

#[verifier::spinoff_prover]
proof fn lemma_not_deeper_than_count(goals: Seq<GoalView>, c: Seq<GoalView>)
    requires
        distinct_ids(goals),
        descent(goals, None, c),
    ensures
        c.len() <= goals.len(),
{
    let idx = c.map_values(|g: GoalView| position_in(goals, g));
    assert forall|k: int| 0 <= k < idx.len() implies 0 <= #[trigger] idx[k] < goals.len() && goals[idx[k]] == c[k] by {
        reveal(descent);
        assert(goals.contains(c[k]));
    }
    assert(idx.no_duplicates()) by {
        assert forall|a: int, b: int| 0 <= a < idx.len() && 0 <= b < idx.len() && a != b implies idx[a] != idx[b] by {
            assert(goals[idx[a]] == c[a] && goals[idx[b]] == c[b]);
            if a < b {
                lemma_descent_distinct(goals, c, a, b);
            } else {
                lemma_descent_distinct(goals, c, b, a);
            }
        }
    }
    crate::priority_facts::lemma_distinct_len(idx, goals.len() as int, None);
}

/// No goal comes twice on a line of descent from the roots.
proof fn lemma_descent_distinct(goals: Seq<GoalView>, c: Seq<GoalView>, lo: int, hi: int)
    requires
        distinct_ids(goals),
        descent(goals, None, c),
        0 <= lo < hi < c.len(),
    ensures
        c[lo] != c[hi],
    decreases lo,
{
    reveal(descent);
    if lo > 0 {
        lemma_descent_distinct(goals, c, lo - 1, hi - 1);
        assert(c[lo].parent_id == Some(c[lo - 1].id));
        assert(c[hi].parent_id == Some(c[hi - 1].id));
        assert(goals.contains(c[lo - 1]) && goals.contains(c[hi - 1]));
        if c[lo] == c[hi] {
            let a = choose|a: int| 0 <= a < goals.len() && goals[a] == c[lo - 1];
            let b = choose|b: int| 0 <= b < goals.len() && goals[b] == c[hi - 1];
            assert(a != b);
        }
    } else {
        assert(c[hi].parent_id == Some(c[hi - 1].id));
    }
}

/// The printed tree is the whole tree: with distinct ids, printing with more
/// levels than there are goals prints nothing more.
#[verifier::spinoff_prover]
pub proof fn law_print_tree_is_whole(goals: Seq<GoalView>, extra: nat)
    requires
        distinct_ids(goals),
    ensures
        tree_text(goals, None, 0, goals.len()) == tree_text(goals, None, 0, goals.len() + extra),
    decreases extra,
{
    if extra > 0 {
        law_print_tree_is_whole(goals, (extra - 1) as nat);
        let f = (goals.len() + extra - 1) as nat;
        if deep(goals, None, f + 1) {
            let c = choose|c: Seq<GoalView>| c.len() == f + 1 && #[trigger] descent(goals, None, c);
            lemma_not_deeper_than_count(goals, c);
        }
        lemma_fuel_enough(goals, None, 0, f);
    }
}

} // verus!
