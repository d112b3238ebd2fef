//! Facts about subtrees: a subtree holds goals of the table, and with each of
//! its goals every child of it.
use vstd::prelude::*;
use crate::model::GoalView;
use crate::sorting::{lemma_sorted_positions_complete, lemma_sorted_positions_distinct, lemma_sorted_positions_range,
    sorted_positions};
use super::{bounded, children, expand, goal_id_seq, id_keys, level, levels, lemma_level_empty_after, no_dups, sort_by_id,
    subtree, with_parent};

verus! {

/// Ordering by id keeps every goal.
pub proof fn lemma_sort_by_id_same(s: Seq<GoalView>)
    ensures
        forall|g: GoalView| s.contains(g) ==> sort_by_id(s).contains(g),
        forall|g: GoalView| sort_by_id(s).contains(g) ==> s.contains(g),
{
    let ks = id_keys(s);
    let n = s.len() as int;
    lemma_sorted_positions_complete(ks, n);
    lemma_sorted_positions_range(ks, n);
    let sp = sorted_positions(ks, n);
    assert forall|g: GoalView| s.contains(g) implies sort_by_id(s).contains(g) by {
        let i = choose|i: int| 0 <= i < s.len() && s[i] == g;
        assert(sp.contains(i));
        let k = choose|k: int| 0 <= k < sp.len() && sp[k] == i;
        assert(sort_by_id(s)[k] == g);
    }
    assert forall|g: GoalView| sort_by_id(s).contains(g) implies s.contains(g) by {
        let k = choose|k: int| 0 <= k < sort_by_id(s).len() && sort_by_id(s)[k] == g;
        assert(0 <= sp[k] < n);
        assert(s[sp[k]] == g);
    }
}

/// The goals with parent `pid` are exactly the goals of the table whose
/// parent is `pid`.
pub proof fn lemma_with_parent_members(goals: Seq<GoalView>, pid: Seq<char>)
    ensures
        forall|g: GoalView| #[trigger] with_parent(goals, pid).contains(g) <==> goals.contains(g) && g.parent_id == Some(pid),
    decreases goals.len(),
{
    if goals.len() > 0 {
        let t = goals.drop_last();
        let x = goals.last();
        lemma_with_parent_members(t, pid);
        let r = with_parent(t, pid);
        let w = with_parent(goals, pid);
        assert(w == if x.parent_id == Some(pid) { r.push(x) } else { r });
        assert forall|g: GoalView| w.contains(g) <==> goals.contains(g) && g.parent_id == Some(pid) by {
            if w.contains(g) {
                let k = choose|k: int| 0 <= k < w.len() && w[k] == g;
                if k < r.len() {
                    assert(r[k] == g);
                    assert(r.contains(g));
                    assert(t.contains(g));
                    let j = choose|j: int| 0 <= j < t.len() && t[j] == g;
                    assert(goals[j] == t[j]);
                } else {
                    assert(g == x);
                    assert(goals[goals.len() - 1] == x);
                }
            }
            if goals.contains(g) && g.parent_id == Some(pid) {
                let j = choose|j: int| 0 <= j < goals.len() && goals[j] == g;
                if j < t.len() {
                    assert(t[j] == g);
                    assert(t.contains(g));
                    assert(r.contains(g));
                    let k = choose|k: int| 0 <= k < r.len() && r[k] == g;
                    if x.parent_id == Some(pid) {
                        assert(r.push(x)[k] == g);
                    }
                } else {
                    assert(g == x);
                    assert(r.push(x)[r.len() as int] == g);
                }
            }
        }
    }
}

/// The goals of `expand(level)` are the children of the goals of `level`.
pub proof fn lemma_expand_members(goals: Seq<GoalView>, lv: Seq<GoalView>)
    ensures
        forall|g: GoalView| #[trigger] expand(goals, lv).contains(g) <==> exists|j: int|
            0 <= j < lv.len() && #[trigger] children(goals, lv[j].id).contains(g),
    decreases lv.len(),
{
    if lv.len() > 0 {
        let t = lv.drop_last();
        lemma_expand_members(goals, t);
        let a = expand(goals, t);
        let b = children(goals, lv.last().id);
        assert(expand(goals, lv) == a + b);
        assert forall|g: GoalView| expand(goals, lv).contains(g) <==> exists|j: int|
            0 <= j < lv.len() && #[trigger] children(goals, lv[j].id).contains(g) by {
            if expand(goals, lv).contains(g) {
                let k = choose|k: int| 0 <= k < (a + b).len() && (a + b)[k] == g;
                if k < a.len() {
                    assert(a[k] == g);
                    assert(a.contains(g));
                    let j = choose|j: int| 0 <= j < t.len() && #[trigger] children(goals, t[j].id).contains(g);
                    assert(lv[j] == t[j]);
                    assert(children(goals, lv[j].id).contains(g));
                } else {
                    assert(b[k - a.len()] == g);
                    assert(b.contains(g));
                    assert(lv[lv.len() - 1] == lv.last());
                    assert(children(goals, lv[lv.len() - 1].id).contains(g));
                }
            }
            if exists|j: int| 0 <= j < lv.len() && #[trigger] children(goals, lv[j].id).contains(g) {
                let j = choose|j: int| 0 <= j < lv.len() && #[trigger] children(goals, lv[j].id).contains(g);
                if j < t.len() {
                    assert(t[j] == lv[j]);
                    assert(children(goals, t[j].id).contains(g));
                    assert(a.contains(g));
                    let k = choose|k: int| 0 <= k < a.len() && a[k] == g;
                    assert((a + b)[k] == g);
                } else {
                    let k = choose|k: int| 0 <= k < b.len() && b[k] == g;
                    assert((a + b)[a.len() + k] == g);
                }
            }
        }
    }
}

/// A goal of the first `k` levels lies on one of them.
pub proof fn lemma_levels_members(goals: Seq<GoalView>, root: GoalView, k: nat)
    ensures
        forall|g: GoalView| #[trigger] levels(goals, root, k).contains(g) <==> exists|j: nat|
            j < k && #[trigger] level(goals, root, j).contains(g),
    decreases k,
{
    if k > 0 {
        let k1 = (k - 1) as nat;
        lemma_levels_members(goals, root, k1);
        let a = levels(goals, root, k1);
        let b = level(goals, root, k1);
        assert forall|g: GoalView| levels(goals, root, k).contains(g) <==> exists|j: nat|
            j < k && #[trigger] level(goals, root, j).contains(g) by {
            if levels(goals, root, k).contains(g) {
                let i = choose|i: int| 0 <= i < (a + b).len() && (a + b)[i] == g;
                if i < a.len() {
                    assert(a[i] == g);
                    assert(a.contains(g));
                    let j = choose|j: nat| j < k1 && #[trigger] level(goals, root, j).contains(g);
                    assert(level(goals, root, j).contains(g));
                } else {
                    assert(b[i - a.len()] == g);
                    assert(level(goals, root, k1).contains(g));
                }
            }
            if exists|j: nat| j < k && #[trigger] level(goals, root, j).contains(g) {
                let j = choose|j: nat| j < k && #[trigger] level(goals, root, j).contains(g);
                if j < k1 {
                    assert(exists|j2: nat| j2 < k1 && #[trigger] level(goals, root, j2).contains(g));
                    assert(a.contains(g));
                    let i = choose|i: int| 0 <= i < a.len() && a[i] == g;
                    assert((a + b)[i] == g);
                } else {
                    let i = choose|i: int| 0 <= i < b.len() && b[i] == g;
                    assert((a + b)[a.len() + i] == g);
                }
            }
        }
    }
}

/// The goals of a level below the root are goals of the table.
pub proof fn lemma_level_in_table(goals: Seq<GoalView>, root: GoalView, j: nat)
    ensures
        forall|g: GoalView| #[trigger] level(goals, root, j).contains(g) && j > 0 ==> goals.contains(g),
    decreases j,
{
    if j > 0 {
        let prev = level(goals, root, (j - 1) as nat);
        lemma_expand_members(goals, prev);
        assert forall|g: GoalView| #[trigger] level(goals, root, j).contains(g) implies goals.contains(g) by {
            lemma_level_parent(goals, root, j, g);
        }
    }
}

/// A goal on a level below the root has its parent on the level above.
pub proof fn lemma_level_parent(goals: Seq<GoalView>, root: GoalView, j: nat, g: GoalView)
    requires
        j > 0,
        level(goals, root, j).contains(g),
    ensures
        exists|q: GoalView| #[trigger] level(goals, root, (j - 1) as nat).contains(q) && g.parent_id == Some(q.id),
        goals.contains(g),
{
    let prev = level(goals, root, (j - 1) as nat);
    assert(level(goals, root, j) == expand(goals, prev));
    lemma_expand_members(goals, prev);
    assert(expand(goals, prev).contains(g));
    let i = choose|i: int| 0 <= i < prev.len() && #[trigger] children(goals, prev[i].id).contains(g);
    let w = with_parent(goals, prev[i].id);
    lemma_sort_by_id_same(w);
    assert(children(goals, prev[i].id) == sort_by_id(w));
    assert(sort_by_id(w).contains(g));
    assert(w.contains(g));
    lemma_with_parent_members(goals, prev[i].id);
    assert(prev.contains(prev[i]));
}

/// With every goal of a bounded subtree comes every child of it.
pub proof fn lemma_subtree_closed(goals: Seq<GoalView>, root: GoalView, q: GoalView, g: GoalView)
    requires
        bounded(goals, root),
        subtree(goals, root).contains(q),
        goals.contains(g),
        g.parent_id == Some(q.id),
    ensures
        subtree(goals, root).contains(g),
{
    let n = (goals.len() + 1) as nat;
    lemma_levels_members(goals, root, n);
    let j = choose|j: nat| j < n && #[trigger] level(goals, root, j).contains(q);
    let lv = level(goals, root, j);
    let i = choose|i: int| 0 <= i < lv.len() && lv[i] == q;
    lemma_with_parent_members(goals, q.id);
    let w = with_parent(goals, q.id);
    assert(w.contains(g));
    lemma_sort_by_id_same(w);
    assert(sort_by_id(w).contains(g));
    assert(children(goals, lv[i].id) == sort_by_id(w));
    assert(children(goals, lv[i].id).contains(g));
    lemma_expand_members(goals, lv);
    assert(level(goals, root, j + 1) == expand(goals, lv));
    assert(level(goals, root, j + 1).contains(g));
    if j + 1 == n {
        let k = choose|k: int| 0 <= k < level(goals, root, n).len() && level(goals, root, n)[k] == g;
        assert(false);
    }
    assert(level(goals, root, (j + 1) as nat).contains(g));
}

/// The goals of a subtree are the root and goals of the table.
pub proof fn lemma_subtree_in_table(goals: Seq<GoalView>, root: GoalView, g: GoalView)
    requires
        subtree(goals, root).contains(g),
    ensures
        g == root || goals.contains(g),
{
    let n = (goals.len() + 1) as nat;
    lemma_levels_members(goals, root, n);
    let j = choose|j: nat| j < n && #[trigger] level(goals, root, j).contains(g);
    if j > 0 {
        lemma_level_in_table(goals, root, j);
    } else {
        assert(level(goals, root, 0) == seq![root]);
        let k = choose|k: int| 0 <= k < seq![root].len() && seq![root][k] == g;
    }
}

/// Goals with unique ids are distinct values, and a value determines its id.
pub open spec fn unique_ids(goals: Seq<GoalView>) -> bool {
    no_dups(goal_id_seq(goals))
}

/// Two goals of the table with the same id are the same goal.
proof fn lemma_same_id_same_goal(goals: Seq<GoalView>, a: GoalView, b: GoalView)
    requires
        unique_ids(goals),
        goals.contains(a),
        goals.contains(b),
        a.id == b.id,
    ensures
        a == b,
{
    let i = choose|i: int| 0 <= i < goals.len() && goals[i] == a;
    let j = choose|j: int| 0 <= j < goals.len() && goals[j] == b;
    if i != j {
        assert(goal_id_seq(goals)[i] == goal_id_seq(goals)[j]);
    }
}

/// Ordering by id lists no goal twice when the input does not.
proof fn lemma_sort_no_dups(s: Seq<GoalView>)
    requires
        s.no_duplicates(),
    ensures
        sort_by_id(s).no_duplicates(),
{
    let ks = id_keys(s);
    let n = s.len() as int;
    lemma_sorted_positions_distinct(ks, n);
    lemma_sorted_positions_range(ks, n);
    let sp = sorted_positions(ks, n);
    let r = sort_by_id(s);
    assert forall|a: int, b: int| 0 <= a < r.len() && 0 <= b < r.len() && a != b implies r[a] != r[b] by {
        assert(r[a] == s[sp[a]] && r[b] == s[sp[b]]);
        assert(sp[a] != sp[b]);
    }
}

/// The children of a goal are listed once each.
proof fn lemma_children_no_dups(goals: Seq<GoalView>, pid: Seq<char>)
    requires
        unique_ids(goals),
    ensures
        children(goals, pid).no_duplicates(),
{
    lemma_with_parent_no_dups(goals, pid);
    lemma_sort_no_dups(with_parent(goals, pid));
}

proof fn lemma_with_parent_no_dups(goals: Seq<GoalView>, pid: Seq<char>)
    requires
        unique_ids(goals),
    ensures
        with_parent(goals, pid).no_duplicates(),
    decreases goals.len(),
{
    if goals.len() > 0 {
        let t = goals.drop_last();
        let x = goals.last();
        assert(unique_ids(t)) by {
            assert forall|a: int, b: int| 0 <= a < goal_id_seq(t).len() && 0 <= b < goal_id_seq(t).len() && a != b
                implies goal_id_seq(t)[a] != goal_id_seq(t)[b] by {
                assert(goal_id_seq(t)[a] == goal_id_seq(goals)[a]);
                assert(goal_id_seq(t)[b] == goal_id_seq(goals)[b]);
            }
        }
        lemma_with_parent_no_dups(t, pid);
        lemma_with_parent_members(t, pid);
        let r = with_parent(t, pid);
        if x.parent_id == Some(pid) {
            assert(!r.contains(x)) by {
                if r.contains(x) {
                    let j = choose|j: int| 0 <= j < t.len() && t[j] == x;
                    assert(goal_id_seq(goals)[j] == goal_id_seq(goals)[goals.len() - 1]);
                }
            }
            assert forall|a: int, b: int| 0 <= a < r.push(x).len() && 0 <= b < r.push(x).len() && a != b
                implies r.push(x)[a] != r.push(x)[b] by {
                if a == r.len() {
                    assert(r.contains(r[b]));
                } else if b == r.len() {
                    assert(r.contains(r[a]));
                }
            }
        }
    }
}

/// The children of the goals of a level, one goal after another, are listed
/// once each.
proof fn lemma_expand_no_dups(goals: Seq<GoalView>, lv: Seq<GoalView>)
    requires
        unique_ids(goals),
        lv.no_duplicates(),
        forall|q: GoalView| lv.contains(q) ==> goals.contains(q),
    ensures
        expand(goals, lv).no_duplicates(),
    decreases lv.len(),
{
    if lv.len() > 0 {
        let t = lv.drop_last();
        let x = lv.last();
        assert(t.no_duplicates()) by {
            assert forall|a: int, b: int| 0 <= a < t.len() && 0 <= b < t.len() && a != b implies t[a] != t[b] by {
                assert(t[a] == lv[a] && t[b] == lv[b]);
            }
        }
        assert forall|q: GoalView| t.contains(q) implies goals.contains(q) by {
            let k = choose|k: int| 0 <= k < t.len() && t[k] == q;
            assert(lv[k] == q);
        }
        lemma_expand_no_dups(goals, t);
        lemma_children_no_dups(goals, x.id);
        lemma_expand_members(goals, t);
        let a = expand(goals, t);
        let b = children(goals, x.id);
        assert forall|i: int, j: int| 0 <= i < a.len() && 0 <= j < b.len() implies a[i] != b[j] by {
            if a[i] == b[j] {
                let g = a[i];
                assert(a.contains(g));
                let k = choose|k: int| 0 <= k < t.len() && #[trigger] children(goals, t[k].id).contains(g);
                let w1 = with_parent(goals, t[k].id);
                let w2 = with_parent(goals, x.id);
                lemma_sort_by_id_same(w1);
                lemma_sort_by_id_same(w2);
                assert(sort_by_id(w1).contains(g));
                assert(b.contains(g));
                assert(sort_by_id(w2).contains(g));
                lemma_with_parent_members(goals, t[k].id);
                lemma_with_parent_members(goals, x.id);
                assert(w1.contains(g) && w2.contains(g));
                assert(t[k].id == x.id);
                assert(lv.contains(t[k]) && lv.contains(x)) by {
                    assert(lv[k] == t[k]);
                    assert(lv[lv.len() - 1] == x);
                }
                lemma_same_id_same_goal(goals, t[k], x);
                assert(lv[k] == lv[lv.len() - 1]);
            }
        }
        vstd::seq_lib::lemma_no_dup_in_concat(a, b);
    }
}

/// Each level lists its goals once, all goals of the table.
proof fn lemma_level_no_dups(goals: Seq<GoalView>, root: GoalView, k: nat)
    requires
        unique_ids(goals),
        goals.contains(root),
    ensures
        level(goals, root, k).no_duplicates(),
        forall|q: GoalView| level(goals, root, k).contains(q) ==> goals.contains(q),
    decreases k,
{
    if k == 0 {
        assert(level(goals, root, 0) == seq![root]);
        assert forall|q: GoalView| level(goals, root, k).contains(q) implies goals.contains(q) by {
            let i = choose|i: int| 0 <= i < seq![root].len() && seq![root][i] == q;
        }
    } else {
        lemma_level_no_dups(goals, root, (k - 1) as nat);
        lemma_expand_no_dups(goals, level(goals, root, (k - 1) as nat));
        lemma_level_in_table(goals, root, k);
    }
}

/// Expanding a larger set of goals gives a larger set of children.
proof fn lemma_expand_monotone(goals: Seq<GoalView>, a: Seq<GoalView>, b: Seq<GoalView>)
    requires
        forall|q: GoalView| a.contains(q) ==> b.contains(q),
    ensures
        forall|g: GoalView| expand(goals, a).contains(g) ==> expand(goals, b).contains(g),
{
    lemma_expand_members(goals, a);
    lemma_expand_members(goals, b);
    assert forall|g: GoalView| expand(goals, a).contains(g) implies expand(goals, b).contains(g) by {
        let i = choose|i: int| 0 <= i < a.len() && #[trigger] children(goals, a[i].id).contains(g);
        assert(a.contains(a[i]));
        let j = choose|j: int| 0 <= j < b.len() && b[j] == a[i];
        assert(children(goals, b[j].id).contains(g));
    }
}

/// Where the root lies `d` levels below itself, every level reappears `d`
/// levels further down.
proof fn lemma_level_shift(goals: Seq<GoalView>, root: GoalView, d: nat, t: nat)
    requires
        level(goals, root, d).contains(root),
    ensures
        forall|g: GoalView| level(goals, root, t).contains(g) ==> level(goals, root, d + t).contains(g),
    decreases t,
{
    if t == 0 {
        assert(level(goals, root, 0) == seq![root]);
        assert forall|g: GoalView| level(goals, root, 0).contains(g) implies level(goals, root, d).contains(g) by {
            let i = choose|i: int| 0 <= i < seq![root].len() && seq![root][i] == g;
        }
    } else {
        lemma_level_shift(goals, root, d, (t - 1) as nat);
        lemma_expand_monotone(goals, level(goals, root, (t - 1) as nat), level(goals, root, (d + t - 1) as nat));
        assert(level(goals, root, d + t) == expand(goals, level(goals, root, (d + t - 1) as nat)));
    }
}

/// A goal on two levels puts the root below itself.
proof fn lemma_two_levels(goals: Seq<GoalView>, root: GoalView, g: GoalView, i: nat, j: nat)
    requires
        unique_ids(goals),
        goals.contains(root),
        i < j,
        level(goals, root, i).contains(g),
        level(goals, root, j).contains(g),
    ensures
        level(goals, root, (j - i) as nat).contains(root),
    decreases i,
{
    if i == 0 {
        assert(level(goals, root, 0) == seq![root]);
        let z = choose|z: int| 0 <= z < seq![root].len() && seq![root][z] == g;
        assert(g == root);
    } else {
        lemma_level_parent(goals, root, i, g);
        lemma_level_parent(goals, root, j, g);
        let q1 = choose|q: GoalView| #[trigger] level(goals, root, (i - 1) as nat).contains(q) && g.parent_id == Some(q.id);
        let q2 = choose|q: GoalView| #[trigger] level(goals, root, (j - 1) as nat).contains(q) && g.parent_id == Some(q.id);
        lemma_level_no_dups(goals, root, (i - 1) as nat);
        lemma_level_no_dups(goals, root, (j - 1) as nat);
        lemma_same_id_same_goal(goals, q1, q2);
        lemma_two_levels(goals, root, q1, (i - 1) as nat, (j - 1) as nat);
    }
}

/// Where the root lies below itself, it lies on levels as deep as one likes.
proof fn lemma_root_deep(goals: Seq<GoalView>, root: GoalView, d: nat, depth: nat)
    requires
        d > 0,
        level(goals, root, d).contains(root),
    ensures
        exists|t: nat| t >= depth && #[trigger] level(goals, root, t).contains(root),
    decreases depth,
{
    if depth == 0 {
        assert(level(goals, root, 0) == seq![root]);
        assert(seq![root][0] == root);
        assert(level(goals, root, 0).contains(root));
    } else {
        lemma_root_deep(goals, root, d, (depth - 1) as nat);
        let t = choose|t: nat| t >= depth - 1 && #[trigger] level(goals, root, t).contains(root);
        lemma_level_shift(goals, root, d, t);
        assert(level(goals, root, d + t).contains(root));
    }
}

/// The goals of a bounded subtree have distinct ids.
pub proof fn lemma_subtree_unique(goals: Seq<GoalView>, root: GoalView)
    requires
        unique_ids(goals),
        goals.contains(root),
        bounded(goals, root),
    ensures
        unique_ids(subtree(goals, root)),
        forall|q: GoalView| subtree(goals, root).contains(q) ==> goals.contains(q),
{
    let n = (goals.len() + 1) as nat;
    lemma_levels_no_dups(goals, root, n);
    let sub = subtree(goals, root);
    assert forall|q: GoalView| sub.contains(q) implies goals.contains(q) by {
        lemma_subtree_in_table(goals, root, q);
    }
    assert forall|a: int, b: int| 0 <= a < goal_id_seq(sub).len() && 0 <= b < goal_id_seq(sub).len() && a != b
        implies goal_id_seq(sub)[a] != goal_id_seq(sub)[b] by {
        if sub[a].id == sub[b].id {
            assert(sub.contains(sub[a]) && sub.contains(sub[b]));
            lemma_same_id_same_goal(goals, sub[a], sub[b]);
        }
    }
}

/// The first `k` levels of a bounded subtree list each goal once.
proof fn lemma_levels_no_dups(goals: Seq<GoalView>, root: GoalView, k: nat)
    requires
        unique_ids(goals),
        goals.contains(root),
        bounded(goals, root),
    ensures
        levels(goals, root, k).no_duplicates(),
    decreases k,
{
    if k > 0 {
        let k1 = (k - 1) as nat;
        lemma_levels_no_dups(goals, root, k1);
        lemma_level_no_dups(goals, root, k1);
        lemma_levels_members(goals, root, k1);
        let a = levels(goals, root, k1);
        let b = level(goals, root, k1);
        assert forall|i: int, j: int| 0 <= i < a.len() && 0 <= j < b.len() implies a[i] != b[j] by {
            if a[i] == b[j] {
                let g = a[i];
                assert(a.contains(g));
                let lo = choose|lo: nat| lo < k1 && #[trigger] level(goals, root, lo).contains(g);
                assert(b.contains(g));
                lemma_two_levels(goals, root, g, lo, k1);
                let d = (k1 - lo) as nat;
                let n = (goals.len() + 1) as nat;
                lemma_root_deep(goals, root, d, n);
                let t = choose|t: nat| t >= n && #[trigger] level(goals, root, t).contains(root);
                lemma_level_empty_after(goals, root, n, t);
                assert(level(goals, root, t).len() == 0);
            }
        }
        vstd::seq_lib::lemma_no_dup_in_concat(a, b);
    }
}

} // verus!
