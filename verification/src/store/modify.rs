//! Modifying a goal: its text, its parent and its kind. A change of kind or
//! depth gives the goal and its whole subtree new ids (the random part is
//! kept), records the old ids as aliases and moves the rankings to the new ids.
use vstd::prelude::*;
use crate::ids::{derivable, derive_bytes_needed, derive_id, derived_id, id_depth, kind_from_id, parse_depth, id_kind,
    event_id_from_bytes, generate_event_id};
use crate::model::{copy_goal, copy_goals, copy_opt, copy_pairs, goals_view, opt_view, pairs_view, EdgeRecord,
    Goal, GoalError, GoalErrorView, GoalKind, GoalView, LogEntry, LogEntryView, ModifyParent, ModifyParentView, PairView, TableChange, TableState};
use crate::text::str_eq;
use super::delete::{contains_pair, contains_str, goals_without, lemma_goals_without_wf};
use super::ops::{entry, goal_row, has_event};
use super::{alias_olds, bounded_at, goal_id_seq, goal_index, has_goal, no_dups, table_change, subtree_of, wf, Store, StoreView};

verus! {

/// The depth of an id as the 32-bit signed number that modification computes with.
pub open spec fn depth32(id: Seq<char>) -> int {
    ((id_depth(id) as u32) as i32) as int
}

/// The parent that the modified goal gets.
pub open spec fn parent_after(root: GoalView, np: ModifyParentView) -> Option<Seq<char>> {
    match np {
        ModifyParentView::Keep => root.parent_id,
        ModifyParentView::Detach => None,
        ModifyParentView::Reparent(p) => Some(p),
    }
}

/// The depth of a goal under `parent`.
pub open spec fn depth_under(parent: Option<Seq<char>>) -> int {
    match parent {
        Some(p) => depth32(p) + 1,
        None => 0,
    }
}

/// How much deeper the modified goal (and so its subtree) becomes.
pub open spec fn depth_delta(id: Seq<char>, parent: Option<Seq<char>>) -> int {
    depth_under(parent) - depth32(id)
}

/// The kind the `k`-th goal of the subtree gets: the new kind for the
/// modified goal, its own kind for the others.
pub open spec fn node_kind(sub: Seq<GoalView>, k: int, nk: GoalKind) -> GoalKind {
    if k == 0 { nk } else { sub[k].kind }
}

/// The depth the `k`-th goal of the subtree gets.
pub open spec fn node_depth(sub: Seq<GoalView>, k: int, delta: int) -> nat {
    ((depth32(sub[k].id) + delta) as u32) as nat
}

/// The first position of `x` in `s`.
pub open spec fn first_pos(s: Seq<Seq<char>>, x: Seq<char>) -> int {
    choose|i: int| 0 <= i < s.len() && s[i] == x && forall|j: int| 0 <= j < i ==> s[j] != x
}

/// A parent id inside the subtree is replaced by its new id.
pub open spec fn mapped_parent(sub: Seq<GoalView>, nids: Seq<Seq<char>>, p: Option<Seq<char>>) -> Option<Seq<char>> {
    match p {
        None => None,
        Some(x) => if goal_id_seq(sub).contains(x) {
            Some(nids[first_pos(goal_id_seq(sub), x)])
        } else {
            Some(x)
        },
    }
}

/// Records that `old` is now called `new` (replacing an earlier record for `old`).
pub open spec fn upsert_alias(al: Seq<PairView>, old: Seq<char>, new: Seq<char>) -> Seq<PairView> {
    if exists|i: int| 0 <= i < al.len() && (#[trigger] al[i]).0 == old {
        al.update(choose|i: int| 0 <= i < al.len() && (#[trigger] al[i]).0 == old, (old, new))
    } else {
        al.push((old, new))
    }
}

/// After the upsert, `old` leads to `new`, and every other record stays where
/// it was.
pub proof fn lemma_upsert_alias(al: Seq<PairView>, old: Seq<char>, new: Seq<char>)
    requires
        no_dups(alias_olds(al)),
    ensures
        upsert_alias(al, old, new).len() >= al.len(),
        upsert_alias(al, old, new).contains((old, new)),
        forall|j: int| 0 <= j < al.len() && al[j].0 != old ==> #[trigger] upsert_alias(al, old, new)[j] == al[j],
{
    if exists|i: int| 0 <= i < al.len() && (#[trigger] al[i]).0 == old {
        let c = choose|i: int| 0 <= i < al.len() && (#[trigger] al[i]).0 == old;
        assert forall|k: int| 0 <= k < al.len() && al[k].0 == old implies k == c by {
            if k != c {
                assert(alias_olds(al)[k] == alias_olds(al)[c]);
            }
        }
        assert(upsert_alias(al, old, new) == al.update(c, (old, new)));
        assert(upsert_alias(al, old, new)[c] == (old, new));
    } else {
        assert(upsert_alias(al, old, new)[al.len() as int] == (old, new));
    }
}

/// The upsert keeps the old ids of the aliases distinct.
pub proof fn lemma_upsert_alias_olds(al: Seq<PairView>, old: Seq<char>, new: Seq<char>)
    requires
        no_dups(alias_olds(al)),
    ensures
        no_dups(alias_olds(upsert_alias(al, old, new))),
{
    lemma_upsert_alias(al, old, new);
    let up = upsert_alias(al, old, new);
    if exists|i: int| 0 <= i < al.len() && (#[trigger] al[i]).0 == old {
        assert(up.len() == al.len()) by {
            let c = choose|i: int| 0 <= i < al.len() && (#[trigger] al[i]).0 == old;
            assert forall|k: int| 0 <= k < al.len() && al[k].0 == old implies k == c by {
                if k != c {
                    assert(alias_olds(al)[k] == alias_olds(al)[c]);
                }
            }
            assert(up == al.update(c, (old, new)));
        }
        assert(alias_olds(up) =~= alias_olds(al)) by {
            assert forall|k: int| 0 <= k < al.len() implies #[trigger] up[k].0 == al[k].0 by {
                if al[k].0 != old {
                } else {
                    let m = choose|m: int| 0 <= m < up.len() && up[m] == (old, new);
                    if up[k].0 != old {
                        let c = choose|i: int| 0 <= i < al.len() && (#[trigger] al[i]).0 == old;
                        assert(up == al.update(c, (old, new)));
                    }
                }
            }
        }
    } else {
        assert(up == al.push((old, new)));
        assert(alias_olds(up) =~= alias_olds(al).push(old));
        assert forall|a: int, b: int| 0 <= a < alias_olds(up).len() && 0 <= b < alias_olds(up).len() && a != b
            implies alias_olds(up)[a] != alias_olds(up)[b] by {
            if a == al.len() as int {
                assert(al[b].0 != old);
            } else if b == al.len() as int {
                assert(al[a].0 != old);
            }
        }
    }
}

/// Aliases that led to `from` now lead to `to`.
pub open spec fn redirect_aliases(al: Seq<PairView>, from: Seq<char>, to: Seq<char>) -> Seq<PairView> {
    al.map_values(|p: PairView| if p.1 == from { (p.0, to) } else { p })
}

pub open spec fn rename_higher(e: Seq<PairView>, from: Seq<char>, to: Seq<char>) -> Seq<PairView> {
    e.map_values(|p: PairView| if p.0 == from { (to, p.1) } else { p })
}

pub open spec fn rename_lower(e: Seq<PairView>, from: Seq<char>, to: Seq<char>) -> Seq<PairView> {
    e.map_values(|p: PairView| if p.1 == from { (p.0, to) } else { p })
}

/// Renaming the higher end `from` to `to` would repeat an edge.
pub open spec fn higher_conflict(e: Seq<PairView>, from: Seq<char>, to: Seq<char>) -> bool {
    from != to && exists|i: int| 0 <= i < e.len() && (#[trigger] e[i]).0 == from && e.contains((to, e[i].1))
}

/// Renaming the lower end `from` to `to` would repeat an edge.
pub open spec fn lower_conflict(e: Seq<PairView>, from: Seq<char>, to: Seq<char>) -> bool {
    from != to && exists|i: int| 0 <= i < e.len() && (#[trigger] e[i]).1 == from && e.contains((e[i].0, to))
}

/// Re-inserting the `k`-th goal of the subtree under its new id: the goal row,
/// the alias, and the rankings. `None` where a key would repeat.
pub open spec fn renamed_step(st: StoreView, sub: Seq<GoalView>, nids: Seq<Seq<char>>, k: int, parent: Option<Seq<char>>, body: Seq<char>) -> Option<StoreView> {
    let g = sub[k];
    let nid = nids[k];
    let p = if k == 0 { parent } else { mapped_parent(sub, nids, g.parent_id) };
    let b = if k == 0 { body } else { g.body };
    if has_goal(st.goals, nid) {
        None
    } else if higher_conflict(st.edges, g.id, nid) {
        None
    } else if lower_conflict(rename_higher(st.edges, g.id, nid), g.id, nid) {
        None
    } else {
        Some(StoreView {
            goals: st.goals.push(goal_row(nid, p, b, g.achieved)),
            aliases: redirect_aliases(upsert_alias(st.aliases, g.id, nid), g.id, nid),
            edges: rename_lower(rename_higher(st.edges, g.id, nid), g.id, nid),
            ..st
        })
    }
}

/// The first `k` re-insertions.
pub open spec fn renamed_fold(st: StoreView, sub: Seq<GoalView>, nids: Seq<Seq<char>>, k: int, parent: Option<Seq<char>>, body: Seq<char>) -> Option<StoreView>
    decreases k,
{
    if k <= 0 {
        Some(st)
    } else {
        match renamed_fold(st, sub, nids, k - 1, parent, body) {
            None => None,
            Some(s2) => renamed_step(s2, sub, nids, k - 1, parent, body),
        }
    }
}

/// The kind that the modified goal gets.
pub open spec fn new_kind_of(sub: Seq<GoalView>, nk: Option<GoalKind>) -> GoalKind {
    match nk {
        Some(k) => k,
        None => sub[0].kind,
    }
}

/// Whether the modification changes ids: a new kind or a new depth.
pub open spec fn changes_ids(sub: Seq<GoalView>, id: Seq<char>, np: ModifyParentView, nk: Option<GoalKind>) -> bool {
    let root = sub[0];
    let new_kind = match nk { Some(k) => k, None => root.kind };
    new_kind != root.kind || depth_delta(id, parent_after(root, np)) != 0
}

/// The new id of the `k`-th goal of the subtree is derived from its old id
/// for its kind and depth, from `bytes`.
pub open spec fn derived_at(sub: Seq<GoalView>, nids: Seq<Seq<char>>, nk: GoalKind, delta: int, k: int, bytes: Seq<u8>) -> bool {
    &&& bytes.len() == derive_bytes_needed(sub[k].id, node_kind(sub, k, nk), node_depth(sub, k, delta))
    &&& nids[k] == derived_id(sub[k].id, node_kind(sub, k, nk), node_depth(sub, k, delta), bytes)
}

/// Every new id of the subtree is derived from its old id, the `k`-th from `bs[k]`.
pub open spec fn derived_all(sub: Seq<GoalView>, nids: Seq<Seq<char>>, nk: GoalKind, delta: int, bs: Seq<Seq<u8>>) -> bool {
    &&& bs.len() == sub.len()
    &&& forall|k: int| #![trigger bs[k]] 0 <= k < sub.len() ==> derived_at(sub, nids, nk, delta, k, bs[k])
}

/// The new ids for the subtree: each derived from the old id for its kind and
/// depth, from some random bytes.
pub open spec fn derived_ids(sub: Seq<GoalView>, nids: Seq<Seq<char>>, nk: GoalKind, delta: int) -> bool {
    &&& nids.len() == sub.len()
    &&& exists|bs: Seq<Seq<u8>>| #![trigger derived_all(sub, nids, nk, delta, bs)] derived_all(sub, nids, nk, delta, bs)
}

/// Modifying the goal `id` with the given new ids (one per goal of its
/// subtree, used where ids change) and history id. Where no id changes, the
/// goal gets its new text and parent in place. Returns the goal's id
/// afterwards.
pub open spec fn modify_outcome(
    s: StoreView,
    id: Seq<char>,
    new_body: Option<Seq<char>>,
    np: ModifyParentView,
    nk: Option<GoalKind>,
    nids: Seq<Seq<char>>,
    event_id: Seq<char>,
    now: Seq<char>,
) -> Result<(StoreView, Seq<char>), GoalErrorView> {
    match subtree_of(s.goals, id) {
        None => Err(GoalErrorView::NoGoal(id)),
        Some(sub) => {
            let root = sub[0];
            let sids = goal_id_seq(sub);
            if np matches ModifyParentView::Reparent(p) && sids.contains(p) {
                Err(GoalErrorView::ReparentUnderDescendant)
            } else {
                let parent = parent_after(root, np);
                let body = match new_body { Some(b) => b, None => root.body };
                if !changes_ids(sub, id, np, nk) {
                    if has_event(s.events, event_id) {
                        Err(GoalErrorView::DuplicateKey)
                    } else {
                        let i = goal_index(s.goals, id);
                        let s2 = StoreView { goals: s.goals.update(i, GoalView { body, parent_id: parent, ..s.goals[i] }), ..s };
                        Ok((
                            StoreView {
                                events: s.events.push(LogEntryView {
                                    change: Some(table_change(s, s2)),
                                    ..entry(event_id, now, "Modify"@, sub, Some(id))
                                }),
                                ..s2
                            },
                            id,
                        ))
                    }
                } else {
                    let st0 = StoreView { goals: goals_without(s.goals, sids), ..s };
                    match renamed_fold(st0, sub, nids, sub.len() as int, parent, body) {
                        None => Err(GoalErrorView::DuplicateKey),
                        Some(st) => if has_event(st.events, event_id) {
                            Err(GoalErrorView::DuplicateKey)
                        } else {
                            Ok((StoreView {
                                events: st.events.push(LogEntryView {
                                    change: Some(table_change(s, st)),
                                    ..entry(event_id, now, "Modify"@, sub, Some(nids[0]))
                                }),
                                ..st
                            }, nids[0]))
                        },
                    }
                }
            }
        },
    }
}

/// The modification runs without overflow: every depth it reads fits, and the
/// depth arithmetic stays within 32-bit signed numbers; where ids change,
/// every old id of the subtree can be cut into prefix and random part.
pub open spec fn modify_safe(s: StoreView, id: Seq<char>, np: ModifyParentView, nk: Option<GoalKind>) -> bool {
    match subtree_of(s.goals, id) {
        None => true,
        Some(sub) => {
            let root = sub[0];
            let parent = parent_after(root, np);
            let delta = depth_delta(id, parent);
            if np matches ModifyParentView::Reparent(p) && goal_id_seq(sub).contains(p) {
                true
            } else {
                &&& parent matches Some(p) ==> id_depth(p) <= u32::MAX && depth32(p) < i32::MAX
                &&& id_depth(id) <= u32::MAX
                &&& i32::MIN <= delta <= i32::MAX
                &&& changes_ids(sub, id, np, nk) ==> forall|k: int| 0 <= k < sub.len() ==> {
                    &&& derivable(#[trigger] sub[k].id, node_kind(sub, k, new_kind_of(sub, nk)), node_depth(sub, k, delta))
                    &&& i32::MIN <= depth32(sub[k].id) + delta <= i32::MAX
                }
            }
        },
    }
}

fn first_pos_exec(v: &Vec<String>, x: &str) -> (r: Option<usize>)
    ensures
        match r {
            Some(i) => v@.map_values(|s: String| s@).contains(x@) && i as int == first_pos(v@.map_values(|s: String| s@), x@)
                && i < v@.len(),
            None => !v@.map_values(|s: String| s@).contains(x@),
        },
{
    let ghost w = v@.map_values(|s: String| s@);
    let mut i: usize = 0;
    while i < v.len()
        invariant
            w == v@.map_values(|s: String| s@),
            i <= v@.len(),
            forall|k: int| 0 <= k < i ==> w[k] != x@,
        decreases v@.len() - i,
    {
        assert(w[i as int] == v@[i as int]@);
        if str_eq(v[i].as_str(), x) {
            let ghost c = first_pos(w, x@);
            assert(0 <= i < w.len() && w[i as int] == x@ && forall|j: int| 0 <= j < i ==> w[j] != x@);
            assert(c == i as int) by {
                if c < i as int {
                } else if c > i as int {
                }
            }
            return Some(i);
        }
        i += 1;
    }
    None
}

pub(crate) fn goal_in(goals: &Vec<Goal>, id: &str) -> (r: bool)
    ensures
        r == has_goal(goals_view(goals@), id@),
{
    let ghost gv = goals_view(goals@);
    let mut i: usize = 0;
    while i < goals.len()
        invariant
            gv == goals_view(goals@),
            i <= goals@.len(),
            forall|k: int| 0 <= k < i ==> gv[k].id != id@,
        decreases goals@.len() - i,
    {
        assert(gv[i as int] == goals@[i as int]@);
        if str_eq(goals[i].id.as_str(), id) {
            return true;
        }
        i += 1;
    }
    false
}

fn upsert_alias_exec(al: &mut Vec<(String, String)>, old_id: &str, new_id: &str)
    requires
        no_dups(alias_olds(pairs_view(old(al)@))),
    ensures
        pairs_view(final(al)@) == upsert_alias(pairs_view(old(al)@), old_id@, new_id@),
        no_dups(alias_olds(pairs_view(final(al)@))),
{
    let ghost a0 = pairs_view(al@);
    assert(a0 == pairs_view(old(al)@));
    let mut i: usize = 0;
    while i < al.len()
        invariant
            a0 == pairs_view(al@),
            a0 == pairs_view(old(al)@),
            no_dups(alias_olds(a0)),
            i <= al@.len(),
            forall|k: int| 0 <= k < i ==> a0[k].0 != old_id@,
        decreases al@.len() - i,
    {
        assert(a0[i as int] == (al@[i as int].0@, al@[i as int].1@));
        if str_eq(al[i].0.as_str(), old_id) {
            assert(a0[i as int].0 == old_id@);
            let ghost c = choose|c: int| 0 <= c < a0.len() && (#[trigger] a0[c]).0 == old_id@;
            assert(c == i as int) by {
                if c != i as int {
                    assert(alias_olds(a0)[c] == alias_olds(a0)[i as int]);
                }
            }
            al.set(i, (old_id.to_owned(), new_id.to_owned()));
            assert(pairs_view(al@) =~= a0.update(i as int, (old_id@, new_id@)));
            assert(upsert_alias(a0, old_id@, new_id@) == a0.update(c, (old_id@, new_id@)));
            assert(pairs_view(al@) == upsert_alias(a0, old_id@, new_id@));
            assert(alias_olds(pairs_view(al@)) =~= alias_olds(a0));
            return;
        }
        i += 1;
    }
    al.push((old_id.to_owned(), new_id.to_owned()));
    assert(pairs_view(al@) =~= a0.push((old_id@, new_id@)));
    assert(alias_olds(pairs_view(al@)) =~= alias_olds(a0).push(old_id@));
    assert forall|x: int, y: int| 0 <= x < alias_olds(pairs_view(al@)).len() && 0 <= y < alias_olds(pairs_view(al@)).len() && x != y
        implies alias_olds(pairs_view(al@))[x] != alias_olds(pairs_view(al@))[y] by {
        if x == a0.len() as int {
            assert(alias_olds(a0)[y] == a0[y].0);
        } else if y == a0.len() as int {
            assert(alias_olds(a0)[x] == a0[x].0);
        }
    }
}

fn redirect_aliases_exec(al: &mut Vec<(String, String)>, from: &str, to: &str)
    ensures
        pairs_view(final(al)@) == redirect_aliases(pairs_view(old(al)@), from@, to@),
        alias_olds(pairs_view(final(al)@)) == alias_olds(pairs_view(old(al)@)),
{
    let ghost a0 = pairs_view(al@);
    let mut r: Vec<(String, String)> = Vec::new();
    let mut i: usize = 0;
    while i < al.len()
        invariant
            a0 == pairs_view(al@),
            i <= al@.len(),
            pairs_view(r@) == redirect_aliases(a0, from@, to@).take(i as int),
        decreases al@.len() - i,
    {
        let ghost before = pairs_view(r@);
        let ghost f = redirect_aliases(a0, from@, to@);
        assert(a0[i as int] == (al@[i as int].0@, al@[i as int].1@));
        if str_eq(al[i].1.as_str(), from) {
            r.push((al[i].0.clone(), to.to_owned()));
        } else {
            r.push((al[i].0.clone(), al[i].1.clone()));
        }
        assert(pairs_view(r@) =~= before.push(f[i as int]));
        assert(f.take(i + 1) =~= f.take(i as int).push(f[i as int]));
        i += 1;
    }
    assert(redirect_aliases(a0, from@, to@).take(al@.len() as int) =~= redirect_aliases(a0, from@, to@));
    *al = r;
    assert(alias_olds(pairs_view(al@)) =~= alias_olds(a0));
}

fn rename_ends_exec(e: &mut Vec<(String, String)>, from: &str, to: &str, higher: bool)
    ensures
        pairs_view(final(e)@) == if higher {
            rename_higher(pairs_view(old(e)@), from@, to@)
        } else {
            rename_lower(pairs_view(old(e)@), from@, to@)
        },
{
    let ghost e0 = pairs_view(e@);
    let ghost f = if higher { rename_higher(e0, from@, to@) } else { rename_lower(e0, from@, to@) };
    let mut r: Vec<(String, String)> = Vec::new();
    let mut i: usize = 0;
    while i < e.len()
        invariant
            e0 == pairs_view(e@),
            f == if higher { rename_higher(e0, from@, to@) } else { rename_lower(e0, from@, to@) },
            i <= e@.len(),
            pairs_view(r@) == f.take(i as int),
        decreases e@.len() - i,
    {
        let ghost before = pairs_view(r@);
        assert(e0[i as int] == (e@[i as int].0@, e@[i as int].1@));
        if higher {
            if str_eq(e[i].0.as_str(), from) {
                r.push((to.to_owned(), e[i].1.clone()));
            } else {
                r.push((e[i].0.clone(), e[i].1.clone()));
            }
        } else {
            if str_eq(e[i].1.as_str(), from) {
                r.push((e[i].0.clone(), to.to_owned()));
            } else {
                r.push((e[i].0.clone(), e[i].1.clone()));
            }
        }
        assert(pairs_view(r@) =~= before.push(f[i as int]));
        assert(f.take(i + 1) =~= f.take(i as int).push(f[i as int]));
        i += 1;
    }
    assert(f.take(e@.len() as int) =~= f);
    *e = r;
}

fn conflict_exec(e: &Vec<(String, String)>, from: &str, to: &str, higher: bool) -> (r: bool)
    ensures
        r == if higher {
            higher_conflict(pairs_view(e@), from@, to@)
        } else {
            lower_conflict(pairs_view(e@), from@, to@)
        },
{
    let ghost ev = pairs_view(e@);
    if str_eq(from, to) {
        return false;
    }
    let mut i: usize = 0;
    while i < e.len()
        invariant
            ev == pairs_view(e@),
            from@ != to@,
            i <= e@.len(),
            forall|k: int| 0 <= k < i ==> !(if higher {
                ev[k].0 == from@ && ev.contains((to@, ev[k].1))
            } else {
                ev[k].1 == from@ && ev.contains((ev[k].0, to@))
            }),
        decreases e@.len() - i,
    {
        assert(ev[i as int] == (e@[i as int].0@, e@[i as int].1@));
        if higher {
            if str_eq(e[i].0.as_str(), from) && contains_pair(e, to, e[i].1.as_str()) {
                return true;
            }
        } else {
            if str_eq(e[i].1.as_str(), from) && contains_pair(e, e[i].0.as_str(), to) {
                return true;
            }
        }
        i += 1;
    }
    false
}

/// Renaming an end without a conflict keeps the edges distinct.
proof fn lemma_rename_no_dups(e: Seq<PairView>, from: Seq<char>, to: Seq<char>, higher: bool)
    requires
        no_dups(e),
        higher ==> !higher_conflict(e, from, to),
        !higher ==> !lower_conflict(e, from, to),
    ensures
        higher ==> no_dups(rename_higher(e, from, to)),
        !higher ==> no_dups(rename_lower(e, from, to)),
{
    if higher {
        let r = rename_higher(e, from, to);
        assert forall|a: int, b: int| 0 <= a < r.len() && 0 <= b < r.len() && a != b implies r[a] != r[b] by {
            if r[a] == r[b] {
                if e[a].0 == from && e[b].0 != from {
                    assert(e[b] == (to, e[a].1));
                    assert(e.contains((to, e[a].1)));
                    assert(from == to);
                    assert(e[a] == e[b]);
                } else if e[b].0 == from && e[a].0 != from {
                    assert(e[a] == (to, e[b].1));
                    assert(e.contains((to, e[b].1)));
                    assert(e[a] == e[b]);
                } else {
                    assert(e[a] == e[b]);
                }
            }
        }
    } else {
        let r = rename_lower(e, from, to);
        assert forall|a: int, b: int| 0 <= a < r.len() && 0 <= b < r.len() && a != b implies r[a] != r[b] by {
            if r[a] == r[b] {
                if e[a].1 == from && e[b].1 != from {
                    assert(e[b] == (e[a].0, to));
                    assert(e.contains((e[a].0, to)));
                    assert(e[a] == e[b]);
                } else if e[b].1 == from && e[a].1 != from {
                    assert(e[a] == (e[b].0, to));
                    assert(e.contains((e[b].0, to)));
                    assert(e[a] == e[b]);
                } else {
                    assert(e[a] == e[b]);
                }
            }
        }
    }
}

/// The new ids fit the modification: where ids change, there is one per goal
/// of the subtree, derived from its old id.
pub open spec fn fresh_ids_fit(s: StoreView, id: Seq<char>, np: ModifyParentView, nk: Option<GoalKind>, nids: Seq<Seq<char>>) -> bool {
    match subtree_of(s.goals, id) {
        None => true,
        Some(sub) => {
            let root = sub[0];
            let new_kind = match nk { Some(k) => k, None => root.kind };
            (!(np matches ModifyParentView::Reparent(p) && goal_id_seq(sub).contains(p)) && changes_ids(sub, id, np, nk))
                ==> derived_ids(sub, nids, new_kind, depth_delta(id, parent_after(root, np)))
        },
    }
}

/// The subtree starts with its root.
pub proof fn lemma_levels_first(goals: Seq<GoalView>, root: GoalView, k: nat)
    requires
        k >= 1,
    ensures
        super::levels(goals, root, k).len() >= 1,
        super::levels(goals, root, k)[0] == root,
    decreases k,
{
    if k == 1 {
        assert(super::levels(goals, root, 1) == super::levels(goals, root, 0) + super::level(goals, root, 0));
    } else {
        lemma_levels_first(goals, root, (k - 1) as nat);
        assert(super::levels(goals, root, k) == super::levels(goals, root, (k - 1) as nat) + super::level(goals, root, (k - 1) as nat));
    }
}

proof fn lemma_fold_none(st: StoreView, sub: Seq<GoalView>, nids: Seq<Seq<char>>, k: int, j: int, parent: Option<Seq<char>>, body: Seq<char>)
    requires
        renamed_fold(st, sub, nids, k, parent, body) is None,
        0 <= k <= j,
    ensures
        renamed_fold(st, sub, nids, j, parent, body) is None,
    decreases j - k,
{
    if j > k {
        lemma_fold_none(st, sub, nids, k, j - 1, parent, body);
    }
}

pub open spec fn views_of(v: Seq<String>) -> Seq<Seq<char>> {
    v.map_values(|s: String| s@)
}

impl Store {
    /// Modifies the goal `id`, using `new_ids` (one per goal of its subtree,
    /// in subtree order) where ids change, and the given history id (see
    /// `modify_outcome`). Returns the goal's id afterwards.
    pub fn modify_goal_with_ids(
        &mut self,
        id: &str,
        new_body: Option<&str>,
        new_parent: &ModifyParent,
        new_kind_opt: Option<GoalKind>,
        new_ids: &Vec<String>,
        event_id: String,
        now: &str,
    ) -> (r: Result<String, GoalError>)
        requires
            wf(old(self)@),
            bounded_at(old(self)@.goals, id@),
            modify_safe(old(self)@, id@, new_parent@, new_kind_opt),
            subtree_of(old(self)@.goals, id@) matches Some(sub) ==> (changes_ids(sub, id@, new_parent@, new_kind_opt)
                ==> new_ids@.len() == sub.len()),
        ensures
            wf(final(self)@),
            match modify_outcome(old(self)@, id@, super::ops::opt_str(new_body), new_parent@, new_kind_opt, views_of(new_ids@), event_id@, now@) {
                Ok((v, x)) => r matches Ok(y) && y@ == x && final(self)@ == v,
                Err(e) => r matches Err(y) && y@ == e && final(self)@ == old(self)@,
            },
    {
        let ghost s0 = self@;
        let ghost nv = views_of(new_ids@);
        let subtree = match self.collect_subtree(id) {
            Ok(v) => v,
            Err(e) => {
                return Err(e);
            },
        };
        let ghost sub = goals_view(subtree@);
        let ghost root_v = crate::store::find_goal(s0.goals, id@).unwrap();
        proof {
            lemma_levels_first(s0.goals, root_v, s0.goals.len() + 1);
        }
        assert(sub[0] == subtree@[0]@);
        let mut sids: Vec<String> = Vec::new();
        let mut i: usize = 0;
        while i < subtree.len()
            invariant
                i <= subtree@.len(),
                sids@.len() == i,
                forall|k: int| 0 <= k < i ==> (#[trigger] sids@[k])@ == subtree@[k].id@,
            decreases subtree@.len() - i,
        {
            sids.push(subtree[i].id.clone());
            i += 1;
        }
        assert(views_of(sids@) =~= goal_id_seq(sub));
        assert(sids@.map_values(|s: String| s@) =~= goal_id_seq(sub));
        let root = &subtree[0];
        let new_kind = match new_kind_opt {
            Some(k) => k,
            None => root.kind,
        };
        let new_parent_id: Option<String> = match new_parent {
            ModifyParent::Keep => copy_opt(&root.parent_id),
            ModifyParent::Detach => None,
            ModifyParent::Reparent(pid) => {
                if contains_str(&sids, pid.as_str()) {
                    return Err(GoalError::ReparentUnderDescendant);
                }
                Some(pid.clone())
            },
        };
        let ghost pv = parent_after(sub[0], new_parent@);
        assert(opt_view(new_parent_id) == pv);
        let old_depth = parse_depth(id) as i32;
        let new_depth: i32 = match &new_parent_id {
            Some(pid) => parse_depth(pid.as_str()) as i32 + 1,
            None => 0,
        };
        let delta: i32 = new_depth - old_depth;
        assert(delta as int == depth_delta(id@, pv));
        let id_changes = new_kind != root.kind || delta != 0;
        assert(id_changes == changes_ids(sub, id@, new_parent@, new_kind_opt));
        let body: String = match new_body {
            Some(b) => b.to_owned(),
            None => root.body.clone(),
        };
        if !id_changes {
            let pos = match self.goal_position(id) {
                Some(p) => p,
                None => {
                    return Err(GoalError::NoGoal(id.to_owned()));
                },
            };
            let mut goals = copy_goals(&self.goals);
            let ghost g0 = goals_view(goals@);
            assert(g0[pos as int] == goals@[pos as int]@);
            let old_g = copy_goal(&goals[pos]);
            goals.set(pos, Goal { body, parent_id: new_parent_id, ..old_g });
            assert(goals_view(goals@) =~= g0.update(pos as int, GoalView { body: body@, parent_id: pv, ..g0[pos as int] }));
            let before_t = TableState { goals: copy_goals(&self.goals), edges: copy_pairs(&self.edges), aliases: copy_pairs(&self.aliases) };
            let after_t = TableState { goals: copy_goals(&goals), edges: copy_pairs(&self.edges), aliases: copy_pairs(&self.aliases) };
            let e = LogEntry {
                event_id,
                timestamp: now.to_owned(),
                op: "Modify".to_owned(),
                snapshot: Some(copy_goals(&subtree)),
                new_id: Some(id.to_owned()),
                snapshot_edges: EdgeRecord::Absent,
                change: Some(TableChange { before: before_t, after: after_t }),
                note: None,
            };
            match self.push_event(e) {
                Err(err) => {
                    return Err(err);
                },
                Ok(_) => {},
            }
            let ghost before = self@;
            self.goals = goals;
            assert(goal_id_seq(self@.goals) =~= goal_id_seq(before.goals));
            return Ok(id.to_owned());
        }
        let ghost st0 = StoreView { goals: goals_without(s0.goals, goal_id_seq(sub)), ..s0 };
        let mut goals = super::delete::goals_without_exec(&self.goals, &sids);
        let mut aliases = copy_pairs(&self.aliases);
        let mut edges = copy_pairs(&self.edges);
        proof {
            lemma_goals_without_wf(s0.goals, goal_id_seq(sub));
        }
        let ghost mut st = st0;
        let ghost bv = body@;
        assert(bv == match super::ops::opt_str(new_body) { Some(b) => b, None => sub[0].body });
        let mut k: usize = 0;
        while k < subtree.len()
            invariant
                s0 == self@,
                s0 == old(self)@,
                subtree_of(s0.goals, id@) == Some(sub),
                changes_ids(sub, id@, new_parent@, new_kind_opt),
                !(new_parent@ matches ModifyParentView::Reparent(p) && goal_id_seq(sub).contains(p)),
                pv == parent_after(sub[0], new_parent@),
                bv == body@,
                bv == match super::ops::opt_str(new_body) { Some(b) => b, None => sub[0].body },
                st0 == (StoreView { goals: goals_without(s0.goals, goal_id_seq(sub)), ..s0 }),
                wf(s0),
                sub == goals_view(subtree@),
                views_of(sids@) == goal_id_seq(sub),
                sids@.map_values(|s: String| s@) == goal_id_seq(sub),
                nv == views_of(new_ids@),
                new_ids@.len() == subtree@.len(),
                opt_view(new_parent_id) == pv,
                k <= subtree@.len(),
                renamed_fold(st0, sub, nv, k as int, pv, body@) == Some(st),
                st.goals == goals_view(goals@),
                st.aliases == pairs_view(aliases@),
                st.edges == pairs_view(edges@),
                st.annotations == s0.annotations,
                st.tags == s0.tags,
                st.events == s0.events,
                st.undone == s0.undone,
                no_dups(goal_id_seq(st.goals)),
                forall|i: int| 0 <= i < st.goals.len() ==> (#[trigger] st.goals[i]).kind == id_kind(st.goals[i].id),
                no_dups(alias_olds(st.aliases)),
                no_dups(st.edges),
            decreases subtree@.len() - k,
        {
            let g = &subtree[k];
            let nid = &new_ids[k];
            assert(sub[k as int] == g@);
            assert(nv[k as int] == nid@);
            let parent: Option<String> = if k == 0 {
                copy_opt(&new_parent_id)
            } else {
                match &g.parent_id {
                    None => None,
                    Some(p) => match first_pos_exec(&sids, p.as_str()) {
                        Some(j) => {
                            assert(nv[j as int] == new_ids@[j as int]@);
                            Some(new_ids[j].clone())
                        },
                        None => Some(p.clone()),
                    },
                }
            };
            let b: String = if k == 0 { body.clone() } else { g.body.clone() };
            let ghost step = renamed_step(st, sub, nv, k as int, pv, body@);
            if goal_in(&goals, nid.as_str()) || conflict_exec(&edges, g.id.as_str(), nid.as_str(), true) {
                proof {
                    assert(step is None);
                    lemma_fold_none(st0, sub, nv, k + 1, sub.len() as int, pv, body@);
                }
                return Err(GoalError::DuplicateKey);
            }
            let ghost e_before = pairs_view(edges@);
            rename_ends_exec(&mut edges, g.id.as_str(), nid.as_str(), true);
            if conflict_exec(&edges, g.id.as_str(), nid.as_str(), false) {
                proof {
                    assert(step is None);
                    lemma_fold_none(st0, sub, nv, k + 1, sub.len() as int, pv, body@);
                }
                return Err(GoalError::DuplicateKey);
            }
            proof {
                lemma_rename_no_dups(e_before, g.id@, nid@, true);
                lemma_rename_no_dups(pairs_view(edges@), g.id@, nid@, false);
            }
            rename_ends_exec(&mut edges, g.id.as_str(), nid.as_str(), false);
            let ghost g_before = goals_view(goals@);
            goals.push(Goal { id: nid.clone(), parent_id: parent, body: b, achieved: g.achieved, kind: kind_from_id(nid.as_str()) });
            assert(goals_view(goals@) =~= g_before.push(crate::store::ops::goal_row(nid@, opt_view(parent), b@, g.achieved)));
            upsert_alias_exec(&mut aliases, g.id.as_str(), nid.as_str());
            redirect_aliases_exec(&mut aliases, g.id.as_str(), nid.as_str());
            proof {
                assert(opt_view(parent) == if k == 0 { pv } else { mapped_parent(sub, nv, sub[k as int].parent_id) });
                assert(b@ == if k == 0 { body@ } else { sub[k as int].body });
                let ng = goals_view(goals@);
                assert(goal_id_seq(ng) =~= goal_id_seq(g_before).push(nid@));
                assert forall|a: int, c: int| 0 <= a < goal_id_seq(ng).len() && 0 <= c < goal_id_seq(ng).len() && a != c
                    implies goal_id_seq(ng)[a] != goal_id_seq(ng)[c] by {
                    if a == g_before.len() as int {
                        assert(g_before[c].id == goal_id_seq(g_before)[c]);
                    } else if c == g_before.len() as int {
                        assert(g_before[a].id == goal_id_seq(g_before)[a]);
                    }
                }
                st = step.unwrap();
                assert(st.goals == goals_view(goals@));
                assert(renamed_fold(st0, sub, nv, k + 1, pv, body@) == Some(st));
            }
            k += 1;
        }
        let e = LogEntry {
            event_id,
            timestamp: now.to_owned(),
            op: "Modify".to_owned(),
            snapshot: Some(copy_goals(&subtree)),
            new_id: Some(new_ids[0].clone()),
            snapshot_edges: EdgeRecord::Absent,
            change: Some(TableChange {
                before: TableState { goals: copy_goals(&self.goals), edges: copy_pairs(&self.edges), aliases: copy_pairs(&self.aliases) },
                after: TableState { goals: copy_goals(&goals), edges: copy_pairs(&edges), aliases: copy_pairs(&aliases) },
            }),
            note: None,
        };
        match self.push_event(e) {
            Err(err) => {
                return Err(err);
            },
            Ok(_) => {},
        }
        self.goals = goals;
        self.aliases = aliases;
        self.edges = edges;
        assert(nv[0] == new_ids@[0]@);
        Ok(new_ids[0].clone())
    }
}

impl Store {
    /// Modifies the goal `id`: replaces its text (`new_body`), moves it
    /// (`new_parent`) and changes its kind (`new_kind_opt`). Where its kind or
    /// depth changes, the goal and its subtree get new ids derived from the old
    /// ones (see `modify_outcome`). Returns the goal's id afterwards.
    pub fn modify_goal(
        &mut self,
        id: &str,
        new_body: Option<&str>,
        new_parent: &ModifyParent,
        new_kind_opt: Option<GoalKind>,
        now: &str,
    ) -> (r: Result<String, GoalError>)
        requires
            wf(old(self)@),
            bounded_at(old(self)@.goals, id@),
            modify_safe(old(self)@, id@, new_parent@, new_kind_opt),
        ensures
            wf(final(self)@),
            exists|nids: Seq<Seq<char>>, ebytes: Seq<u8>|
                #![trigger fresh_ids_fit(old(self)@, id@, new_parent@, new_kind_opt, nids), event_id_from_bytes('e', ebytes)]
                {
                &&& fresh_ids_fit(old(self)@, id@, new_parent@, new_kind_opt, nids)
                &&& ebytes.len() == 8
                &&& match modify_outcome(old(self)@, id@, super::ops::opt_str(new_body), new_parent@, new_kind_opt, nids,
                        event_id_from_bytes('e', ebytes), now@) {
                    Ok((v, x)) => r matches Ok(y) && y@ == x && final(self)@ == v,
                    Err(e) => r matches Err(y) && y@ == e && final(self)@ == old(self)@,
                }
            },
    {
        let ghost s0 = self@;
        let subtree = match self.collect_subtree(id) {
            Ok(v) => v,
            Err(e) => {
                assert(fresh_ids_fit(s0, id@, new_parent@, new_kind_opt, Seq::empty()));
                assert(event_id_from_bytes('e', seq![0u8, 0u8, 0u8, 0u8, 0u8, 0u8, 0u8, 0u8]) == event_id_from_bytes('e', seq![0u8, 0u8, 0u8, 0u8, 0u8, 0u8, 0u8, 0u8]));
                return Err(e);
            },
        };
        let ghost sub = goals_view(subtree@);
        let ghost root_v = crate::store::find_goal(s0.goals, id@).unwrap();
        proof {
            lemma_levels_first(s0.goals, root_v, s0.goals.len() + 1);
        }
        assert(sub[0] == subtree@[0]@);
        let mut sids: Vec<String> = Vec::new();
        let mut i: usize = 0;
        while i < subtree.len()
            invariant
                i <= subtree@.len(),
                sids@.len() == i,
                forall|k: int| 0 <= k < i ==> (#[trigger] sids@[k])@ == subtree@[k].id@,
            decreases subtree@.len() - i,
        {
            sids.push(subtree[i].id.clone());
            i += 1;
        }
        assert(sids@.map_values(|s: String| s@) =~= goal_id_seq(sub));
        let root = &subtree[0];
        let new_kind = match new_kind_opt {
            Some(k) => k,
            None => root.kind,
        };
        let new_parent_id: Option<String> = match new_parent {
            ModifyParent::Keep => copy_opt(&root.parent_id),
            ModifyParent::Detach => None,
            ModifyParent::Reparent(pid) => {
                if contains_str(&sids, pid.as_str()) {
                    assert(fresh_ids_fit(s0, id@, new_parent@, new_kind_opt, Seq::empty()));
                    assert(event_id_from_bytes('e', seq![0u8, 0u8, 0u8, 0u8, 0u8, 0u8, 0u8, 0u8]) == event_id_from_bytes('e', seq![0u8, 0u8, 0u8, 0u8, 0u8, 0u8, 0u8, 0u8]));
                    return Err(GoalError::ReparentUnderDescendant);
                }
                Some(pid.clone())
            },
        };
        let ghost pv = parent_after(sub[0], new_parent@);
        assert(opt_view(new_parent_id) == pv);
        let old_depth = parse_depth(id) as i32;
        let new_depth: i32 = match &new_parent_id {
            Some(pid) => parse_depth(pid.as_str()) as i32 + 1,
            None => 0,
        };
        let delta: i32 = new_depth - old_depth;
        assert(delta as int == depth_delta(id@, pv));
        let id_changes = new_kind != root.kind || delta != 0;
        assert(id_changes == changes_ids(sub, id@, new_parent@, new_kind_opt));
        let mut nids: Vec<String> = Vec::new();
        let ghost mut bs: Seq<Seq<u8>> = Seq::empty();
        if id_changes {
            let mut k: usize = 0;
            while k < subtree.len()
                invariant
                    s0 == self@,
                    subtree_of(s0.goals, id@) == Some(sub),
                    sub == goals_view(subtree@),
                    modify_safe(s0, id@, new_parent@, new_kind_opt),
                    changes_ids(sub, id@, new_parent@, new_kind_opt),
                    !(new_parent@ matches ModifyParentView::Reparent(p) && goal_id_seq(sub).contains(p)),
                    pv == parent_after(sub[0], new_parent@),
                    delta as int == depth_delta(id@, pv),
                    new_kind == match new_kind_opt { Some(k) => k, None => sub[0].kind },
                    k <= subtree@.len(),
                    nids@.len() == k,
                    bs.len() == k,
                    forall|j: int| #![trigger nids@[j]] 0 <= j < k ==>
                        bs[j].len() == derive_bytes_needed(sub[j].id, node_kind(sub, j, new_kind), node_depth(sub, j, delta as int))
                        && nids@[j]@ == derived_id(sub[j].id, node_kind(sub, j, new_kind), node_depth(sub, j, delta as int), bs[j]),
                decreases subtree@.len() - k,
            {
                let g = &subtree[k];
                assert(sub[k as int] == g@);
                assert(derivable(sub[k as int].id, node_kind(sub, k as int, new_kind_of(sub, new_kind_opt)),
                    node_depth(sub, k as int, depth_delta(id@, pv))));
                let nd = (parse_depth(g.id.as_str()) as i32 + delta) as u32;
                let kind = if k == 0 { new_kind } else { g.kind };
                assert(kind == node_kind(sub, k as int, new_kind));
                assert(nd as nat == node_depth(sub, k as int, delta as int));
                assert(derivable(sub[k as int].id, kind, nd as nat));
                let nid = derive_id(g.id.as_str(), &kind, nd);
                let ghost b = choose|bytes: Seq<u8>|
                    bytes.len() == derive_bytes_needed(g.id@, kind, nd as nat)
                    && #[trigger] derived_id(g.id@, kind, nd as nat, bytes) == nid@;
                let ghost before = nids@;
                nids.push(nid);
                let ghost bs_before = bs;
                proof {
                    bs = bs.push(b);
                    assert(b.len() == derive_bytes_needed(sub[k as int].id, node_kind(sub, k as int, new_kind), node_depth(sub, k as int, delta as int)));
                    assert(bs[k as int] == b);
                }
                assert(nids@[k as int]@ == derived_id(sub[k as int].id, node_kind(sub, k as int, new_kind), node_depth(sub, k as int, delta as int), b));
                assert forall|j: int| 0 <= j < k implies nids@[j] == before[j] && bs[j] == bs_before[j] by {}
                k += 1;
            }
            let ghost nv = views_of(nids@);
            let ghost dl = delta as int;
            assert(nv.len() == sub.len());
            assert forall|j: int| #![trigger bs[j]] 0 <= j < sub.len() implies derived_at(sub, nv, new_kind, dl, j, bs[j]) by {
                assert(nids@[j]@ == nv[j]);
            }
            assert(derived_all(sub, nv, new_kind, dl, bs));
            assert(derived_ids(sub, nv, new_kind, dl));
        }
        assert(fresh_ids_fit(s0, id@, new_parent@, new_kind_opt, views_of(nids@)));
        let event_id = generate_event_id();
        let r = self.modify_goal_with_ids(id, new_body, new_parent, new_kind_opt, &nids, event_id, now);
        r
    }

    /// Whether `modify_goal` can run on these arguments without overflow
    /// (see `modify_safe`).
    pub fn modify_is_safe(&self, id: &str, new_parent: &ModifyParent, new_kind_opt: Option<GoalKind>) -> (r: bool)
        requires
            wf(self@),
            bounded_at(self@.goals, id@),
        ensures
            r == modify_safe(self@, id@, new_parent@, new_kind_opt),
    {
        let ghost s0 = self@;
        let subtree = match self.collect_subtree(id) {
            Ok(v) => v,
            Err(_) => {
                return true;
            },
        };
        let ghost sub = goals_view(subtree@);
        let ghost root_v = crate::store::find_goal(s0.goals, id@).unwrap();
        proof {
            lemma_levels_first(s0.goals, root_v, s0.goals.len() + 1);
        }
        assert(sub[0] == subtree@[0]@);
        let mut sids: Vec<String> = Vec::new();
        let mut i: usize = 0;
        while i < subtree.len()
            invariant
                i <= subtree@.len(),
                sids@.len() == i,
                forall|k: int| 0 <= k < i ==> (#[trigger] sids@[k])@ == subtree@[k].id@,
            decreases subtree@.len() - i,
        {
            sids.push(subtree[i].id.clone());
            i += 1;
        }
        assert(sids@.map_values(|s: String| s@) =~= goal_id_seq(sub));
        let root = &subtree[0];
        let new_kind = match new_kind_opt {
            Some(k) => k,
            None => root.kind,
        };
        let new_parent_id: Option<String> = match new_parent {
            ModifyParent::Keep => copy_opt(&root.parent_id),
            ModifyParent::Detach => None,
            ModifyParent::Reparent(pid) => {
                if contains_str(&sids, pid.as_str()) {
                    return true;
                }
                Some(pid.clone())
            },
        };
        let ghost pv = parent_after(sub[0], new_parent@);
        assert(opt_view(new_parent_id) == pv);
        let new_depth: i64 = match &new_parent_id {
            Some(pid) => {
                if !crate::ids::depth_fits_exec(pid.as_str()) {
                    return false;
                }
                let d = parse_depth(pid.as_str()) as i32;
                if d == i32::MAX {
                    return false;
                }
                d as i64 + 1
            },
            None => 0,
        };
        if !crate::ids::depth_fits_exec(id) {
            return false;
        }
        let old_depth = parse_depth(id) as i32;
        let delta: i64 = new_depth - old_depth as i64;
        if delta < i32::MIN as i64 || delta > i32::MAX as i64 {
            return false;
        }
        assert(delta as int == depth_delta(id@, pv));
        let id_changes = new_kind != root.kind || delta != 0;
        assert(id_changes == changes_ids(sub, id@, new_parent@, new_kind_opt));
        if !id_changes {
            return true;
        }
        let mut k: usize = 0;
        while k < subtree.len()
            invariant
                s0 == self@,
                subtree_of(s0.goals, id@) == Some(sub),
                sub == goals_view(subtree@),
                changes_ids(sub, id@, new_parent@, new_kind_opt),
                !(new_parent@ matches ModifyParentView::Reparent(p) && goal_id_seq(sub).contains(p)),
                pv == parent_after(sub[0], new_parent@),
                delta as int == depth_delta(id@, pv),
                pv matches Some(p) ==> id_depth(p) <= u32::MAX && depth32(p) < i32::MAX,
                id_depth(id@) <= u32::MAX,
                k <= subtree@.len(),
                i32::MIN <= delta <= i32::MAX,
                new_kind == new_kind_of(sub, new_kind_opt),
                forall|j: int| 0 <= j < k ==> {
                    &&& derivable(#[trigger] sub[j].id, node_kind(sub, j, new_kind), node_depth(sub, j, delta as int))
                    &&& i32::MIN <= depth32(sub[j].id) + delta <= i32::MAX
                },
            decreases subtree@.len() - k,
        {
            let g = &subtree[k];
            assert(sub[k as int] == g@);
            if !crate::ids::depth_fits_exec(g.id.as_str()) {
                assert(!derivable(sub[k as int].id, node_kind(sub, k as int, new_kind), node_depth(sub, k as int, delta as int)));
                return false;
            }
            let d = parse_depth(g.id.as_str()) as i32 as i64 + delta;
            if d < i32::MIN as i64 || d > i32::MAX as i64 {
                assert(!(i32::MIN <= depth32(sub[k as int].id) + delta <= i32::MAX));
                return false;
            }
            let nd = d as i32 as u32;
            let kind = if k == 0 { new_kind } else { g.kind };
            assert(kind == node_kind(sub, k as int, new_kind));
            assert(nd as nat == node_depth(sub, k as int, delta as int));
            if !crate::ids::derivable_exec(g.id.as_str(), &kind, nd) {
                assert(!derivable(sub[k as int].id, node_kind(sub, k as int, new_kind), node_depth(sub, k as int, delta as int)));
                return false;
            }
            k += 1;
        }
        true
    }
}

} // verus!
