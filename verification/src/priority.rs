//! The priority order of goals: a topological order of the ranking edges in
//! which, among the goals that are free to come next, linked goals (those with
//! a ranking edge) come before unlinked ones and newer goals (higher row ids)
//! before older ones.
use vstd::prelude::*;
use crate::model::{Goal, pairs_view, PairView};
use crate::text::str_eq;

verus! {

pub open spec fn goal_ids(goals: Seq<Goal>) -> Seq<Seq<char>> {
    goals.map_values(|g: Goal| g.id@)
}

/// No id occurs twice.
pub open spec fn distinct(ids: Seq<Seq<char>>) -> bool {
    forall|i: int, j: int| 0 <= i < ids.len() && 0 <= j < ids.len() && i != j ==> ids[i] != ids[j]
}

/// The position of `x` in `ids`, or -1.
pub open spec fn index_of(ids: Seq<Seq<char>>, x: Seq<char>) -> int {
    if ids.contains(x) {
        choose|i: int| 0 <= i < ids.len() && ids[i] == x
    } else {
        -1
    }
}

/// The edges whose two ends are both goals, as pairs of positions, in the
/// order of the edges.
pub open spec fn active_pairs(ids: Seq<Seq<char>>, e: Seq<PairView>) -> Seq<(int, int)>
    decreases e.len(),
{
    if e.len() == 0 {
        Seq::empty()
    } else {
        let rest = active_pairs(ids, e.drop_last());
        let x = e.last();
        if ids.contains(x.0) && ids.contains(x.1) {
            rest.push((index_of(ids, x.0), index_of(ids, x.1)))
        } else {
            rest
        }
    }
}

/// The row id that the table gives `x` (the first entry for it), or 0.
pub open spec fn rowid_lookup(r: Seq<(Seq<char>, i64)>, x: Seq<char>) -> i64
    decreases r.len(),
{
    if r.len() == 0 {
        0
    } else if r[0].0 == x {
        r[0].1
    } else {
        rowid_lookup(r.drop_first(), x)
    }
}

pub open spec fn rowids_view(r: Seq<(String, i64)>) -> Seq<(Seq<char>, i64)> {
    r.map_values(|p: (String, i64)| (p.0@, p.1))
}

/// Whether goal `i` has a ranking edge.
pub open spec fn linked(ap: Seq<(int, int)>, i: int) -> bool {
    exists|k: int| 0 <= k < ap.len() && (ap[k].0 == i || ap[k].1 == i)
}

/// The sort key of each goal: linked first, then higher row id.
pub open spec fn keys(ids: Seq<Seq<char>>, ap: Seq<(int, int)>, r: Seq<(Seq<char>, i64)>) -> Seq<(bool, i64)> {
    Seq::new(ids.len(), |i: int| (linked(ap, i), rowid_lookup(r, ids[i])))
}

/// Goal `i` has a strictly higher sort key than goal `j`.
pub open spec fn better(k: Seq<(bool, i64)>, i: int, j: int) -> bool {
    (k[i].0 && !k[j].0) || (k[i].0 == k[j].0 && k[i].1 > k[j].1)
}

/// Goal `i` comes before goal `j` among free goals: a higher key, or an equal
/// key and an earlier position.
pub open spec fn preferred(k: Seq<(bool, i64)>, i: int, j: int) -> bool {
    better(k, i, j) || (!better(k, j, i) && i < j)
}

/// Goal `i` is not placed yet and every goal ranked above it is.
pub open spec fn free(ap: Seq<(int, int)>, n: int, order: Seq<int>, i: int) -> bool {
    &&& 0 <= i < n
    &&& !order.contains(i)
    &&& forall|k: int| 0 <= k < ap.len() && ap[k].1 == i ==> order.contains(ap[k].0)
}

/// The goal placed next: the free goal preferred over every other free goal.
pub open spec fn pick(ap: Seq<(int, int)>, k: Seq<(bool, i64)>, n: int, order: Seq<int>) -> Option<int> {
    if exists|i: int| free(ap, n, order, i) {
        Some(
            choose|i: int|
                free(ap, n, order, i) && forall|j: int| free(ap, n, order, j) && j != i ==> preferred(k, i, j),
        )
    } else {
        None
    }
}

/// Places up to `fuel` more goals, each time the one that `pick` names.
pub open spec fn greedy(ap: Seq<(int, int)>, k: Seq<(bool, i64)>, n: int, order: Seq<int>, fuel: nat) -> Seq<int>
    decreases fuel,
{
    if fuel == 0 {
        order
    } else {
        match pick(ap, k, n, order) {
            Some(i) => greedy(ap, k, n, order.push(i), (fuel - 1) as nat),
            None => order,
        }
    }
}

/// The positions below `n` that `g` lacks, in increasing order.
pub open spec fn missing(g: Seq<int>, n: int) -> Seq<int>
    decreases n,
{
    if n <= 0 {
        Seq::empty()
    } else if g.contains(n - 1) {
        missing(g, n - 1)
    } else {
        missing(g, n - 1).push(n - 1)
    }
}

/// The priority order as positions: the greedy topological order, then the
/// goals it cannot place (those on a ranking cycle or below one) in their
/// order in the input.
pub open spec fn priority_positions(ids: Seq<Seq<char>>, e: Seq<PairView>, r: Seq<(Seq<char>, i64)>) -> Seq<int> {
    let ap = active_pairs(ids, e);
    let n = ids.len() as int;
    let g = greedy(ap, keys(ids, ap, r), n, Seq::empty(), n as nat);
    g + missing(g, n)
}

/// The priority order of the goals' ids.
pub open spec fn priority_order(ids: Seq<Seq<char>>, e: Seq<PairView>, r: Seq<(Seq<char>, i64)>) -> Seq<Seq<char>> {
    priority_positions(ids, e, r).map_values(|i: int| ids[i])
}

proof fn lemma_unique_index(ids: Seq<Seq<char>>, i: int)
    requires
        distinct(ids),
        0 <= i < ids.len(),
    ensures
        index_of(ids, ids[i]) == i,
{
    assert(ids.contains(ids[i]));
}

pub open spec fn views(v: Seq<String>) -> Seq<Seq<char>> {
    v.map_values(|s: String| s@)
}

/// Positions as integers.
pub open spec fn ap_int(ap: Seq<(usize, usize)>) -> Seq<(int, int)> {
    ap.map_values(|p: (usize, usize)| (p.0 as int, p.1 as int))
}

fn position_of(ids: &Vec<String>, x: &String) -> (r: Option<usize>)
    requires
        distinct(views(ids@)),
    ensures
        match r {
            Some(i) => i < ids@.len() && views(ids@).contains(x@) && index_of(views(ids@), x@) == i,
            None => !views(ids@).contains(x@),
        },
{
    let ghost v = views(ids@);
    let mut i: usize = 0;
    while i < ids.len()
        invariant
            v == views(ids@),
            distinct(v),
            i <= ids@.len(),
            forall|k: int| 0 <= k < i ==> v[k] != x@,
        decreases ids@.len() - i,
    {
        if str_eq(ids[i].as_str(), x.as_str()) {
            proof {
                assert(v[i as int] == x@);
                lemma_unique_index(v, i as int);
            }
            return Some(i);
        }
        i += 1;
    }
    proof {
        if v.contains(x@) {
            let k = choose|k: int| 0 <= k < v.len() && v[k] == x@;
            assert(false);
        }
    }
    None
}

/// Whether goal `i` is free, given which goals are placed.
fn is_free(ap: &Vec<(usize, usize)>, placed: &Vec<bool>, i: usize, Ghost(order): Ghost<Seq<int>>) -> (r: bool)
    requires
        i < placed@.len(),
        forall|k: int| 0 <= k < ap@.len() ==> (#[trigger] ap@[k]).0 < placed@.len(),
        forall|x: int| 0 <= x < placed@.len() ==> placed@[x] == order.contains(x),
    ensures
        r == free(ap_int(ap@), placed@.len() as int, order, i as int),
{
    let ghost aps = ap_int(ap@);
    if placed[i] {
        return false;
    }
    let mut k: usize = 0;
    while k < ap.len()
        invariant
            aps == ap_int(ap@),
            i < placed@.len(),
            !order.contains(i as int),
            forall|k: int| 0 <= k < ap@.len() ==> (#[trigger] ap@[k]).0 < placed@.len(),
            forall|x: int| 0 <= x < placed@.len() ==> placed@[x] == order.contains(x),
            k <= ap@.len(),
            forall|j: int| 0 <= j < k && aps[j].1 == i ==> order.contains(aps[j].0),
        decreases ap@.len() - k,
    {
        let (h, l) = ap[k];
        assert(aps[k as int] == (h as int, l as int));
        if l == i && !placed[h] {
            return false;
        }
        k += 1;
    }
    true
}

fn better_exec(keys: &Vec<(bool, i64)>, i: usize, j: usize) -> (r: bool)
    requires
        i < keys@.len(),
        j < keys@.len(),
    ensures
        r == better(keys@, i as int, j as int),
{
    let (li, ri) = keys[i];
    let (lj, rj) = keys[j];
    (li && !lj) || (li == lj && ri > rj)
}

proof fn lemma_preferred_unique(ks: Seq<(bool, i64)>, i: int, j: int)
    requires
        i != j,
        preferred(ks, i, j),
        0 <= i < ks.len(),
        0 <= j < ks.len(),
    ensures
        !preferred(ks, j, i),
{
}

/// The goal that `pick` names.
fn pick_exec(ap: &Vec<(usize, usize)>, keys: &Vec<(bool, i64)>, placed: &Vec<bool>, Ghost(order): Ghost<Seq<int>>) -> (r: Option<usize>)
    requires
        keys@.len() == placed@.len(),
        forall|k: int| 0 <= k < ap@.len() ==> (#[trigger] ap@[k]).0 < placed@.len(),
        forall|x: int| 0 <= x < placed@.len() ==> placed@[x] == order.contains(x),
    ensures
        match r {
            Some(i) => i < placed@.len() && pick(ap_int(ap@), keys@, placed@.len() as int, order) == Some(i as int),
            None => pick(ap_int(ap@), keys@, placed@.len() as int, order) is None,
        },
{
    let ghost ks = keys@;
    let ghost aps = ap_int(ap@);
    let ghost n = placed@.len() as int;
    let mut best: Option<usize> = None;
    let mut i: usize = 0;
    while i < placed.len()
        invariant
            ks == keys@,
            aps == ap_int(ap@),
            n == placed@.len(),
            keys@.len() == placed@.len(),
            forall|k: int| 0 <= k < ap@.len() ==> (#[trigger] ap@[k]).0 < placed@.len(),
            forall|x: int| 0 <= x < placed@.len() ==> placed@[x] == order.contains(x),
            i <= placed@.len(),
            match best {
                Some(b) => b < i && free(aps, n, order, b as int)
                    && forall|j: int| 0 <= j < i && j != b && free(aps, n, order, j) ==> preferred(ks, b as int, j),
                None => forall|j: int| 0 <= j < i ==> !free(aps, n, order, j),
            },
        decreases placed@.len() - i,
    {
        if is_free(ap, placed, i, Ghost(order)) {
            match best {
                None => {
                    best = Some(i);
                },
                Some(b) => {
                    if better_exec(keys, i, b) {
                        proof {
                            assert forall|j: int| 0 <= j < i + 1 && j != i && free(aps, n, order, j) implies preferred(ks, i as int, j) by {
                                if j != b {
                                    assert(preferred(ks, b as int, j));
                                }
                            }
                        }
                        best = Some(i);
                    } else {
                        assert(preferred(ks, b as int, i as int));
                    }
                },
            }
        }
        i += 1;
    }
    match best {
        None => {
            assert(!exists|j: int| free(aps, n, order, j));
            None
        },
        Some(b) => {
            assert(free(aps, n, order, b as int) && forall|j: int| free(aps, n, order, j) && j != b ==> preferred(ks, b as int, j));
            let ghost c = choose|c: int|
                free(aps, n, order, c) && forall|j: int| free(aps, n, order, j) && j != c ==> preferred(ks, c, j);
            proof {
                if c != b as int {
                    assert(preferred(ks, c, b as int));
                    assert(preferred(ks, b as int, c));
                    lemma_preferred_unique(ks, c, b as int);
                }
            }
            Some(b)
        },
    }
}

fn collect_ids(goals: &[Goal]) -> (ids: Vec<String>)
    ensures
        views(ids@) == goal_ids(goals@),
{
    let mut ids: Vec<String> = Vec::new();
    let mut i: usize = 0;
    while i < goals.len()
        invariant
            i <= goals@.len(),
            ids@.len() == i,
            forall|k: int| 0 <= k < i ==> (#[trigger] ids@[k])@ == goals@[k].id@,
        decreases goals@.len() - i,
    {
        ids.push(goals[i].id.clone());
        i += 1;
    }
    assert(views(ids@) =~= goal_ids(goals@));
    ids
}

fn active_positions(ids: &Vec<String>, edges: &[(String, String)]) -> (ap: Vec<(usize, usize)>)
    requires
        distinct(views(ids@)),
    ensures
        ap_int(ap@) == active_pairs(views(ids@), pairs_view(edges@)),
        forall|j: int| 0 <= j < ap@.len() ==> (#[trigger] ap@[j]).0 < ids@.len() && ap@[j].1 < ids@.len(),
{
    let ghost idv = views(ids@);
    let ghost e = pairs_view(edges@);
    let mut ap: Vec<(usize, usize)> = Vec::new();
    let mut k: usize = 0;
    while k < edges.len()
        invariant
            idv == views(ids@),
            e == pairs_view(edges@),
            distinct(idv),
            k <= edges@.len(),
            ap_int(ap@) == active_pairs(idv, e.take(k as int)),
            forall|j: int| 0 <= j < ap@.len() ==> (#[trigger] ap@[j]).0 < ids@.len() && ap@[j].1 < ids@.len(),
        decreases edges@.len() - k,
    {
        assert(e.take(k + 1).drop_last() =~= e.take(k as int));
        assert(e.take(k + 1).last() == e[k as int]);
        let hp = position_of(ids, &edges[k].0);
        let lp = position_of(ids, &edges[k].1);
        match (hp, lp) {
            (Some(h), Some(l)) => {
                ap.push((h, l));
                assert(ap_int(ap@) =~= active_pairs(idv, e.take(k as int)).push((h as int, l as int)));
            },
            _ => {},
        }
        k += 1;
    }
    assert(e.take(edges@.len() as int) =~= e);
    ap
}

fn rowid_of(rowids: &[(String, i64)], id: &String) -> (rid: i64)
    ensures
        rid == rowid_lookup(rowids_view(rowids@), id@),
{
    let ghost r = rowids_view(rowids@);
    let mut t: usize = 0;
    assert(r.subrange(0, r.len() as int) =~= r);
    while t < rowids.len()
        invariant
            r == rowids_view(rowids@),
            t <= rowids@.len(),
            rowid_lookup(r, id@) == rowid_lookup(r.subrange(t as int, r.len() as int), id@),
        decreases rowids@.len() - t,
    {
        let ghost rest = r.subrange(t as int, r.len() as int);
        assert(rest.drop_first() =~= r.subrange(t + 1, r.len() as int));
        assert(rest[0] == (rowids@[t as int].0@, rowids@[t as int].1));
        if str_eq(rowids[t].0.as_str(), id.as_str()) {
            return rowids[t].1;
        }
        t += 1;
    }
    0
}

fn compute_keys(ids: &Vec<String>, ap: &Vec<(usize, usize)>, rowids: &[(String, i64)]) -> (keyv: Vec<(bool, i64)>)
    ensures
        keyv@ == keys(views(ids@), ap_int(ap@), rowids_view(rowids@)),
{
    let ghost idv = views(ids@);
    let ghost aps = ap_int(ap@);
    let ghost ks = keys(idv, aps, rowids_view(rowids@));
    let mut keyv: Vec<(bool, i64)> = Vec::new();
    let mut i: usize = 0;
    while i < ids.len()
        invariant
            idv == views(ids@),
            aps == ap_int(ap@),
            ks == keys(idv, aps, rowids_view(rowids@)),
            i <= ids@.len(),
            keyv@.len() == i,
            forall|j: int| 0 <= j < i ==> keyv@[j] == ks[j],
        decreases ids@.len() - i,
    {
        let mut is_linked = false;
        let mut k: usize = 0;
        while k < ap.len()
            invariant
                aps == ap_int(ap@),
                k <= ap@.len(),
                is_linked == exists|j: int| 0 <= j < k && (aps[j].0 == i || aps[j].1 == i),
            decreases ap@.len() - k,
        {
            let (h, l) = ap[k];
            assert(aps[k as int] == (h as int, l as int));
            if h == i || l == i {
                is_linked = true;
            }
            k += 1;
        }
        let rid = rowid_of(rowids, &ids[i]);
        assert(idv[i as int] == ids@[i as int]@);
        keyv.push((is_linked, rid));
        i += 1;
    }
    assert(keyv@ =~= ks);
    keyv
}

fn place_greedily(ap: &Vec<(usize, usize)>, keyv: &Vec<(bool, i64)>) -> (res: (Vec<usize>, Vec<bool>))
    requires
        forall|j: int| 0 <= j < ap@.len() ==> (#[trigger] ap@[j]).0 < keyv@.len() && ap@[j].1 < keyv@.len(),
    ensures
        res.1@.len() == keyv@.len(),
        res.0@.map_values(|x: usize| x as int) == greedy(ap_int(ap@), keyv@, keyv@.len() as int, Seq::empty(), keyv@.len() as nat),
        forall|x: int| 0 <= x < keyv@.len() ==> res.1@[x] == res.0@.map_values(|y: usize| y as int).contains(x),
        forall|j: int| 0 <= j < res.0@.len() ==> res.0@[j] < keyv@.len(),
{
    let ghost aps = ap_int(ap@);
    let ghost ks = keyv@;
    let n = keyv.len();
    let mut placed: Vec<bool> = Vec::new();
    let mut i: usize = 0;
    while i < n
        invariant
            i <= n,
            placed@.len() == i,
            forall|x: int| 0 <= x < i ==> !placed@[x],
        decreases n - i,
    {
        placed.push(false);
        i += 1;
    }
    let mut order_pos: Vec<usize> = Vec::new();
    assert(order_pos@.map_values(|x: usize| x as int) =~= Seq::<int>::empty());
    let mut step: usize = 0;
    let mut stopped = false;
    while step < n && !stopped
        invariant
            aps == ap_int(ap@),
            ks == keyv@,
            n == keyv@.len(),
            placed@.len() == n,
            forall|j: int| 0 <= j < ap@.len() ==> (#[trigger] ap@[j]).0 < n && ap@[j].1 < n,
            forall|x: int| 0 <= x < n ==> placed@[x] == order_pos@.map_values(|y: usize| y as int).contains(x),
            step <= n,
            order_pos@.len() == step,
            forall|j: int| 0 <= j < order_pos@.len() ==> order_pos@[j] < n,
            greedy(aps, ks, n as int, Seq::empty(), n as nat)
                == greedy(aps, ks, n as int, order_pos@.map_values(|y: usize| y as int), (n - step) as nat),
            stopped ==> pick(aps, ks, n as int, order_pos@.map_values(|y: usize| y as int)) is None,
        decreases n - step + (if stopped { 0int } else { 1int }),
    {
        let ghost g = order_pos@.map_values(|y: usize| y as int);
        let p = pick_exec(ap, keyv, &placed, Ghost(g));
        match p {
            None => {
                stopped = true;
            },
            Some(b) => {
                order_pos.push(b);
                placed.set(b, true);
                let ghost g2 = order_pos@.map_values(|y: usize| y as int);
                assert(g2 =~= g.push(b as int));
                assert forall|x: int| 0 <= x < n implies placed@[x] == g2.contains(x) by {
                    if x == b {
                        assert(g2[g2.len() - 1] == x);
                    } else {
                        if g.contains(x) {
                            let k = choose|k: int| 0 <= k < g.len() && g[k] == x;
                            assert(g2[k] == x);
                        }
                        if g2.contains(x) {
                            let k = choose|k: int| 0 <= k < g2.len() && g2[k] == x;
                            assert(k < g.len());
                            assert(g[k] == x);
                        }
                    }
                }
                step += 1;
            },
        }
    }
    (order_pos, placed)
}

/// The ids of the goals in priority order: a topological order of the
/// ranking edges between the goals (`edges` holds `(higher, lower)` pairs)
/// where, among the goals free to come next, a goal with a ranking edge comes
/// before one without, then a higher row id before a lower (a goal that
/// `rowids` does not list has row id 0), then the earlier goal. Goals that
/// no such order can place (on or below a ranking cycle) come last, in their
/// order in the input.
pub fn compute_priority_order(goals: &[Goal], edges: &[(String, String)], rowids: &[(String, i64)]) -> (order: Vec<String>)
    requires
        distinct(goal_ids(goals@)),
    ensures
        views(order@) == priority_order(goal_ids(goals@), pairs_view(edges@), rowids_view(rowids@)),
{
    let ghost idv = goal_ids(goals@);
    let ghost e = pairs_view(edges@);
    let ghost r = rowids_view(rowids@);
    let ids = collect_ids(goals);
    let n = ids.len();
    let ap = active_positions(&ids, edges);
    let keyv = compute_keys(&ids, &ap, rowids);
    let (mut order_pos, placed) = place_greedily(&ap, &keyv);
    let ghost g = order_pos@.map_values(|y: usize| y as int);
    let mut i: usize = 0;
    while i < n
        invariant
            n == ids@.len(),
            n == keyv@.len(),
            placed@.len() == n,
            forall|x: int| 0 <= x < n ==> placed@[x] == g.contains(x),
            i <= n,
            order_pos@.map_values(|y: usize| y as int) == g + missing(g, i as int),
            forall|j: int| 0 <= j < order_pos@.len() ==> order_pos@[j] < n,
        decreases n - i,
    {
        let ghost before = order_pos@.map_values(|y: usize| y as int);
        assert(missing(g, i + 1) == if g.contains(i as int) {
            missing(g, i as int)
        } else {
            missing(g, i as int).push(i as int)
        });
        if !placed[i] {
            order_pos.push(i);
            assert(order_pos@.map_values(|y: usize| y as int) =~= before.push(i as int));
        }
        assert(order_pos@.map_values(|y: usize| y as int) =~= g + missing(g, i + 1));
        i += 1;
    }
    let ghost full = order_pos@.map_values(|y: usize| y as int);
    assert(full == priority_positions(idv, e, r));
    let mut result: Vec<String> = Vec::new();
    let mut j: usize = 0;
    while j < order_pos.len()
        invariant
            idv == views(ids@),
            n == ids@.len(),
            full == order_pos@.map_values(|y: usize| y as int),
            forall|x: int| 0 <= x < order_pos@.len() ==> order_pos@[x] < n,
            j <= order_pos@.len(),
            result@.len() == j,
            forall|x: int| 0 <= x < j ==> (#[trigger] result@[x])@ == idv[full[x]],
        decreases order_pos@.len() - j,
    {
        let p = order_pos[j];
        assert(idv[p as int] == ids@[p as int]@);
        assert(full[j as int] == p as int);
        result.push(ids[p].clone());
        j += 1;
    }
    assert(views(result@) =~= full.map_values(|x: int| idv[x]));
    result
}

} // verus!
