//! Facts about the priority order: it lists every goal once, and where the
//! rankings have no cycle it puts each ranked goal above the goals it is
//! ranked over.
use vstd::prelude::*;
use vstd::set_lib::{lemma_int_range, lemma_len_subset, set_int_range};
use crate::graph::{is_path, reaches};
use crate::model::PairView;
use crate::priority::{active_pairs, better, distinct, free, greedy, index_of, keys, missing, pick, preferred, priority_positions};

verus! {

/// Every goal ranked above a goal of `order` comes before it in `order`.
pub open spec fn respects(ap: Seq<(int, int)>, order: Seq<int>) -> bool {
    forall|t: int, k: int|
        #![trigger order[t], ap[k]]
        0 <= t < order.len() && 0 <= k < ap.len() && ap[k].1 == order[t] ==> order.take(t).contains(ap[k].0)
}

/// The positions all lie in `0..n`.
pub open spec fn in_range(s: Seq<int>, n: int) -> bool {
    forall|k: int| 0 <= k < s.len() ==> 0 <= #[trigger] s[k] < n
}

/// Distinct positions in `0..n` number at most `n`, and fewer where one
/// position is left out.
pub proof fn lemma_distinct_len(s: Seq<int>, n: int, x: Option<int>)
    requires
        0 <= n,
        s.no_duplicates(),
        in_range(s, n),
        x matches Some(y) ==> 0 <= y < n && !s.contains(y),
    ensures
        s.len() <= n,
        x is Some ==> s.len() < n,
{
    s.unique_seq_to_set();
    lemma_int_range(0, n);
    let r = set_int_range(0, n);
    let target = match x {
        Some(y) => r.remove(y),
        None => r,
    };
    assert(s.to_set().subset_of(target)) by {
        assert forall|v: int| s.to_set().contains(v) implies target.contains(v) by {
            let k = choose|k: int| 0 <= k < s.len() && s[k] == v;
            assert(0 <= s[k] < n);
        }
    }
    lemma_len_subset(s.to_set(), target);
}

/// Each pair of positions stands for an edge between two goals.
pub proof fn lemma_active_pair_edge(ids: Seq<Seq<char>>, e: Seq<PairView>, j: int)
    requires
        0 <= j < active_pairs(ids, e).len(),
    ensures
        0 <= active_pairs(ids, e)[j].0 < ids.len(),
        0 <= active_pairs(ids, e)[j].1 < ids.len(),
        e.contains((ids[active_pairs(ids, e)[j].0], ids[active_pairs(ids, e)[j].1])),
    decreases e.len(),
{
    let t = e.drop_last();
    let rest = active_pairs(ids, t);
    if j < rest.len() {
        lemma_active_pair_edge(ids, t, j);
        assert(active_pairs(ids, e)[j] == rest[j]);
        let x = (ids[rest[j].0], ids[rest[j].1]);
        let k = choose|k: int| 0 <= k < t.len() && t[k] == x;
        assert(e[k] == x);
    } else {
        let x = e.last();
        assert(active_pairs(ids, e)[j] == (index_of(ids, x.0), index_of(ids, x.1)));
        assert(e[e.len() - 1] == x);
    }
}

/// Each edge between two goals has its pair of positions.
pub proof fn lemma_edge_active_pair(ids: Seq<Seq<char>>, e: Seq<PairView>, x: PairView)
    requires
        e.contains(x),
        ids.contains(x.0),
        ids.contains(x.1),
    ensures
        active_pairs(ids, e).contains((index_of(ids, x.0), index_of(ids, x.1))),
    decreases e.len(),
{
    let t = e.drop_last();
    let rest = active_pairs(ids, t);
    let p = (index_of(ids, x.0), index_of(ids, x.1));
    if e.last() == x {
        assert(active_pairs(ids, e) == rest.push(p));
        assert(active_pairs(ids, e)[rest.len() as int] == p);
    } else {
        let k = choose|k: int| 0 <= k < e.len() && e[k] == x;
        assert(t[k] == x);
        lemma_edge_active_pair(ids, t, x);
        let m = choose|m: int| 0 <= m < rest.len() && rest[m] == p;
        let y = e.last();
        if ids.contains(y.0) && ids.contains(y.1) {
            assert(active_pairs(ids, e)[m] == p);
        } else {
            assert(active_pairs(ids, e)[m] == p);
        }
    }
}

/// Among the free goals below `m`, one is preferred over all others.
proof fn lemma_best_upto(ap: Seq<(int, int)>, ks: Seq<(bool, i64)>, n: int, order: Seq<int>, m: int)
    requires
        0 <= m,
        exists|i: int| 0 <= i < m && free(ap, n, order, i),
    ensures
        exists|b: int|
            0 <= b < m && free(ap, n, order, b) && forall|j: int|
                0 <= j < m && j != b && free(ap, n, order, j) ==> preferred(ks, b, j),
    decreases m,
{
    let m1 = m - 1;
    if exists|i: int| 0 <= i < m1 && free(ap, n, order, i) {
        lemma_best_upto(ap, ks, n, order, m1);
        let b = choose|b: int|
            0 <= b < m1 && free(ap, n, order, b) && forall|j: int|
                0 <= j < m1 && j != b && free(ap, n, order, j) ==> preferred(ks, b, j);
        if free(ap, n, order, m1) && better(ks, m1, b) {
            assert forall|j: int| 0 <= j < m && j != m1 && free(ap, n, order, j) implies preferred(ks, m1, j) by {
                if j != b {
                    assert(preferred(ks, b, j));
                }
            }
        } else {
            assert forall|j: int| 0 <= j < m && j != b && free(ap, n, order, j) implies preferred(ks, b, j) by {
                if j != m1 {
                    assert(preferred(ks, b, j));
                }
            }
        }
    } else {
        assert(free(ap, n, order, m1));
        assert forall|j: int| 0 <= j < m && j != m1 && free(ap, n, order, j) implies preferred(ks, m1, j) by {
            assert(0 <= j < m1);
        }
    }
}

/// The goal that `pick` names is free.
proof fn lemma_pick_free(ap: Seq<(int, int)>, ks: Seq<(bool, i64)>, n: int, order: Seq<int>)
    ensures
        pick(ap, ks, n, order) matches Some(i) ==> free(ap, n, order, i),
{
    if exists|i: int| free(ap, n, order, i) {
        let i = choose|i: int| free(ap, n, order, i);
        assert(0 <= i < n);
        lemma_best_upto(ap, ks, n, order, n);
        let b = choose|b: int|
            0 <= b < n && free(ap, n, order, b) && forall|j: int|
                0 <= j < n && j != b && free(ap, n, order, j) ==> preferred(ks, b, j);
        assert(free(ap, n, order, b) && forall|j: int| free(ap, n, order, j) && j != b ==> preferred(ks, b, j));
    }
}

/// What the greedy placement keeps: distinct positions in `0..n`, each after
/// the goals ranked above it; it stops early only where no goal is free.
proof fn lemma_greedy(ap: Seq<(int, int)>, ks: Seq<(bool, i64)>, n: int, order: Seq<int>, fuel: nat)
    requires
        order.no_duplicates(),
        in_range(order, n),
        respects(ap, order),
    ensures
        greedy(ap, ks, n, order, fuel).no_duplicates(),
        in_range(greedy(ap, ks, n, order, fuel), n),
        respects(ap, greedy(ap, ks, n, order, fuel)),
        greedy(ap, ks, n, order, fuel).len() == order.len() + fuel || pick(ap, ks, n, greedy(ap, ks, n, order, fuel)) is None,
    decreases fuel,
{
    if fuel > 0 {
        lemma_pick_free(ap, ks, n, order);
        match pick(ap, ks, n, order) {
            Some(i) => {
                let o2 = order.push(i);
                assert(o2.no_duplicates()) by {
                    assert forall|a: int, b: int| 0 <= a < o2.len() && 0 <= b < o2.len() && a != b implies o2[a] != o2[b] by {
                        if a == order.len() {
                            assert(order[b] == o2[b]);
                        } else if b == order.len() {
                            assert(order[a] == o2[a]);
                        }
                    }
                }
                assert(in_range(o2, n)) by {
                    assert forall|k: int| 0 <= k < o2.len() implies 0 <= #[trigger] o2[k] < n by {
                        if k < order.len() {
                            assert(o2[k] == order[k]);
                        }
                    }
                }
                assert(respects(ap, o2)) by {
                    assert forall|t: int, k: int|
                        #![trigger o2[t], ap[k]]
                        0 <= t < o2.len() && 0 <= k < ap.len() && ap[k].1 == o2[t] implies o2.take(t).contains(ap[k].0) by {
                        if t < order.len() {
                            assert(o2[t] == order[t]);
                            assert(order.take(t).contains(ap[k].0));
                            assert(o2.take(t) =~= order.take(t));
                        } else {
                            assert(order.contains(ap[k].0));
                            assert(o2.take(t) =~= order);
                        }
                    }
                }
                lemma_greedy(ap, ks, n, o2, (fuel - 1) as nat);
            },
            None => {},
        }
    }
}

/// The chain of unplaced goals ranked above `x`, one step per level.
pub open spec fn chain(ap: Seq<(int, int)>, order: Seq<int>, x: int, k: nat) -> int
    decreases k,
{
    if k == 0 {
        x
    } else {
        let y = chain(ap, order, x, (k - 1) as nat);
        let j = choose|j: int| 0 <= j < ap.len() && ap[j].1 == y && !order.contains(ap[j].0);
        ap[j].0
    }
}

/// Where no goal is free, every unplaced goal has an unplaced goal ranked
/// above it, so the chain goes on through unplaced goals.
proof fn lemma_chain(ap: Seq<(int, int)>, n: int, order: Seq<int>, x: int, k: nat)
    requires
        forall|i: int| !free(ap, n, order, i),
        forall|j: int| 0 <= j < ap.len() ==> 0 <= (#[trigger] ap[j]).0 < n && 0 <= ap[j].1 < n,
        0 <= x < n,
        !order.contains(x),
    ensures
        0 <= chain(ap, order, x, k) < n,
        !order.contains(chain(ap, order, x, k)),
        k > 0 ==> ap.contains((chain(ap, order, x, k), chain(ap, order, x, (k - 1) as nat))),
    decreases k,
{
    if k > 0 {
        lemma_chain(ap, n, order, x, (k - 1) as nat);
        let y = chain(ap, order, x, (k - 1) as nat);
        assert(!free(ap, n, order, y));
        let j = choose|j: int| 0 <= j < ap.len() && ap[j].1 == y && !order.contains(ap[j].0);
        assert(ap[j] == (chain(ap, order, x, k), y));
    }
}

/// Where no goal is free but one is unplaced, the edges have a cycle.
#[verifier::spinoff_prover]
proof fn lemma_stuck_means_cycle(ids: Seq<Seq<char>>, e: Seq<PairView>, g: Seq<int>, x: int)
    requires
        forall|i: int| !free(active_pairs(ids, e), ids.len() as int, g, i),
        0 <= x < ids.len(),
        !g.contains(x),
    ensures
        exists|z: Seq<char>| reaches(e, z, z),
{
    let ap = active_pairs(ids, e);
    let n = ids.len() as int;
    assert forall|j: int| 0 <= j < ap.len() implies 0 <= (#[trigger] ap[j]).0 < n && 0 <= ap[j].1 < n by {
        lemma_active_pair_edge(ids, e, j);
    }
    let s = Seq::new((n + 1) as nat, |k: int| chain(ap, g, x, k as nat));
    assert(in_range(s, n)) by {
        assert forall|k: int| 0 <= k < s.len() implies 0 <= #[trigger] s[k] < n by {
            lemma_chain(ap, n, g, x, k as nat);
        }
    }
    if s.no_duplicates() {
        lemma_distinct_len(s, n, None);
    }
    let (a, b) = choose|a: int, b: int| 0 <= a < s.len() && 0 <= b < s.len() && a != b && s[a] == s[b];
    let (lo, hi) = if a < b { (a, b) } else { (b, a) };
    let p = Seq::new((hi - lo + 1) as nat, |i: int| ids[chain(ap, g, x, (hi - i) as nat)]);
    assert forall|i: int| 0 <= i < p.len() - 1 implies e.contains((p[i], #[trigger] p[i + 1])) by {
        let k = (hi - i) as nat;
        lemma_chain(ap, n, g, x, k);
        let c = (chain(ap, g, x, k), chain(ap, g, x, (k - 1) as nat));
        let j = choose|j: int| 0 <= j < ap.len() && ap[j] == c;
        lemma_active_pair_edge(ids, e, j);
        assert(p[i + 1] == ids[chain(ap, g, x, (k - 1) as nat)]);
    }
    assert(is_path(e, p));
    assert(p[0] == p[p.len() - 1]) by {
        assert(s[hi] == s[lo]);
    }
    assert(reaches(e, p[0], p[0]));
}

/// Where the edges have no cycle, the greedy placement places every goal.
#[verifier::spinoff_prover]
proof fn lemma_all_placed(ids: Seq<Seq<char>>, e: Seq<PairView>, r: Seq<(Seq<char>, i64)>, x: int)
    requires
        forall|z: Seq<char>| !reaches(e, z, z),
        0 <= x < ids.len(),
    ensures
        ({
            let ap = active_pairs(ids, e);
            let n = ids.len() as int;
            greedy(ap, keys(ids, ap, r), n, Seq::empty(), n as nat).contains(x)
        }),
{
    let ap = active_pairs(ids, e);
    let n = ids.len() as int;
    let ks = keys(ids, ap, r);
    let g = greedy(ap, ks, n, Seq::empty(), n as nat);
    assert(respects(ap, Seq::<int>::empty()));
    lemma_greedy(ap, ks, n, Seq::empty(), n as nat);
    if !g.contains(x) {
        lemma_distinct_len(g, n, Some(x));
        assert(pick(ap, ks, n, g) is None);
        assert forall|i: int| !free(ap, n, g, i) by {
            if free(ap, n, g, i) {
                assert(exists|i: int| free(ap, n, g, i));
            }
        }
        lemma_stuck_means_cycle(ids, e, g, x);
    }
}

/// Where the edges have no cycle, the greedy placement places every goal.
proof fn lemma_all_placed_each(ids: Seq<Seq<char>>, e: Seq<PairView>, r: Seq<(Seq<char>, i64)>)
    requires
        forall|z: Seq<char>| !reaches(e, z, z),
    ensures
        ({
            let ap = active_pairs(ids, e);
            let n = ids.len() as int;
            forall|x: int| 0 <= x < n ==> #[trigger] greedy(ap, keys(ids, ap, r), n, Seq::empty(), n as nat).contains(x)
        }),
{
    let ap = active_pairs(ids, e);
    let n = ids.len() as int;
    assert forall|x: int| 0 <= x < n implies #[trigger] greedy(ap, keys(ids, ap, r), n, Seq::empty(), n as nat).contains(x) by {
        lemma_all_placed(ids, e, r, x);
    }
}

/// Positions missing from `g` below `n`: none where `g` holds them all.
proof fn lemma_missing_empty(g: Seq<int>, n: int)
    requires
        forall|x: int| 0 <= x < n ==> g.contains(x),
    ensures
        missing(g, n) == Seq::<int>::empty(),
    decreases n,
{
    if n > 0 {
        lemma_missing_empty(g, n - 1);
    }
}

/// The positions of `missing(g, n)`: those below `n` that `g` lacks, in
/// increasing order.
proof fn lemma_missing(g: Seq<int>, n: int)
    ensures
        forall|k: int| 0 <= k < missing(g, n).len() ==> 0 <= #[trigger] missing(g, n)[k] < n && !g.contains(
            missing(g, n)[k],
        ),
        forall|a: int, b: int| 0 <= a < b < missing(g, n).len() ==> missing(g, n)[a] < missing(g, n)[b],
        forall|x: int| 0 <= x < n && !g.contains(x) ==> missing(g, n).contains(x),
    decreases n,
{
    if n > 0 {
        lemma_missing(g, n - 1);
        let m = missing(g, n - 1);
        if !g.contains(n - 1) {
            let m2 = m.push(n - 1);
            assert(missing(g, n) == m2);
            assert forall|x: int| 0 <= x < n && !g.contains(x) implies missing(g, n).contains(x) by {
                if x == n - 1 {
                    assert(m2[m.len() as int] == x);
                } else {
                    let k = choose|k: int| 0 <= k < m.len() && m[k] == x;
                    assert(m2[k] == x);
                }
            }
        } else {
            assert forall|x: int| 0 <= x < n && !g.contains(x) implies missing(g, n).contains(x) by {
                assert(x != n - 1);
            }
        }
    }
}

/// The greedy placement followed by the missing positions lists each
/// position below `n` once.
proof fn lemma_placement_permutation(ap: Seq<(int, int)>, ks: Seq<(bool, i64)>, n: int)
    requires
        0 <= n,
    ensures
        ({
            let g = greedy(ap, ks, n, Seq::empty(), n as nat);
            let p = g + missing(g, n);
            &&& p.no_duplicates()
            &&& in_range(p, n)
            &&& forall|x: int| 0 <= x < n ==> p.contains(x)
            &&& p.len() == n
        }),
{
    let g = greedy(ap, ks, n, Seq::empty(), n as nat);
    assert(respects(ap, Seq::<int>::empty()));
    lemma_greedy(ap, ks, n, Seq::empty(), n as nat);
    lemma_missing(g, n);
    let m = missing(g, n);
    let p = g + m;
    assert(p.no_duplicates()) by {
        assert forall|a: int, b: int| 0 <= a < p.len() && 0 <= b < p.len() && a != b implies p[a] != p[b] by {
            if a < g.len() && b >= g.len() {
                assert(p[b] == m[b - g.len()]);
                assert(!g.contains(m[b - g.len()]));
                assert(p[a] == g[a]);
            } else if a >= g.len() && b < g.len() {
                assert(p[a] == m[a - g.len()]);
                assert(!g.contains(m[a - g.len()]));
                assert(p[b] == g[b]);
            } else if a >= g.len() && b >= g.len() {
                if a < b {
                    assert(m[a - g.len()] < m[b - g.len()]);
                } else {
                    assert(m[b - g.len()] < m[a - g.len()]);
                }
            } else {
                assert(p[a] == g[a] && p[b] == g[b]);
            }
        }
    }
    assert(in_range(p, n)) by {
        assert forall|k: int| 0 <= k < p.len() implies 0 <= #[trigger] p[k] < n by {
            if k < g.len() {
                assert(p[k] == g[k]);
            } else {
                assert(p[k] == m[k - g.len()]);
            }
        }
    }
    assert forall|x: int| 0 <= x < n implies p.contains(x) by {
        if g.contains(x) {
            let k = choose|k: int| 0 <= k < g.len() && g[k] == x;
            assert(p[k] == x);
        } else {
            let k = choose|k: int| 0 <= k < m.len() && m[k] == x;
            assert(p[g.len() + k] == x);
        }
    }
    lemma_distinct_len(p, n, None);
    assert(p.len() >= n) by {
        lemma_int_range(0, n);
        p.unique_seq_to_set();
        assert(set_int_range(0, n).subset_of(p.to_set()));
        lemma_len_subset(set_int_range(0, n), p.to_set());
    }
}

/// The priority positions list each goal once.
pub proof fn lemma_positions_permutation(ids: Seq<Seq<char>>, e: Seq<PairView>, r: Seq<(Seq<char>, i64)>)
    ensures
        priority_positions(ids, e, r).no_duplicates(),
        in_range(priority_positions(ids, e, r), ids.len() as int),
        forall|x: int| 0 <= x < ids.len() ==> priority_positions(ids, e, r).contains(x),
        priority_positions(ids, e, r).len() == ids.len(),
{
    let ap = active_pairs(ids, e);
    lemma_placement_permutation(ap, keys(ids, ap, r), ids.len() as int);
}

/// Where every position is placed, a ranked pair of positions comes in order.
proof fn lemma_placement_respects(ap: Seq<(int, int)>, ks: Seq<(bool, i64)>, n: int, k: int)
    requires
        0 <= n,
        0 <= k < ap.len(),
        0 <= ap[k].1 < n,
        forall|x: int| 0 <= x < n ==> #[trigger] greedy(ap, ks, n, Seq::empty(), n as nat).contains(x),
    ensures
        ({
            let g = greedy(ap, ks, n, Seq::empty(), n as nat);
            let p = g + missing(g, n);
            exists|i: int, j: int| 0 <= i < j < p.len() && p[i] == ap[k].0 && p[j] == ap[k].1
        }),
{
    let g = greedy(ap, ks, n, Seq::empty(), n as nat);
    assert(respects(ap, Seq::<int>::empty()));
    lemma_greedy(ap, ks, n, Seq::empty(), n as nat);
    lemma_missing_empty(g, n);
    assert(g + missing(g, n) =~= g);
    assert(g.contains(ap[k].1));
    let t = choose|t: int| 0 <= t < g.len() && g[t] == ap[k].1;
    assert(g.take(t).contains(ap[k].0));
    let i = choose|i: int| 0 <= i < g.take(t).len() && g.take(t)[i] == ap[k].0;
    assert(g[i] == ap[k].0);
}

/// Where the edges have no cycle, a goal ranked above another comes first.
#[verifier::spinoff_prover]
pub proof fn lemma_positions_respect(ids: Seq<Seq<char>>, e: Seq<PairView>, r: Seq<(Seq<char>, i64)>, h: Seq<char>, l: Seq<char>)
    requires
        forall|z: Seq<char>| !reaches(e, z, z),
        e.contains((h, l)),
        ids.contains(h),
        ids.contains(l),
    ensures
        exists|i: int, j: int|
            0 <= i < j < priority_positions(ids, e, r).len() && priority_positions(ids, e, r)[i] == index_of(ids, h)
                && priority_positions(ids, e, r)[j] == index_of(ids, l),
{
    let ap = active_pairs(ids, e);
    let n = ids.len() as int;
    let ks = keys(ids, ap, r);
    lemma_all_placed_each(ids, e, r);
    lemma_edge_active_pair(ids, e, (h, l));
    let ph = index_of(ids, h);
    let pl = index_of(ids, l);
    let k = choose|k: int| 0 <= k < ap.len() && ap[k] == (ph, pl);
    lemma_active_pair_edge(ids, e, k);
    lemma_placement_respects(ap, ks, n, k);
    let g = greedy(ap, ks, n, Seq::empty(), n as nat);
    let p = g + missing(g, n);
    assert(priority_positions(ids, e, r) == p);
    let (i, j) = choose|i: int, j: int| 0 <= i < j < p.len() && p[i] == ap[k].0 && p[j] == ap[k].1;
    assert(p[i] == ph && p[j] == pl);
}

} // verus!
