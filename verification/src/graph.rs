//! Reachability along priority edges.
use vstd::prelude::*;
use crate::model::{pairs_view, PairView};
use crate::text::str_eq;

verus! {

/// `p` follows edges of `e` from its first to its last element.
pub open spec fn is_path(e: Seq<PairView>, p: Seq<Seq<char>>) -> bool {
    forall|k: int| 0 <= k < p.len() - 1 ==> e.contains((p[k], #[trigger] p[k + 1]))
}

/// `b` can be reached from `a` by following one or more edges of `e`.
pub open spec fn reaches(e: Seq<PairView>, a: Seq<char>, b: Seq<char>) -> bool {
    exists|p: Seq<Seq<char>>|
        #![trigger is_path(e, p), p[0], p[p.len() - 1]]
        p.len() >= 2 && is_path(e, p) && p[0] == a && p[p.len() - 1] == b
}

/// Following one more edge extends a reach.
pub proof fn lemma_reaches_step(e: Seq<PairView>, a: Seq<char>, x: Seq<char>, y: Seq<char>)
    requires
        x == a || reaches(e, a, x),
        e.contains((x, y)),
    ensures
        reaches(e, a, y),
{
    if x == a {
        let p = seq![a, y];
        assert(is_path(e, p));
        assert(p[0] == a && p[p.len() - 1] == y);
    } else {
        let p = choose|p: Seq<Seq<char>>|
            #![trigger is_path(e, p), p[0], p[p.len() - 1]]
            p.len() >= 2 && is_path(e, p) && p[0] == a && p[p.len() - 1] == x;
        let q = p.push(y);
        assert forall|k: int| 0 <= k < q.len() - 1 implies e.contains((q[k], #[trigger] q[k + 1])) by {
            if k < p.len() - 1 {
                assert(q[k] == p[k] && q[k + 1] == p[k + 1]);
            } else {
                assert(q[k] == x && q[k + 1] == y);
            }
        }
        assert(q[0] == a && q[q.len() - 1] == y);
        assert(is_path(e, q));
    }
}

/// Reaches compose.
pub proof fn lemma_reaches_trans(e: Seq<PairView>, a: Seq<char>, b: Seq<char>, c: Seq<char>)
    requires
        reaches(e, a, b),
        reaches(e, b, c),
    ensures
        reaches(e, a, c),
{
    let p = choose|p: Seq<Seq<char>>|
        #![trigger is_path(e, p), p[0], p[p.len() - 1]]
        p.len() >= 2 && is_path(e, p) && p[0] == a && p[p.len() - 1] == b;
    let q = choose|q: Seq<Seq<char>>|
        #![trigger is_path(e, q), q[0], q[q.len() - 1]]
        q.len() >= 2 && is_path(e, q) && q[0] == b && q[q.len() - 1] == c;
    let r = p + q.drop_first();
    assert forall|k: int| 0 <= k < r.len() - 1 implies e.contains((r[k], #[trigger] r[k + 1])) by {
        if k < p.len() - 1 {
            assert(r[k] == p[k] && r[k + 1] == p[k + 1]);
        } else if k == p.len() - 1 {
            assert(r[k] == q[0] && r[k + 1] == q[1]);
        } else {
            let j = k - p.len() + 1;
            assert(r[k] == q[j] && r[k + 1] == q[j + 1]);
        }
    }
    assert(r[0] == a && r[r.len() - 1] == c);
    assert(is_path(e, r));
}

/// A path along the edges of `e` with `x` added either stays in `e`, or
/// reaches the start of `x` and continues from its end.
pub proof fn lemma_path_with_edge(e: Seq<PairView>, x: PairView, p: Seq<Seq<char>>)
    requires
        p.len() >= 2,
        is_path(e.push(x), p),
    ensures
        reaches(e, p[0], p[p.len() - 1]) || ((p[0] == x.0 || reaches(e, p[0], x.0)) && (x.1 == p[p.len() - 1]
            || reaches(e, x.1, p[p.len() - 1]))),
    decreases p.len(),
{
    let n = p.len() as int;
    let u = p[n - 2];
    let v = p[n - 1];
    assert(e.push(x).contains((p[n - 2], p[n - 2 + 1])));
    let j = choose|j: int| 0 <= j < e.push(x).len() && e.push(x)[j] == (u, v);
    let in_e = j < e.len();
    if in_e {
        assert(e[j] == (u, v));
        assert(e.contains((u, v)));
    } else {
        assert((u, v) == x);
    }
    if n == 2 {
        if in_e {
            lemma_reaches_step(e, p[0], u, v);
        }
    } else {
        let q = p.take(n - 1);
        assert forall|k: int| 0 <= k < q.len() - 1 implies e.push(x).contains((q[k], #[trigger] q[k + 1])) by {
            assert(q[k] == p[k] && q[k + 1] == p[k + 1]);
        }
        lemma_path_with_edge(e, x, q);
        assert(q[0] == p[0] && q[q.len() - 1] == u);
        if in_e {
            if reaches(e, p[0], u) {
                lemma_reaches_step(e, p[0], u, v);
            } else {
                lemma_reaches_step(e, x.1, u, v);
            }
        }
    }
}

/// The nodes that reach each other along `e` with `x` added reach each other
/// along `e`, or by way of `x`.
pub proof fn lemma_reaches_with_edge(e: Seq<PairView>, x: PairView, a: Seq<char>, b: Seq<char>)
    requires
        reaches(e.push(x), a, b),
    ensures
        reaches(e, a, b) || ((a == x.0 || reaches(e, a, x.0)) && (x.1 == b || reaches(e, x.1, b))),
{
    let p = choose|p: Seq<Seq<char>>|
        #![trigger is_path(e.push(x), p), p[0], p[p.len() - 1]]
        p.len() >= 2 && is_path(e.push(x), p) && p[0] == a && p[p.len() - 1] == b;
    lemma_path_with_edge(e, x, p);
}

/// The condition that marks edge `k` as reached from `start`: it leaves
/// `start`, or it leaves a node that a marked edge enters.
pub open spec fn edge_on_reach(e: Seq<PairView>, start: Seq<char>, k: int) -> bool {
    e[k].0 == start || reaches(e, start, e[k].0)
}

pub open spec fn count_true(s: Seq<bool>) -> nat
    decreases s.len(),
{
    if s.len() == 0 {
        0
    } else {
        count_true(s.drop_last()) + if s.last() { 1nat } else { 0nat }
    }
}

proof fn lemma_count_true_bound(s: Seq<bool>)
    ensures
        count_true(s) <= s.len(),
    decreases s.len(),
{
    if s.len() > 0 {
        lemma_count_true_bound(s.drop_last());
    }
}

proof fn lemma_count_true_none(s: Seq<bool>)
    requires
        forall|k: int| 0 <= k < s.len() ==> !s[k],
    ensures
        count_true(s) == 0,
    decreases s.len(),
{
    if s.len() > 0 {
        lemma_count_true_none(s.drop_last());
    }
}

proof fn lemma_count_true_set(s: Seq<bool>, k: int)
    requires
        0 <= k < s.len(),
        !s[k],
    ensures
        count_true(s.update(k, true)) == count_true(s) + 1,
    decreases s.len(),
{
    let t = s.update(k, true);
    if k == s.len() - 1 {
        assert(t.drop_last() =~= s.drop_last());
    } else {
        assert(t.drop_last() =~= s.drop_last().update(k, true));
        lemma_count_true_set(s.drop_last(), k);
    }
}

/// At a fixpoint of the marking, every edge whose source is reached is marked.
proof fn lemma_fixpoint_complete(e: Seq<PairView>, start: Seq<char>, flags: Seq<bool>, p: Seq<Seq<char>>, k: int)
    requires
        flags.len() == e.len(),
        forall|j: int| 0 <= j < e.len() && e[j].0 == start ==> flags[j],
        forall|j: int, i: int|
            0 <= j < e.len() && 0 <= i < e.len() && flags[i] && e[i].1 == e[j].0 ==> #[trigger] flags[j] || !#[trigger] flags[i],
        p.len() >= 2,
        is_path(e, p),
        p[0] == start,
        0 <= k < e.len(),
        e[k] == (p[p.len() - 2], p[p.len() - 1]),
    ensures
        flags[k],
    decreases p.len(),
{
    if p.len() > 2 {
        let q = p.take(p.len() - 1);
        assert(is_path(e, q)) by {
            assert forall|i: int| 0 <= i < q.len() - 1 implies e.contains((q[i], #[trigger] q[i + 1])) by {
                assert(q[i] == p[i] && q[i + 1] == p[i + 1]);
            }
        }
        let t = p.len() - 3;
        assert(e.contains((p[t], p[t + 1])));
        let j = choose|j: int| 0 <= j < e.len() && e[j] == (p[p.len() - 3], p[p.len() - 2]);
        assert(q[q.len() - 2] == p[p.len() - 3] && q[q.len() - 1] == p[p.len() - 2]);
        lemma_fixpoint_complete(e, start, flags, q, j);
        assert(e[j].1 == e[k].0);
    }
}

/// For each edge, whether its source is `start` or can be reached from `start`.
pub fn edges_on_reach(edges: &Vec<(String, String)>, start: &str) -> (flags: Vec<bool>)
    ensures
        flags@.len() == edges@.len(),
        forall|k: int| 0 <= k < edges@.len() ==> flags@[k] == edge_on_reach(pairs_view(edges@), start@, k),
{
    let ghost e = pairs_view(edges@);
    let m = edges.len();
    let mut flags: Vec<bool> = Vec::new();
    let mut i: usize = 0;
    while i < m
        invariant
            m == edges@.len(),
            i <= m,
            flags@.len() == i,
            forall|k: int| 0 <= k < i ==> !flags@[k],
        decreases m - i,
    {
        flags.push(false);
        i += 1;
    }
    proof {
        lemma_count_true_none(flags@);
    }
    let mut count: usize = 0;
    loop
        invariant
            m == edges@.len(),
            e == pairs_view(edges@),
            flags@.len() == m,
            count == count_true(flags@),
            forall|k: int| 0 <= k < m && #[trigger] flags@[k] ==> edge_on_reach(e, start@, k),
        decreases m - count,
    {
        proof {
            lemma_count_true_bound(flags@);
        }
        let mut changed = false;
        let ghost count0 = count;
        let mut k: usize = 0;
        while k < m
            invariant
                m == edges@.len(),
                e == pairs_view(edges@),
                flags@.len() == m,
                k <= m,
                count == count_true(flags@),
                count >= count0,
                changed ==> count > count0,
                !changed ==> count == count0,
                forall|j: int| 0 <= j < m && #[trigger] flags@[j] ==> edge_on_reach(e, start@, j),
                !changed ==> forall|j: int| 0 <= j < k ==> (e[j].0 == start@ ==> flags@[j]),
                !changed ==> forall|j: int, i: int|
                    0 <= j < k && 0 <= i < m && flags@[i] && e[i].1 == e[j].0 ==> #[trigger] flags@[j] || !#[trigger] flags@[i],
            decreases m - k,
        {
            if !flags[k] {
                let mut hit = str_eq(edges[k].0.as_str(), start);
                let mut i: usize = 0;
                while i < m && !hit
                    invariant
                        m == edges@.len(),
                        e == pairs_view(edges@),
                        flags@.len() == m,
                        k < m,
                        i <= m,
                        hit ==> edge_on_reach(e, start@, k as int),
                        !hit ==> e[k as int].0 != start@,
                        !hit ==> forall|x: int| 0 <= x < i && flags@[x] ==> e[x].1 != e[k as int].0,
                        forall|j: int| 0 <= j < m && #[trigger] flags@[j] ==> edge_on_reach(e, start@, j),
                    decreases m - i,
                {
                    if flags[i] && str_eq(edges[i].1.as_str(), edges[k].0.as_str()) {
                        proof {
                            assert(edge_on_reach(e, start@, i as int));
                            assert(e.contains((e[i as int].0, e[i as int].1)));
                            lemma_reaches_step(e, start@, e[i as int].0, e[i as int].1);
                        }
                        hit = true;
                    }
                    i += 1;
                }
                if hit {
                    proof {
                        lemma_count_true_set(flags@, k as int);
                        lemma_count_true_bound(flags@.update(k as int, true));
                    }
                    flags.set(k, true);
                    count = count + 1;
                    changed = true;
                }
            }
            k += 1;
        }
        proof {
            lemma_count_true_bound(flags@);
        }
        if !changed {
            assert forall|j: int| 0 <= j < m && edge_on_reach(e, start@, j) implies #[trigger] flags@[j] by {
                if e[j].0 != start@ {
                    let p = choose|p: Seq<Seq<char>>|
                        #![trigger is_path(e, p), p[0], p[p.len() - 1]]
                        p.len() >= 2 && is_path(e, p) && p[0] == start@ && p[p.len() - 1] == e[j].0;
                    let q = p.push(e[j].1);
                    assert(is_path(e, q)) by {
                        assert forall|x: int| 0 <= x < q.len() - 1 implies e.contains((q[x], #[trigger] q[x + 1])) by {
                            if x < p.len() - 1 {
                                assert(q[x] == p[x] && q[x + 1] == p[x + 1]);
                            } else {
                                assert(q[x] == e[j].0 && q[x + 1] == e[j].1);
                                assert(e[j] == (e[j].0, e[j].1));
                            }
                        }
                    }
                    assert(q[q.len() - 2] == e[j].0 && q[q.len() - 1] == e[j].1);
                    assert(q[0] == start@);
                    lemma_fixpoint_complete(e, start@, flags@, q, j);
                }
            }
            return flags;
        }
    }
}

/// Whether `b` can be reached from `a` by one or more of the edges.
pub fn reaches_exec(edges: &Vec<(String, String)>, a: &str, b: &str) -> (r: bool)
    ensures
        r == reaches(pairs_view(edges@), a@, b@),
{
    let ghost e = pairs_view(edges@);
    let flags = edges_on_reach(edges, a);
    let mut k: usize = 0;
    while k < edges.len()
        invariant
            e == pairs_view(edges@),
            flags@.len() == edges@.len(),
            k <= edges@.len(),
            forall|j: int| 0 <= j < edges@.len() ==> flags@[j] == edge_on_reach(e, a@, j),
            forall|j: int| 0 <= j < k ==> !(flags@[j] && e[j].1 == b@),
        decreases edges@.len() - k,
    {
        if flags[k] && str_eq(edges[k].1.as_str(), b) {
            proof {
                assert(e.contains((e[k as int].0, e[k as int].1)));
                lemma_reaches_step(e, a@, e[k as int].0, e[k as int].1);
            }
            return true;
        }
        k += 1;
    }
    proof {
        if reaches(e, a@, b@) {
            let p = choose|p: Seq<Seq<char>>|
                #![trigger is_path(e, p), p[0], p[p.len() - 1]]
                p.len() >= 2 && is_path(e, p) && p[0] == a@ && p[p.len() - 1] == b@;
            let n = p.len();
            let t = n - 2;
            assert(e.contains((p[t], p[t + 1])));
            let j = choose|j: int| 0 <= j < e.len() && e[j] == (p[n - 2], p[n - 1]);
            if n == 2 {
                assert(e[j].0 == a@);
            } else {
                let q = p.take(n - 1);
                assert(is_path(e, q)) by {
                    assert forall|i: int| 0 <= i < q.len() - 1 implies e.contains((q[i], #[trigger] q[i + 1])) by {
                        assert(q[i] == p[i] && q[i + 1] == p[i + 1]);
                    }
                }
                assert(q[0] == a@ && q[q.len() - 1] == e[j].0);
                assert(reaches(e, a@, e[j].0));
            }
            assert(flags@[j]);
            assert(false);
        }
    }
    false
}

/// The edges both of whose ends are among `ids`, in their order.
pub open spec fn edges_within(e: Seq<PairView>, ids: Seq<Seq<char>>) -> Seq<PairView>
    decreases e.len(),
{
    if e.len() == 0 {
        e
    } else if ids.contains(e.last().0) && ids.contains(e.last().1) {
        edges_within(e.drop_last(), ids).push(e.last())
    } else {
        edges_within(e.drop_last(), ids)
    }
}

} // verus!
