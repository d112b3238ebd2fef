//! Stable sorting of rows by a key of one or two strings, as `ORDER BY`
//! does with the binary collation.
use vstd::prelude::*;
use crate::model::{pairs_view, PairView};
use crate::text::{lemma_seq_lt_irreflexive, lemma_seq_lt_transitive, seq_lt, str_eq, str_lt};

verus! {

/// Strict order on keys: the first strings, then the second strings.
pub open spec fn key_lt(a: PairView, b: PairView) -> bool {
    seq_lt(a.0, b.0) || (a.0 == b.0 && seq_lt(a.1, b.1))
}

/// Inserts position `x` into `s` before the first position whose key is
/// greater than the key of `x`.
pub open spec fn insert_pos(s: Seq<int>, x: int, ks: Seq<PairView>) -> Seq<int>
    decreases s.len(),
{
    if s.len() == 0 {
        seq![x]
    } else if key_lt(ks[x], ks[s[0]]) {
        seq![x] + s
    } else {
        seq![s[0]] + insert_pos(s.drop_first(), x, ks)
    }
}

/// The positions `0..n` ordered by key, equal keys keeping their order.
pub open spec fn sorted_positions(ks: Seq<PairView>, n: int) -> Seq<int>
    decreases n,
{
    if n <= 0 {
        Seq::empty()
    } else {
        insert_pos(sorted_positions(ks, n - 1), n - 1, ks)
    }
}

/// The first index of `s` whose key exceeds the key of `x`.
pub open spec fn insert_index(s: Seq<int>, x: int, ks: Seq<PairView>) -> int
    decreases s.len(),
{
    if s.len() == 0 {
        0
    } else if key_lt(ks[x], ks[s[0]]) {
        0
    } else {
        1 + insert_index(s.drop_first(), x, ks)
    }
}

proof fn lemma_insert_pos_index(s: Seq<int>, x: int, ks: Seq<PairView>)
    ensures
        0 <= insert_index(s, x, ks) <= s.len(),
        insert_pos(s, x, ks) == s.insert(insert_index(s, x, ks), x),
        forall|k: int| 0 <= k < insert_index(s, x, ks) ==> !key_lt(ks[x], ks[#[trigger] s[k]]),
        insert_index(s, x, ks) < s.len() ==> key_lt(ks[x], ks[s[insert_index(s, x, ks)]]),
    decreases s.len(),
{
    if s.len() > 0 && !key_lt(ks[x], ks[s[0]]) {
        lemma_insert_pos_index(s.drop_first(), x, ks);
        let i = insert_index(s.drop_first(), x, ks);
        assert(seq![s[0]] + s.drop_first().insert(i, x) =~= s.insert(i + 1, x));
        assert forall|k: int| 0 <= k < i + 1 implies !key_lt(ks[x], ks[#[trigger] s[k]]) by {
            if k > 0 {
                assert(s[k] == s.drop_first()[k - 1]);
            }
        }
    } else if s.len() > 0 {
        assert(seq![x] + s =~= s.insert(0, x));
    } else {
        assert(seq![x] =~= s.insert(0, x));
    }
}

pub proof fn lemma_sorted_positions_range(ks: Seq<PairView>, n: int)
    requires
        n <= ks.len(),
    ensures
        sorted_positions(ks, n).len() == if n <= 0 { 0 } else { n },
        forall|k: int| 0 <= k < sorted_positions(ks, n).len() ==> 0 <= #[trigger] sorted_positions(ks, n)[k] < n,
    decreases n,
{
    if n > 0 {
        lemma_sorted_positions_range(ks, n - 1);
        let s = sorted_positions(ks, n - 1);
        lemma_insert_pos_index(s, n - 1, ks);
        let i = insert_index(s, n - 1, ks);
        assert forall|k: int| 0 <= k < s.insert(i, n - 1).len() implies 0 <= #[trigger] s.insert(i, n - 1)[k] < n by {
            if k < i {
                assert(s.insert(i, n - 1)[k] == s[k]);
            } else if k > i {
                assert(s.insert(i, n - 1)[k] == s[k - 1]);
            }
        }
    }
}

/// Every position below `n` is listed.
pub proof fn lemma_sorted_positions_complete(ks: Seq<PairView>, n: int)
    requires
        n <= ks.len(),
    ensures
        forall|i: int| 0 <= i < n ==> sorted_positions(ks, n).contains(i),
    decreases n,
{
    if n > 0 {
        lemma_sorted_positions_complete(ks, n - 1);
        let s = sorted_positions(ks, n - 1);
        lemma_insert_pos_index(s, n - 1, ks);
        let idx = insert_index(s, n - 1, ks);
        let t = s.insert(idx, n - 1);
        assert forall|i: int| 0 <= i < n implies t.contains(i) by {
            if i == n - 1 {
                assert(t[idx] == i);
            } else {
                assert(sorted_positions(ks, n - 1).contains(i));
                let k = choose|k: int| 0 <= k < s.len() && s[k] == i;
                if k < idx {
                    assert(t[k] == i);
                } else {
                    assert(t[k + 1] == i);
                }
            }
        }
    }
}

/// No position is listed twice.
pub proof fn lemma_sorted_positions_distinct(ks: Seq<PairView>, n: int)
    requires
        n <= ks.len(),
    ensures
        sorted_positions(ks, n).no_duplicates(),
    decreases n,
{
    if n > 0 {
        lemma_sorted_positions_distinct(ks, n - 1);
        lemma_sorted_positions_range(ks, n - 1);
        let s = sorted_positions(ks, n - 1);
        lemma_insert_pos_index(s, n - 1, ks);
        let idx = insert_index(s, n - 1, ks);
        let t = s.insert(idx, n - 1);
        assert forall|a: int, b: int| 0 <= a < t.len() && 0 <= b < t.len() && a != b implies t[a] != t[b] by {
            let sa = if a < idx { a } else { a - 1 };
            let sb = if b < idx { b } else { b - 1 };
            if a != idx && b != idx {
                assert(t[a] == s[sa] && t[b] == s[sb]);
            } else if a == idx {
                assert(t[b] == s[sb]);
                assert(s[sb] < n - 1);
            } else {
                assert(t[a] == s[sa]);
                assert(s[sa] < n - 1);
            }
        }
    }
}

/// The strict order on keys is transitive.
pub proof fn lemma_key_lt_transitive(a: PairView, b: PairView, c: PairView)
    requires
        key_lt(a, b),
        key_lt(b, c),
    ensures
        key_lt(a, c),
{
    if seq_lt(a.0, b.0) && seq_lt(b.0, c.0) {
        lemma_seq_lt_transitive(a.0, b.0, c.0);
    } else if seq_lt(a.1, b.1) && seq_lt(b.1, c.1) && a.0 == b.0 && b.0 == c.0 {
        lemma_seq_lt_transitive(a.1, b.1, c.1);
    }
}

/// The listed positions come in order of their keys: no later key is
/// smaller than an earlier one.
pub proof fn lemma_sorted_positions_sorted(ks: Seq<PairView>, n: int)
    requires
        n <= ks.len(),
    ensures
        forall|a: int, b: int|
            #![trigger sorted_positions(ks, n)[a], sorted_positions(ks, n)[b]]
            0 <= a < b < sorted_positions(ks, n).len() ==> !key_lt(ks[sorted_positions(ks, n)[b]], ks[sorted_positions(ks, n)[a]]),
    decreases n,
{
    if n > 0 {
        lemma_sorted_positions_sorted(ks, n - 1);
        let s = sorted_positions(ks, n - 1);
        lemma_insert_pos_index(s, n - 1, ks);
        let idx = insert_index(s, n - 1, ks);
        let t = s.insert(idx, n - 1);
        let x = n - 1;
        assert forall|a: int, b: int| 0 <= a < b < t.len() implies !key_lt(ks[t[b]], ks[t[a]]) by {
            let sa = if a < idx { a } else { a - 1 };
            let sb = if b < idx { b } else { b - 1 };
            if a != idx && b != idx {
                assert(t[a] == s[sa] && t[b] == s[sb]);
                assert(sa < sb);
            } else if a == idx {
                // `x` comes before the goal at `b`, whose key is not below the
                // one that first exceeded `x`.
                assert(t[b] == s[sb]);
                assert(key_lt(ks[x], ks[s[idx]]));
                if sb > idx {
                    assert(!key_lt(ks[s[sb]], ks[s[idx]]));
                }
                if key_lt(ks[s[sb]], ks[x]) {
                    lemma_key_lt_transitive(ks[s[sb]], ks[x], ks[s[idx]]);
                    lemma_seq_lt_irreflexive(ks[s[idx]].0);
                    lemma_seq_lt_irreflexive(ks[s[idx]].1);
                }
            } else {
                assert(t[a] == s[sa]);
                assert(!key_lt(ks[x], ks[s[sa]]));
            }
        }
    }
}

/// Keys from a vector of string pairs.
fn key_lt_exec(a: &(String, String), b: &(String, String)) -> (r: bool)
    ensures
        r == key_lt((a.0@, a.1@), (b.0@, b.1@)),
{
    if str_lt(a.0.as_str(), b.0.as_str()) {
        true
    } else if str_eq(a.0.as_str(), b.0.as_str()) {
        str_lt(a.1.as_str(), b.1.as_str())
    } else {
        false
    }
}

/// The positions of `keys` ordered by key, equal keys keeping their order.
pub fn sort_positions(keys: &Vec<(String, String)>) -> (r: Vec<usize>)
    ensures
        r@.map_values(|x: usize| x as int) == sorted_positions(pairs_view(keys@), keys@.len() as int),
        forall|k: int| 0 <= k < r@.len() ==> r@[k] < keys@.len(),
        r@.len() == keys@.len(),
{
    let ghost ks = pairs_view(keys@);
    let mut r: Vec<usize> = Vec::new();
    let mut i: usize = 0;
    while i < keys.len()
        invariant
            ks == pairs_view(keys@),
            i <= keys@.len(),
            r@.map_values(|x: usize| x as int) == sorted_positions(ks, i as int),
            r@.len() == i,
            forall|k: int| 0 <= k < r@.len() ==> r@[k] < i,
        decreases keys@.len() - i,
    {
        let ghost s = r@.map_values(|x: usize| x as int);
        proof {
            lemma_insert_pos_index(s, i as int, ks);
        }
        let mut j: usize = 0;
        while j < r.len() && !key_lt_exec(&keys[i], &keys[r[j]])
            invariant
                ks == pairs_view(keys@),
                s == r@.map_values(|x: usize| x as int),
                i < keys@.len(),
                r@.len() == i,
                forall|k: int| 0 <= k < r@.len() ==> r@[k] < i,
                j <= r@.len(),
                forall|k: int| 0 <= k < j ==> !key_lt(ks[i as int], ks[#[trigger] s[k]]),
            decreases r@.len() - j,
        {
            proof {
                assert(ks[r@[j as int] as int] == (keys@[r@[j as int] as int].0@, keys@[r@[j as int] as int].1@));
                assert(ks[i as int] == (keys@[i as int].0@, keys@[i as int].1@));
            }
            j += 1;
        }
        proof {
            if j < r@.len() {
                assert(ks[r@[j as int] as int] == (keys@[r@[j as int] as int].0@, keys@[r@[j as int] as int].1@));
                assert(ks[i as int] == (keys@[i as int].0@, keys@[i as int].1@));
            }
            let ii = insert_index(s, i as int, ks);
            if ii < j {
                assert(!key_lt(ks[i as int], ks[s[ii]]));
            }
            if ii > j {
                assert(!key_lt(ks[i as int], ks[s[j as int]]));
            }
        }
        r.insert(j, i);
        assert(r@.map_values(|x: usize| x as int) =~= s.insert(j as int, i as int));
        i += 1;
    }
    r
}

} // verus!
