//! Character-level helpers on strings: building, comparing, ordering and
//! prefix matching.
use vstd::prelude::*;

verus! {

/// The character of a hexadecimal digit value `d` (`0 <= d < 16`), in lower case.
pub open spec fn hex_char(d: int) -> char {
    if d < 10 {
        (d + 48) as char
    } else {
        (d + 87) as char
    }
}

pub fn hex_char_exec(d: u8) -> (c: char)
    requires
        d < 16,
    ensures
        c == hex_char(d as int),
{
    if d < 10 {
        (d + 48) as char
    } else {
        (d + 87) as char
    }
}

/// Appends `c` to `s`.
///
/// Trusted: calls `String::push`, which std documents as appending the given
/// character to the end of the string.
#[verifier::external_body]
pub(crate) fn push_char(s: &mut String, c: char)
    ensures
        final(s)@ == old(s)@.push(c),
{
    s.push(c);
}

/// The characters of `s`, in order.
pub fn chars_of(s: &str) -> (cs: Vec<char>)
    ensures
        cs@ == s@,
{
    let n = s.unicode_len();
    let mut cs: Vec<char> = Vec::new();
    let mut i: usize = 0;
    while i < n
        invariant
            n == s@.len(),
            i <= n,
            cs@ == s@.take(i as int),
        decreases n - i,
    {
        cs.push(s.get_char(i));
        assert(s@.take(i + 1) =~= s@.take(i as int).push(s@[i as int]));
        i += 1;
    }
    assert(s@.take(n as int) =~= s@);
    cs
}

/// A fresh copy of `s`.
pub fn copy_str(s: &str) -> (r: String)
    ensures
        r@ == s@,
{
    s.to_owned()
}

/// Whether the two strings hold the same characters.
pub fn str_eq(a: &str, b: &str) -> (r: bool)
    ensures
        r == (a@ == b@),
{
    let x = a.to_owned();
    let y = b.to_owned();
    x == y
}

/// The concatenation of `a` and `b`.
pub fn concat(a: &str, b: &str) -> (r: String)
    ensures
        r@ == a@ + b@,
{
    let mut r = a.to_owned();
    r.append(b);
    r
}

/// The characters of `s` from index `from` (inclusive) to `to` (exclusive).
pub fn substring(s: &str, from: usize, to: usize) -> (r: String)
    requires
        from <= to <= s@.len(),
    ensures
        r@ == s@.subrange(from as int, to as int),
{
    s.substring_char(from, to).to_owned()
}

/// Strict lexicographic order on character sequences, comparing characters by
/// their code points; for UTF-8 text this is the order of the bytes.
pub open spec fn seq_lt(a: Seq<char>, b: Seq<char>) -> bool
    decreases a.len(),
{
    if b.len() == 0 {
        false
    } else if a.len() == 0 {
        true
    } else if (a[0] as u32) < (b[0] as u32) {
        true
    } else if a[0] == b[0] {
        seq_lt(a.drop_first(), b.drop_first())
    } else {
        false
    }
}

pub open spec fn seq_le(a: Seq<char>, b: Seq<char>) -> bool {
    seq_lt(a, b) || a == b
}

pub proof fn lemma_char_code_injective(c: char, d: char)
    ensures
        (c as u32 == d as u32) == (c == d),
{
}

/// `seq_lt` is irreflexive.
pub proof fn lemma_seq_lt_irreflexive(a: Seq<char>)
    ensures
        !seq_lt(a, a),
    decreases a.len(),
{
    if a.len() > 0 {
        lemma_seq_lt_irreflexive(a.drop_first());
    }
}

/// `seq_lt` is transitive.
pub proof fn lemma_seq_lt_transitive(a: Seq<char>, b: Seq<char>, c: Seq<char>)
    requires
        seq_lt(a, b),
        seq_lt(b, c),
    ensures
        seq_lt(a, c),
    decreases a.len(),
{
    if a.len() > 0 && b.len() > 0 && c.len() > 0 {
        if a[0] == b[0] && b[0] == c[0] {
            lemma_seq_lt_transitive(a.drop_first(), b.drop_first(), c.drop_first());
        }
    }
}

/// `seq_lt` is total on distinct sequences.
pub proof fn lemma_seq_lt_total(a: Seq<char>, b: Seq<char>)
    ensures
        a == b || seq_lt(a, b) || seq_lt(b, a),
    decreases a.len(),
{
    if a.len() > 0 && b.len() > 0 {
        lemma_char_code_injective(a[0], b[0]);
        if a[0] == b[0] {
            lemma_seq_lt_total(a.drop_first(), b.drop_first());
            if a.drop_first() == b.drop_first() {
                assert(a.drop_first().len() == b.drop_first().len());
                assert(a.len() == b.len());
                assert forall|i: int| 0 <= i < a.len() implies a[i] == b[i] by {
                    if i > 0 {
                        assert(a[i] == a.drop_first()[i - 1]);
                        assert(b[i] == b.drop_first()[i - 1]);
                    }
                }
                assert(a =~= b);
            }
        }
    } else if a.len() == 0 && b.len() == 0 {
        assert(a =~= b);
    }
}

/// `seq_lt` is asymmetric.
pub proof fn lemma_seq_lt_asymmetric(a: Seq<char>, b: Seq<char>)
    requires
        seq_lt(a, b),
    ensures
        !seq_lt(b, a),
{
    if seq_lt(b, a) {
        lemma_seq_lt_transitive(a, b, a);
        lemma_seq_lt_irreflexive(a);
    }
}

spec fn seq_lt_from(a: Seq<char>, b: Seq<char>, i: int) -> bool {
    seq_lt(a.subrange(i, a.len() as int), b.subrange(i, b.len() as int))
}

/// Whether `a` comes strictly before `b` in code-point order.
pub fn str_lt(a: &str, b: &str) -> (r: bool)
    ensures
        r == seq_lt(a@, b@),
{
    let na = a.unicode_len();
    let nb = b.unicode_len();
    let mut i: usize = 0;
    assert(a@.subrange(0, a@.len() as int) =~= a@);
    assert(b@.subrange(0, b@.len() as int) =~= b@);
    while i < na && i < nb
        invariant
            na == a@.len(),
            nb == b@.len(),
            i <= na,
            i <= nb,
            seq_lt(a@, b@) == seq_lt_from(a@, b@, i as int),
        decreases na - i,
    {
        let ca = a.get_char(i);
        let cb = b.get_char(i);
        let ghost sa = a@.subrange(i as int, na as int);
        let ghost sb = b@.subrange(i as int, nb as int);
        assert(sa[0] == ca && sb[0] == cb);
        if (ca as u32) < (cb as u32) {
            return true;
        }
        if ca != cb {
            return false;
        }
        assert(sa.drop_first() =~= a@.subrange(i + 1, na as int));
        assert(sb.drop_first() =~= b@.subrange(i + 1, nb as int));
        i += 1;
    }
    i == na && i < nb
}

/// Whether `prefix` is a prefix of `s`, character for character.
pub open spec fn matches_prefix(s: Seq<char>, prefix: Seq<char>) -> bool {
    prefix.len() <= s.len() && s.take(prefix.len() as int) == prefix
}

/// Whether `s` starts with `prefix`.
pub fn matches_prefix_exec(s: &str, prefix: &str) -> (r: bool)
    ensures
        r == matches_prefix(s@, prefix@),
{
    let sc = chars_of(s);
    let pc = chars_of(prefix);
    if pc.len() > sc.len() {
        return false;
    }
    let mut i: usize = 0;
    while i < pc.len()
        invariant
            sc@ == s@,
            pc@ == prefix@,
            pc@.len() <= sc@.len(),
            i <= pc@.len(),
            forall|k: int| 0 <= k < i ==> sc@[k] == pc@[k],
        decreases pc@.len() - i,
    {
        if sc[i] != pc[i] {
            assert(s@.take(prefix@.len() as int)[i as int] != prefix@[i as int]);
            return false;
        }
        i += 1;
    }
    assert(s@.take(prefix@.len() as int) =~= prefix@);
    true
}

/// The number of bytes that UTF-8 takes for `c`.
pub open spec fn utf8_width(c: char) -> nat {
    if (c as u32) < 0x80 {
        1
    } else if (c as u32) < 0x800 {
        2
    } else if (c as u32) < 0x10000 {
        3
    } else {
        4
    }
}

/// The number of bytes that UTF-8 takes for `s`.
pub open spec fn utf8_len(s: Seq<char>) -> nat
    decreases s.len(),
{
    if s.len() == 0 {
        0
    } else {
        utf8_len(s.drop_last()) + utf8_width(s.last())
    }
}

/// Where byte `b` of `s` (in UTF-8) lies between two characters: the number
/// of characters before it. `None` where it lies inside a character or past
/// the end.
pub open spec fn char_boundary(s: Seq<char>, b: int) -> Option<int> {
    if exists|k: int| 0 <= k <= s.len() && utf8_len(#[trigger] s.take(k)) == b {
        Some(choose|k: int| 0 <= k <= s.len() && utf8_len(#[trigger] s.take(k)) == b)
    } else {
        None
    }
}

pub proof fn lemma_utf8_len_step(s: Seq<char>, k: int)
    requires
        0 <= k < s.len(),
    ensures
        utf8_len(s.take(k + 1)) == utf8_len(s.take(k)) + utf8_width(s[k]),
{
    assert(s.take(k + 1).drop_last() =~= s.take(k));
}

/// Longer prefixes take more bytes.
pub proof fn lemma_utf8_len_grows(s: Seq<char>, a: int, b: int)
    requires
        0 <= a < b <= s.len(),
    ensures
        utf8_len(s.take(a)) < utf8_len(s.take(b)),
    decreases b - a,
{
    lemma_utf8_len_step(s, b - 1);
    if a < b - 1 {
        lemma_utf8_len_grows(s, a, b - 1);
    }
}

/// The boundary after `k` characters is the one that `char_boundary` finds.
pub proof fn lemma_char_boundary_at(s: Seq<char>, k: int)
    requires
        0 <= k <= s.len(),
    ensures
        char_boundary(s, utf8_len(s.take(k)) as int) == Some(k),
{
    let b = utf8_len(s.take(k)) as int;
    assert(0 <= k <= s.len() && utf8_len(s.take(k)) == b);
    let c = choose|j: int| 0 <= j <= s.len() && utf8_len(#[trigger] s.take(j)) == b;
    if c < k {
        lemma_utf8_len_grows(s, c, k);
    } else if c > k {
        lemma_utf8_len_grows(s, k, c);
    }
}

fn char_width_exec(c: char) -> (w: usize)
    ensures
        w == utf8_width(c),
{
    let n = c as u32;
    if n < 0x80 {
        1
    } else if n < 0x800 {
        2
    } else if n < 0x10000 {
        3
    } else {
        4
    }
}

/// The number of characters of `s` before byte `b`, where a character
/// boundary lies there (see `char_boundary`).
pub fn char_boundary_exec(s: &str, b: usize) -> (r: Option<usize>)
    ensures
        match r {
            Some(k) => char_boundary(s@, b as int) == Some(k as int),
            None => char_boundary(s@, b as int) is None,
        },
{
    let n = s.unicode_len();
    let mut acc: usize = 0;
    let mut i: usize = 0;
    assert(s@.take(0) =~= Seq::<char>::empty());
    while i < n
        invariant
            n == s@.len(),
            i <= n,
            acc == utf8_len(s@.take(i as int)),
            acc <= b,
            forall|k: int| 0 <= k < i ==> utf8_len(#[trigger] s@.take(k)) < b,
        decreases n - i,
    {
        if acc == b {
            proof {
                lemma_char_boundary_at(s@, i as int);
            }
            return Some(i);
        }
        let w = char_width_exec(s.get_char(i));
        proof {
            lemma_utf8_len_step(s@, i as int);
        }
        if w > b - acc {
            proof {
                assert forall|k: int| 0 <= k <= s@.len() implies utf8_len(#[trigger] s@.take(k)) != b by {
                    if k < i {
                    } else if k > i + 1 {
                        lemma_utf8_len_grows(s@, i + 1, k);
                    }
                }
            }
            return None;
        }
        acc = acc + w;
        i += 1;
    }
    assert(s@.take(n as int) =~= s@);
    if acc == b {
        proof {
            lemma_char_boundary_at(s@, n as int);
        }
        Some(n)
    } else {
        proof {
            assert forall|k: int| 0 <= k <= s@.len() implies utf8_len(#[trigger] s@.take(k)) != b by {
                if k < n {
                }
            }
        }
        None
    }
}

/// The number of bytes that UTF-8 takes for `s`, or `cap` where that is less.
pub fn utf8_len_capped(s: &str, cap: usize) -> (r: usize)
    requires
        cap <= usize::MAX - 4,
    ensures
        r == if utf8_len(s@) < cap { utf8_len(s@) } else { cap as nat },
{
    let n = s.unicode_len();
    let mut acc: usize = 0;
    let mut i: usize = 0;
    assert(s@.take(0) =~= Seq::<char>::empty());
    while i < n
        invariant
            n == s@.len(),
            cap <= usize::MAX - 4,
            i <= n,
            acc == utf8_len(s@.take(i as int)),
            acc < cap || i == 0 && acc == 0,
        decreases n - i,
    {
        if acc >= cap {
            proof {
                if i < n {
                    lemma_utf8_len_grows(s@, i as int, n as int);
                }
                assert(s@.take(n as int) =~= s@);
            }
            return cap;
        }
        let w = char_width_exec(s.get_char(i));
        proof {
            lemma_utf8_len_step(s@, i as int);
        }
        acc = acc + w;
        i += 1;
        if acc >= cap {
            proof {
                if i < n {
                    lemma_utf8_len_grows(s@, i as int, n as int);
                }
                assert(s@.take(n as int) =~= s@);
            }
            return cap;
        }
    }
    assert(s@.take(n as int) =~= s@);
    acc
}

/// The position of the first occurrence of `c` in `s`, if any.
pub open spec fn first_index_of(s: Seq<char>, c: char) -> Option<int> {
    if exists|i: int| 0 <= i < s.len() && s[i] == c {
        Some(choose|i: int| 0 <= i < s.len() && s[i] == c && forall|k: int| 0 <= k < i ==> s[k] != c)
    } else {
        None
    }
}

pub fn find_char(s: &str, c: char) -> (r: Option<usize>)
    ensures
        match r {
            Some(i) => i < s@.len() && s@[i as int] == c && forall|k: int| 0 <= k < i ==> s@[k] != c,
            None => forall|k: int| 0 <= k < s@.len() ==> s@[k] != c,
        },
        r matches Some(i) ==> first_index_of(s@, c) == Some(i as int),
        r is None ==> first_index_of(s@, c) is None,
{
    let n = s.unicode_len();
    let mut i: usize = 0;
    while i < n
        invariant
            n == s@.len(),
            i <= n,
            forall|k: int| 0 <= k < i ==> s@[k] != c,
        decreases n - i,
    {
        if s.get_char(i) == c {
            let ghost j = choose|j: int| 0 <= j < s@.len() && s@[j] == c && forall|k: int| 0 <= k < j ==> s@[k] != c;
            assert(0 <= i < s@.len() && s@[i as int] == c && forall|k: int| 0 <= k < i ==> s@[k] != c);
            assert(j == i) by {
                if j < i {
                } else if j > i {
                }
            }
            return Some(i);
        }
        i += 1;
    }
    None
}

} // verus!
