//! Goal, event and annotation ids.
//!
//! A goal id is its kind's letter (`a` or `c`), its depth in base 15 with `f`
//! as the continuation digit, and random hex digits up to 16 characters.
use vstd::prelude::*;
use crate::model::GoalKind;
use crate::text::{char_boundary, char_boundary_exec, concat, hex_char, hex_char_exec, push_char, substring, utf8_len, utf8_len_capped};

verus! {

/// The depth code: `depth / 15` letters `f`, then the digit `depth % 15`.
pub open spec fn depth_code(depth: nat) -> Seq<char>
    decreases depth,
{
    if depth < 15 {
        seq![hex_char(depth as int)]
    } else {
        seq!['f'] + depth_code((depth - 15) as nat)
    }
}

/// The letter of a goal kind.
pub open spec fn kind_char(kind: GoalKind) -> char {
    match kind {
        GoalKind::Achievable => 'a',
        GoalKind::Continuous => 'c',
    }
}

/// The kind letter followed by the depth code.
pub open spec fn id_prefix(kind: GoalKind, depth: nat) -> Seq<char> {
    seq![kind_char(kind)] + depth_code(depth)
}

/// How many random characters follow a prefix: enough to reach 16 in all.
pub open spec fn random_len(prefix_len: int) -> int {
    if prefix_len >= 16 { 0 } else { 16 - prefix_len }
}

/// The value of a hexadecimal digit in either case, and 0 for any other character.
pub open spec fn hex_value(c: char) -> int {
    let n = c as u32;
    if 48 <= n <= 57 {
        n - 48
    } else if 97 <= n <= 102 {
        n - 87
    } else if 65 <= n <= 70 {
        n - 55
    } else {
        0
    }
}

/// The depth read from position `i` on: each `f` adds 15, and the first other
/// character adds its hexadecimal value and ends the code.
pub open spec fn depth_from(s: Seq<char>, i: int) -> int
    decreases s.len() - i,
{
    if i < 0 || i >= s.len() {
        0
    } else if s[i] == 'f' {
        15 + depth_from(s, i + 1)
    } else {
        hex_value(s[i])
    }
}

/// The depth that an id encodes: the code after its first character.
pub open spec fn id_depth(id: Seq<char>) -> int {
    depth_from(id, 1)
}

/// The kind that an id encodes: achievable when it starts with `a`.
pub open spec fn id_kind(id: Seq<char>) -> GoalKind {
    if id.len() > 0 && id[0] == 'a' {
        GoalKind::Achievable
    } else {
        GoalKind::Continuous
    }
}

/// Two lower-case hexadecimal digits of a byte.
pub open spec fn byte_hex(b: u8) -> Seq<char> {
    seq![hex_char((b / 16) as int), hex_char((b % 16) as int)]
}

/// The lower-case hexadecimal text of a byte string.
pub open spec fn hex_of(bytes: Seq<u8>) -> Seq<char>
    decreases bytes.len(),
{
    if bytes.len() == 0 {
        Seq::empty()
    } else {
        hex_of(bytes.drop_last()) + byte_hex(bytes.last())
    }
}

/// Whether a character is a lower-case hexadecimal digit.
pub open spec fn is_hex_lower(c: char) -> bool {
    (48 <= (c as u32) <= 57) || (97 <= (c as u32) <= 102)
}

pub proof fn lemma_hex_of_len(bytes: Seq<u8>)
    ensures
        hex_of(bytes).len() == 2 * bytes.len(),
    decreases bytes.len(),
{
    if bytes.len() > 0 {
        lemma_hex_of_len(bytes.drop_last());
    }
}

pub proof fn lemma_hex_of_digits(bytes: Seq<u8>)
    ensures
        forall|i: int| 0 <= i < hex_of(bytes).len() ==> is_hex_lower(#[trigger] hex_of(bytes)[i]),
    decreases bytes.len(),
{
    if bytes.len() > 0 {
        lemma_hex_of_digits(bytes.drop_last());
        lemma_hex_of_len(bytes.drop_last());
        let h = hex_of(bytes.drop_last());
        let b = bytes.last();
        assert forall|i: int| 0 <= i < hex_of(bytes).len() implies is_hex_lower(#[trigger] hex_of(bytes)[i]) by {
            if i >= h.len() {
                assert(hex_of(bytes)[i] == byte_hex(b)[i - h.len()]);
            } else {
                assert(hex_of(bytes)[i] == h[i]);
            }
        }
    }
}

pub proof fn lemma_depth_code_len(depth: nat)
    ensures
        depth_code(depth).len() == depth / 15 + 1,
    decreases depth,
{
    if depth >= 15 {
        lemma_depth_code_len((depth - 15) as nat);
    }
}

/// A depth code at position `i` reads back as its depth, whatever follows it.
pub proof fn lemma_depth_code_reads(s: Seq<char>, i: int, depth: nat)
    requires
        0 <= i,
        i + depth_code(depth).len() <= s.len(),
        s.subrange(i, i + depth_code(depth).len()) == depth_code(depth),
    ensures
        depth_from(s, i) == depth,
    decreases depth,
{
    let c = depth_code(depth);
    assert(s[i] == s.subrange(i, i + c.len())[0]);
    if depth < 15 {
        let n = hex_char(depth as int) as u32;
        assert(n == (if depth < 10 { depth + 48 } else { depth + 87 }));
    } else {
        let rest = depth_code((depth - 15) as nat);
        assert(c == seq!['f'] + rest);
        assert((seq!['f'] + rest).subrange(1, c.len() as int) =~= rest);
        assert(s.subrange(i + 1, i + 1 + rest.len()) =~= s.subrange(i, i + c.len()).subrange(1, c.len() as int));
        lemma_depth_code_reads(s, i + 1, (depth - 15) as nat);
    }
}

/// An id that starts with the prefix for `kind` and `depth` encodes that kind
/// and that depth.
pub proof fn lemma_prefix_decodes(id: Seq<char>, kind: GoalKind, depth: nat)
    requires
        id_prefix(kind, depth).len() <= id.len(),
        id.take(id_prefix(kind, depth).len() as int) == id_prefix(kind, depth),
    ensures
        id_kind(id) == kind,
        id_depth(id) == depth,
{
    let p = id_prefix(kind, depth);
    assert(id[0] == p[0]);
    assert(id.subrange(1, 1 + depth_code(depth).len() as int) =~= p.subrange(1, p.len() as int));
    assert(p.subrange(1, p.len() as int) =~= depth_code(depth));
    lemma_depth_code_reads(id, 1, depth);
}

/// The depth code of `depth`.
pub fn encode_depth(depth: u32) -> (s: String)
    ensures
        s@ == depth_code(depth as nat),
{
    let mut out = String::new();
    let mut d = depth;
    while d >= 15
        invariant
            out@ + depth_code(d as nat) == depth_code(depth as nat),
        decreases d,
    {
        push_char(&mut out, 'f');
        assert(depth_code(d as nat) == seq!['f'] + depth_code((d - 15) as nat));
        assert(out@ + depth_code((d - 15) as nat) =~= depth_code(depth as nat));
        d = d - 15;
    }
    let c = hex_char_exec(d as u8);
    push_char(&mut out, c);
    assert(depth_code(d as nat) == seq![c]);
    assert(out@ =~= depth_code(depth as nat));
    out
}

fn hex_value_exec(c: char) -> (v: u32)
    ensures
        v == hex_value(c),
{
    let n = c as u32;
    if 48 <= n && n <= 57 {
        n - 48
    } else if 97 <= n && n <= 102 {
        n - 87
    } else if 65 <= n && n <= 70 {
        n - 55
    } else {
        0
    }
}

pub proof fn lemma_depth_from_nonneg(s: Seq<char>, i: int)
    ensures
        depth_from(s, i) >= 0,
    decreases s.len() - i,
{
    if 0 <= i < s.len() && s[i] == 'f' {
        lemma_depth_from_nonneg(s, i + 1);
    }
}

/// The depth that `id` encodes.
pub fn parse_depth(id: &str) -> (depth: u32)
    requires
        id_depth(id@) <= u32::MAX,
    ensures
        depth == id_depth(id@),
{
    let n = id.unicode_len();
    let mut depth: u32 = 0;
    let mut i: usize = 1;
    while i < n
        invariant
            n == id@.len(),
            1 <= i,
            depth + depth_from(id@, i as int) == id_depth(id@),
            id_depth(id@) <= u32::MAX,
        decreases n - i,
    {
        let ch = id.get_char(i);
        proof {
            lemma_depth_from_nonneg(id@, i + 1);
        }
        if ch == 'f' {
            depth = depth + 15;
        } else {
            depth = depth + hex_value_exec(ch);
            return depth;
        }
        i += 1;
    }
    depth
}

/// The kind that `id` encodes.
pub fn kind_from_id(id: &str) -> (kind: GoalKind)
    ensures
        kind == id_kind(id@),
{
    if id.unicode_len() > 0 && id.get_char(0) == 'a' {
        GoalKind::Achievable
    } else {
        GoalKind::Continuous
    }
}

/// The letter of `kind`.
pub fn kind_char_exec(kind: GoalKind) -> (c: char)
    ensures
        c == kind_char(kind),
{
    match kind {
        GoalKind::Achievable => 'a',
        GoalKind::Continuous => 'c',
    }
}

/// The lower-case hexadecimal text of `bytes`.
pub fn hex_string(bytes: &[u8]) -> (s: String)
    ensures
        s@ == hex_of(bytes@),
{
    let mut s = String::new();
    let mut i: usize = 0;
    while i < bytes.len()
        invariant
            i <= bytes.len(),
            s@ == hex_of(bytes@.take(i as int)),
        decreases bytes.len() - i,
    {
        let b = bytes[i];
        assert(bytes@.take(i + 1).drop_last() =~= bytes@.take(i as int));
        push_char(&mut s, hex_char_exec(b / 16));
        push_char(&mut s, hex_char_exec(b % 16));
        assert(s@ =~= hex_of(bytes@.take(i + 1)));
        i += 1;
    }
    assert(bytes@.take(bytes.len() as int) =~= bytes@);
    s
}

/// `n` random bytes.
///
/// Trusted: fills a buffer of `n` bytes with `rand::rng()` and
/// `RngExt::fill` from the `rand` crate. The contract claims only that the
/// result has `n` bytes: their values come from chance. Left unsaid: `rng()`
/// panics where the system's random source fails when the generator is first
/// seeded, which no argument decides.
#[verifier::external_body]
fn random_bytes(n: usize) -> (bytes: Vec<u8>)
    ensures
        bytes@.len() == n,
{
    let mut bytes = vec![0u8; n];
    rand::RngExt::fill(&mut rand::rng(), &mut bytes[..]);
    bytes
}

/// The goal id made of the prefix for `kind` and `depth` and the first
/// random characters of the hexadecimal text of `bytes`.
pub open spec fn id_from_bytes(kind: GoalKind, depth: nat, bytes: Seq<u8>) -> Seq<char> {
    let prefix = id_prefix(kind, depth);
    prefix + hex_of(bytes).take(random_len(prefix.len() as int))
}

/// How many random bytes a fresh id for this prefix takes.
pub open spec fn random_bytes_needed(kind: GoalKind, depth: nat) -> int {
    (random_len(id_prefix(kind, depth).len() as int) + 1) / 2
}

/// The id for `kind` and `depth` whose random part comes from `bytes`.
pub fn id_with_random(kind: &GoalKind, depth: u32, bytes: &[u8]) -> (id: String)
    requires
        bytes@.len() == random_bytes_needed(*kind, depth as nat),
    ensures
        id@ == id_from_bytes(*kind, depth as nat, bytes@),
{
    let mut prefix = String::new();
    push_char(&mut prefix, kind_char_exec(*kind));
    let code = encode_depth(depth);
    prefix.append(code.as_str());
    proof {
        lemma_depth_code_len(depth as nat);
        lemma_hex_of_len(bytes@);
    }
    let plen = prefix.unicode_len();
    let rlen: usize = if plen >= 16 { 0 } else { 16 - plen };
    let hex = hex_string(bytes);
    let tail = substring(hex.as_str(), 0, rlen);
    assert(hex@.subrange(0, rlen as int) =~= hex@.take(rlen as int));
    concat(prefix.as_str(), tail.as_str())
}

/// A fresh id for a goal of `kind` at `depth`: its prefix, then random
/// hexadecimal characters.
pub fn generate_id(kind: &GoalKind, depth: u32) -> (id: String)
    ensures
        exists|bytes: Seq<u8>|
            bytes.len() == random_bytes_needed(*kind, depth as nat)
            && #[trigger] id_from_bytes(*kind, depth as nat, bytes) == id@,
        id_kind(id@) == *kind,
        id_depth(id@) == depth,
{
    proof {
        lemma_depth_code_len(depth as nat);
    }
    let plen: usize = if depth / 15 + 2 >= 16 { 16 } else { (depth / 15 + 2) as usize };
    let rlen: usize = 16 - plen;
    let bytes = random_bytes((rlen + 1) / 2);
    let id = id_with_random(kind, depth, bytes.as_slice());
    proof {
        lemma_id_from_bytes_decodes(*kind, depth as nat, bytes@);
    }
    id
}

/// A fresh id encodes its kind and its depth.
pub proof fn lemma_id_from_bytes_decodes(kind: GoalKind, depth: nat, bytes: Seq<u8>)
    ensures
        id_kind(id_from_bytes(kind, depth, bytes)) == kind,
        id_depth(id_from_bytes(kind, depth, bytes)) == depth,
{
    let p = id_prefix(kind, depth);
    let id = id_from_bytes(kind, depth, bytes);
    assert(id.take(p.len() as int) =~= p);
    lemma_prefix_decodes(id, kind, depth);
}

/// A derived id encodes its new kind and its new depth.
pub proof fn lemma_derived_id_decodes(old_id: Seq<char>, kind: GoalKind, depth: nat, bytes: Seq<u8>)
    ensures
        id_kind(derived_id(old_id, kind, depth, bytes)) == kind,
        id_depth(derived_id(old_id, kind, depth, bytes)) == depth,
{
    let p = id_prefix(kind, depth);
    let id = derived_id(old_id, kind, depth, bytes);
    assert(id.take(p.len() as int) =~= p);
    lemma_prefix_decodes(id, kind, depth);
}

/// The event id made of `e` and the first 15 hexadecimal characters of `bytes`.
pub open spec fn event_id_from_bytes(letter: char, bytes: Seq<u8>) -> Seq<char> {
    seq![letter] + hex_of(bytes).take(15)
}

/// `letter` followed by the first 15 hexadecimal characters of 8 bytes.
pub fn tagged_id_with_random(letter: char, bytes: &[u8]) -> (id: String)
    requires
        bytes@.len() == 8,
    ensures
        id@ == event_id_from_bytes(letter, bytes@),
{
    proof {
        lemma_hex_of_len(bytes@);
    }
    let hex = hex_string(bytes);
    let tail = substring(hex.as_str(), 0, 15);
    assert(hex@.subrange(0, 15) =~= hex@.take(15));
    let mut id = String::new();
    push_char(&mut id, letter);
    id.append(tail.as_str());
    id
}

/// A fresh history entry id: `e` and 15 random hexadecimal characters.
pub fn generate_event_id() -> (id: String)
    ensures
        exists|bytes: Seq<u8>| bytes.len() == 8 && #[trigger] event_id_from_bytes('e', bytes) == id@,
{
    let bytes = random_bytes(8);
    tagged_id_with_random('e', bytes.as_slice())
}

/// A fresh annotation id: `n` and 15 random hexadecimal characters.
pub fn generate_annotation_id() -> (id: String)
    ensures
        exists|bytes: Seq<u8>| bytes.len() == 8 && #[trigger] event_id_from_bytes('n', bytes) == id@,
{
    let bytes = random_bytes(8);
    tagged_id_with_random('n', bytes.as_slice())
}

/// How many bytes the prefix of `old_id` takes: its kind letter and the code
/// of the depth that it encodes.
pub open spec fn old_prefix_bytes(old_id: Seq<char>) -> int {
    1 + depth_code(id_depth(old_id) as nat).len() as int
}

/// The random part of an id: what follows the prefix that its depth implies
/// (cut after that many bytes of UTF-8).
pub open spec fn old_random(old_id: Seq<char>) -> Seq<char> {
    match char_boundary(old_id, old_prefix_bytes(old_id)) {
        Some(k) => old_id.subrange(k, old_id.len() as int),
        None => Seq::empty(),
    }
}

/// How many bytes of random part an id of this kind and depth has.
pub open spec fn new_random_bytes(kind: GoalKind, depth: nat) -> int {
    random_len(id_prefix(kind, depth).len() as int)
}

/// Whether `derive_id` can cut `old_id` for a new kind and depth: the depth
/// it encodes fits in 32 bits, the old prefix ends between two characters
/// (counted in UTF-8 bytes), and where the old random part has at least as
/// many bytes as the new id takes, the cut after those bytes falls between
/// two characters too.
pub open spec fn derivable(old_id: Seq<char>, kind: GoalKind, depth: nat) -> bool {
    let n = new_random_bytes(kind, depth);
    let r = old_random(old_id);
    &&& id_depth(old_id) <= u32::MAX
    &&& char_boundary(old_id, old_prefix_bytes(old_id)) is Some
    &&& utf8_len(r) >= n ==> char_boundary(r, n) is Some
}

/// The id derived from `old_id` for a new kind and depth: the new prefix, then
/// as much of the old random part as fits in 16 bytes, then (when the old
/// part is too short) the first hexadecimal characters of `bytes`.
pub open spec fn derived_id(old_id: Seq<char>, kind: GoalKind, depth: nat, bytes: Seq<u8>) -> Seq<char> {
    let prefix = id_prefix(kind, depth);
    let n = new_random_bytes(kind, depth);
    let r = old_random(old_id);
    if utf8_len(r) >= n {
        prefix + r.take(char_boundary(r, n)->Some_0)
    } else {
        prefix + r + hex_of(bytes).take(n - utf8_len(r))
    }
}

/// How many random bytes deriving an id takes: none when the old random part
/// is long enough.
pub open spec fn derive_bytes_needed(old_id: Seq<char>, kind: GoalKind, depth: nat) -> int {
    let n = new_random_bytes(kind, depth);
    let r = old_random(old_id);
    if utf8_len(r) >= n { 0 } else { (n - utf8_len(r) + 1) / 2 }
}

/// The number of characters of `old_id` that its prefix takes.
fn old_prefix_chars(old_id: &str) -> (k: usize)
    requires
        id_depth(old_id@) <= u32::MAX,
        char_boundary(old_id@, old_prefix_bytes(old_id@)) is Some,
    ensures
        char_boundary(old_id@, old_prefix_bytes(old_id@)) == Some(k as int),
{
    let old_depth = parse_depth(old_id);
    let old_code = encode_depth(old_depth);
    proof {
        lemma_depth_code_len(old_depth as nat);
    }
    let old_prefix_len = 1 + old_code.unicode_len();
    match char_boundary_exec(old_id, old_prefix_len) {
        Some(k) => k,
        // Not reached: the requirement puts a boundary there.
        None => 0,
    }
}

/// The number of bytes of random part that an id of this kind and depth has.
fn new_random_bytes_exec(new_kind: &GoalKind, new_depth: u32) -> (n: usize)
    ensures
        n == new_random_bytes(*new_kind, new_depth as nat),
        n <= 16,
{
    proof {
        lemma_depth_code_len(new_depth as nat);
    }
    let plen: usize = if new_depth / 15 + 2 >= 16 { 16 } else { (new_depth / 15 + 2) as usize };
    16 - plen
}

/// The id derived from `old_id` for `new_kind` and `new_depth`, with the
/// random part padded from `bytes` where needed.
pub fn derive_id_with_random(old_id: &str, new_kind: &GoalKind, new_depth: u32, bytes: &[u8]) -> (id: String)
    requires
        derivable(old_id@, *new_kind, new_depth as nat),
        bytes@.len() == derive_bytes_needed(old_id@, *new_kind, new_depth as nat),
    ensures
        id@ == derived_id(old_id@, *new_kind, new_depth as nat, bytes@),
{
    let mut prefix = String::new();
    push_char(&mut prefix, kind_char_exec(*new_kind));
    let code = encode_depth(new_depth);
    prefix.append(code.as_str());
    proof {
        lemma_depth_code_len(new_depth as nat);
        lemma_hex_of_len(bytes@);
    }
    let rlen = new_random_bytes_exec(new_kind, new_depth);
    let n = old_id.unicode_len();
    let k = old_prefix_chars(old_id);
    let old_rand = substring(old_id, k, n);
    let olen = utf8_len_capped(old_rand.as_str(), rlen);
    if olen >= rlen {
        let c = match char_boundary_exec(old_rand.as_str(), rlen) {
            Some(c) => c,
            // Not reached: `derivable` puts a boundary there.
            None => 0,
        };
        proof {
            assert(c <= old_rand@.len()) by {
                let w = choose|j: int| 0 <= j <= old_rand@.len() && utf8_len(#[trigger] old_rand@.take(j)) == rlen as int;
            }
        }
        let part = substring(old_rand.as_str(), 0, c);
        assert(old_rand@.subrange(0, c as int) =~= old_rand@.take(c as int));
        concat(prefix.as_str(), part.as_str())
    } else {
        let extra = rlen - olen;
        let hex = hex_string(bytes);
        let part = substring(hex.as_str(), 0, extra);
        assert(hex@.subrange(0, extra as int) =~= hex@.take(extra as int));
        let head = concat(prefix.as_str(), old_rand.as_str());
        concat(head.as_str(), part.as_str())
    }
}

/// The number of random bytes that deriving an id from `old_id` takes.
fn derive_bytes_count(old_id: &str, new_kind: &GoalKind, new_depth: u32) -> (n: usize)
    requires
        derivable(old_id@, *new_kind, new_depth as nat),
    ensures
        n == derive_bytes_needed(old_id@, *new_kind, new_depth as nat),
{
    let rlen = new_random_bytes_exec(new_kind, new_depth);
    let n = old_id.unicode_len();
    let k = old_prefix_chars(old_id);
    let old_rand = substring(old_id, k, n);
    let olen = utf8_len_capped(old_rand.as_str(), rlen);
    if olen >= rlen { 0 } else { (rlen - olen + 1) / 2 }
}

/// Derives a new id from an existing one for a new kind and depth, keeping the
/// random suffix: as much of it as fits, padded with fresh random characters
/// when the new prefix is shorter than the old.
pub fn derive_id(old_id: &str, new_kind: &GoalKind, new_depth: u32) -> (id: String)
    requires
        derivable(old_id@, *new_kind, new_depth as nat),
    ensures
        exists|bytes: Seq<u8>|
            bytes.len() == derive_bytes_needed(old_id@, *new_kind, new_depth as nat)
            && #[trigger] derived_id(old_id@, *new_kind, new_depth as nat, bytes) == id@,
        id_kind(id@) == *new_kind,
        id_depth(id@) == new_depth,
{
    let count = derive_bytes_count(old_id, new_kind, new_depth);
    let bytes = random_bytes(count);
    let id = derive_id_with_random(old_id, new_kind, new_depth, bytes.as_slice());
    proof {
        lemma_derived_id_decodes(old_id@, *new_kind, new_depth as nat, bytes@);
    }
    id
}

/// Whether the depth that `id` encodes fits in 32 bits.
pub fn depth_fits_exec(id: &str) -> (r: bool)
    ensures
        r == (id_depth(id@) <= u32::MAX),
{
    let n = id.unicode_len();
    let mut depth: u64 = 0;
    let mut i: usize = 1;
    while i < n
        invariant
            n == id@.len(),
            1 <= i,
            depth <= u32::MAX,
            depth + depth_from(id@, i as int) == id_depth(id@),
        decreases n - i,
    {
        let ch = id.get_char(i);
        proof {
            lemma_depth_from_nonneg(id@, i + 1);
        }
        if ch == 'f' {
            depth = depth + 15;
            if depth > u32::MAX as u64 {
                return false;
            }
        } else {
            depth = depth + hex_value_exec(ch) as u64;
            return depth <= u32::MAX as u64;
        }
        i += 1;
    }
    true
}

/// Whether `derive_id` can cut `old_id` for the new kind and depth (see
/// `derivable`).
pub fn derivable_exec(old_id: &str, new_kind: &GoalKind, new_depth: u32) -> (r: bool)
    ensures
        r == derivable(old_id@, *new_kind, new_depth as nat),
{
    if !depth_fits_exec(old_id) {
        return false;
    }
    let old_depth = parse_depth(old_id);
    let old_code = encode_depth(old_depth);
    proof {
        lemma_depth_code_len(old_depth as nat);
    }
    let old_prefix_len = 1 + old_code.unicode_len();
    let k = match char_boundary_exec(old_id, old_prefix_len) {
        None => {
            return false;
        },
        Some(k) => k,
    };
    proof {
        let w = choose|j: int| 0 <= j <= old_id@.len() && utf8_len(#[trigger] old_id@.take(j)) == old_prefix_len as int;
    }
    let n = old_id.unicode_len();
    let old_rand = substring(old_id, k, n);
    let rlen = new_random_bytes_exec(new_kind, new_depth);
    if utf8_len_capped(old_rand.as_str(), rlen) >= rlen {
        char_boundary_exec(old_rand.as_str(), rlen).is_some()
    } else {
        true
    }
}

} // verus!
