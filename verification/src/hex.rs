//! Byte sequences, their hexadecimal (nibble) expansion, and the
//! lexicographic order used for object identifiers.
//!
//! Object identifiers are opaque byte strings ordered
//! byte-lexicographically.  Prefix queries are phrased in hexadecimal
//! digits, i.e. over the nibble expansion of the bytes, so this module
//! proves that the byte order and the nibble order agree, and provides
//! the common-prefix machinery behind shortest-unique-prefix queries.

use vstd::prelude::*;

verus! {

/// The sequence of hex digit values (each in `0..16`) of a byte string:
/// high nibble first.
pub open spec fn nibbles_of(bytes: Seq<u8>) -> Seq<u8> {
    Seq::new(bytes.len() * 2, |i: int| if i % 2 == 0 { bytes[i / 2] / 16 } else { bytes[i / 2] % 16 })
}

/// Length of the longest common prefix of two sequences.
pub open spec fn common_len(a: Seq<u8>, b: Seq<u8>) -> nat
    decreases a.len(),
{
    if a.len() == 0 || b.len() == 0 || a[0] != b[0] {
        0
    } else {
        1 + common_len(a.skip(1), b.skip(1))
    }
}

/// Strict lexicographic order on byte sequences.
pub open spec fn lex_lt(a: Seq<u8>, b: Seq<u8>) -> bool
    decreases a.len(),
{
    if b.len() == 0 {
        false
    } else if a.len() == 0 {
        true
    } else if a[0] < b[0] {
        true
    } else if a[0] > b[0] {
        false
    } else {
        lex_lt(a.skip(1), b.skip(1))
    }
}

pub open spec fn lex_leq(a: Seq<u8>, b: Seq<u8>) -> bool {
    lex_lt(a, b) || a == b
}

/// `p` is a prefix of `a`.
pub open spec fn is_prefix(p: Seq<u8>, a: Seq<u8>) -> bool {
    p.len() <= a.len() && p == a.subrange(0, p.len() as int)
}

pub proof fn lemma_common_len_bounds(a: Seq<u8>, b: Seq<u8>)
    ensures
        common_len(a, b) <= a.len(),
        common_len(a, b) <= b.len(),
        common_len(a, b) == common_len(b, a),
        forall|i: int| 0 <= i < common_len(a, b) ==> a[i] == b[i],
        common_len(a, b) < a.len() && common_len(a, b) < b.len() ==> a[common_len(a, b) as int]
            != b[common_len(a, b) as int],
    decreases a.len(),
{
    if a.len() == 0 || b.len() == 0 || a[0] != b[0] {
    } else {
        lemma_common_len_bounds(a.skip(1), b.skip(1));
        assert forall|i: int| 0 <= i < common_len(a, b) implies a[i] == b[i] by {
            if i > 0 {
                assert(a.skip(1)[i - 1] == a[i]);
                assert(b.skip(1)[i - 1] == b[i]);
            }
        }
    }
}

/// A common prefix of length `n` means the common-prefix length is at least `n`.
pub proof fn lemma_common_len_at_least(a: Seq<u8>, b: Seq<u8>, n: int)
    requires
        0 <= n <= a.len(),
        n <= b.len(),
        forall|i: int| 0 <= i < n ==> a[i] == b[i],
    ensures
        common_len(a, b) >= n,
    decreases n,
{
    if n > 0 {
        assert(a[0] == b[0]);
        assert forall|i: int| 0 <= i < n - 1 implies a.skip(1)[i] == b.skip(1)[i] by {
            assert(a[i + 1] == b[i + 1]);
        }
        lemma_common_len_at_least(a.skip(1), b.skip(1), n - 1);
    }
}

/// Lexicographic comparison, restated through the common prefix.
pub proof fn lemma_lex_lt_by_common(a: Seq<u8>, b: Seq<u8>)
    ensures
        lex_lt(a, b) <==> {
            let l = common_len(a, b) as int;
            (l == a.len() && l < b.len()) || (l < a.len() && l < b.len() && a[l] < b[l])
        },
    decreases a.len(),
{
    lemma_common_len_bounds(a, b);
    if a.len() == 0 || b.len() == 0 || a[0] != b[0] {
    } else {
        lemma_lex_lt_by_common(a.skip(1), b.skip(1));
        lemma_common_len_bounds(a.skip(1), b.skip(1));
        let l = common_len(a, b) as int;
        assert(l - 1 == common_len(a.skip(1), b.skip(1)));
        if 0 < l < a.len() && l < b.len() {
            assert(a.skip(1)[l - 1] == a[l]);
            assert(b.skip(1)[l - 1] == b[l]);
        }
    }
}

/// Exactly one of `a < b`, `a == b`, `b < a` holds.
pub proof fn lemma_lex_trichotomy(a: Seq<u8>, b: Seq<u8>)
    ensures
        lex_lt(a, b) || lex_lt(b, a) || a == b,
        lex_lt(a, b) ==> !lex_lt(b, a) && a != b,
        lex_lt(b, a) ==> a != b,
    decreases a.len(),
{
    if a.len() == 0 && b.len() == 0 {
        assert(a =~= b);
    } else if a.len() == 0 || b.len() == 0 || a[0] != b[0] {
    } else {
        lemma_lex_trichotomy(a.skip(1), b.skip(1));
        if a.skip(1) == b.skip(1) {
            assert forall|i: int| 0 <= i < a.len() implies a[i] == b[i] by {
                if i > 0 {
                    assert(a.skip(1)[i - 1] == b.skip(1)[i - 1]);
                }
            }
            assert(a =~= b);
        }
        if a == b {
            assert(a.skip(1) =~= b.skip(1));
        }
    }
}

pub proof fn lemma_lex_transitive(a: Seq<u8>, b: Seq<u8>, c: Seq<u8>)
    requires
        lex_leq(a, b),
        lex_leq(b, c),
    ensures
        lex_leq(a, c),
        lex_lt(a, b) || lex_lt(b, c) ==> lex_lt(a, c),
    decreases a.len() + b.len() + c.len(),
{
    if a == b || b == c {
    } else {
        if a.len() == 0 {
            assert(lex_lt(a, c)) by {
                if c.len() == 0 {
                    assert(b.len() > 0 && lex_lt(b, c) == false);
                }
            }
        } else {
            assert(b.len() > 0);
            assert(c.len() > 0);
            if a[0] == b[0] && b[0] == c[0] {
                lemma_lex_trichotomy(a.skip(1), b.skip(1));
                lemma_lex_trichotomy(b.skip(1), c.skip(1));
                lemma_lex_transitive(a.skip(1), b.skip(1), c.skip(1));
                lemma_lex_trichotomy(a.skip(1), c.skip(1));
                if a.skip(1) =~= c.skip(1) {
                    assert(lex_lt(a.skip(1), b.skip(1)) || lex_lt(b.skip(1), c.skip(1)));
                    assert(lex_lt(a.skip(1), c.skip(1)));
                }
            }
        }
    }
}

/// For `a <= b <= c` the middle sequence shares at least as long a
/// prefix with each end as the two ends share with each other.
pub proof fn lemma_common_len_between(a: Seq<u8>, b: Seq<u8>, c: Seq<u8>)
    requires
        lex_leq(a, b),
        lex_leq(b, c),
    ensures
        common_len(a, c) <= common_len(a, b),
        common_len(a, c) <= common_len(b, c),
    decreases a.len(),
{
    if a.len() == 0 || c.len() == 0 || a[0] != c[0] {
    } else {
        // a and c agree on their first element, and b lies between them.
        if a == b || b == c {
            lemma_common_len_bounds(a, b);
            lemma_common_len_bounds(b, c);
            lemma_common_len_bounds(a, c);
        } else {
            assert(b.len() > 0);
            assert(!(a[0] < b[0]) ==> a[0] == b[0]);
            assert(!(b[0] < c[0]) ==> b[0] == c[0]);
            if a[0] < b[0] || b[0] < c[0] {
                // then a[0] < c[0] or similar, contradicting a[0] == c[0]
                assert(a[0] == c[0]);
                assert(false) by {
                    if a[0] < b[0] {
                        assert(lex_lt(b, c) ==> b[0] <= c[0]);
                    } else {
                        assert(lex_lt(a, b) ==> a[0] <= b[0]);
                    }
                }
            }
            assert(a[0] == b[0] && b[0] == c[0]);
            lemma_lex_trichotomy(a.skip(1), b.skip(1));
            lemma_lex_trichotomy(b.skip(1), c.skip(1));
            lemma_common_len_between(a.skip(1), b.skip(1), c.skip(1));
        }
    }
}

/// `p` is a prefix of `a` exactly when their common prefix is all of `p`.
pub proof fn lemma_prefix_common_len(p: Seq<u8>, a: Seq<u8>)
    ensures
        is_prefix(p, a) <==> common_len(p, a) == p.len(),
{
    lemma_common_len_bounds(p, a);
    if common_len(p, a) == p.len() {
        assert(p =~= a.subrange(0, p.len() as int));
    }
    if is_prefix(p, a) {
        assert(forall|i: int| 0 <= i < p.len() ==> p[i] == a.subrange(0, p.len() as int)[i]);
        lemma_common_len_at_least(p, a, p.len() as int);
    }
}

/// In a lexicographically ordered range, the sequences extending a
/// given prefix form a contiguous interval.
pub proof fn lemma_prefix_interval(p: Seq<u8>, a: Seq<u8>, b: Seq<u8>, c: Seq<u8>)
    requires
        lex_leq(a, b),
        lex_leq(b, c),
        is_prefix(p, a),
        is_prefix(p, c),
    ensures
        is_prefix(p, b),
{
    lemma_prefix_common_len(p, a);
    lemma_prefix_common_len(p, c);
    lemma_common_len_bounds(p, a);
    lemma_common_len_bounds(p, c);
    assert(forall|i: int| 0 <= i < p.len() ==> a[i] == p[i] && c[i] == p[i]);
    lemma_common_len_at_least(a, c, p.len() as int);
    lemma_common_len_between(a, b, c);
    lemma_common_len_bounds(a, b);
    assert(common_len(a, b) >= p.len());
    assert(p.len() <= b.len());
    assert(forall|i: int| 0 <= i < p.len() ==> b[i] == a[i]);
    lemma_common_len_at_least(p, b, p.len() as int);
    lemma_common_len_bounds(p, b);
    lemma_prefix_common_len(p, b);
}

/// Byte-lexicographic order agrees with nibble-lexicographic order.
pub proof fn lemma_lex_bytes_nibbles(a: Seq<u8>, b: Seq<u8>)
    ensures
        lex_lt(a, b) <==> lex_lt(nibbles_of(a), nibbles_of(b)),
    decreases a.len(),
{
    let na = nibbles_of(a);
    let nb = nibbles_of(b);
    if a.len() == 0 || b.len() == 0 {
        assert(a.len() == 0 ==> na.len() == 0);
        assert(b.len() == 0 ==> nb.len() == 0);
        assert(a.len() > 0 ==> na.len() > 0);
        assert(b.len() > 0 ==> nb.len() > 0);
    } else {
        assert(na[0] == a[0] / 16 && na[1] == a[0] % 16);
        assert(nb[0] == b[0] / 16 && nb[1] == b[0] % 16);
        lemma_nibble_pair_order(a[0], b[0]);
        if a[0] == b[0] {
            lemma_lex_bytes_nibbles(a.skip(1), b.skip(1));
            assert(nibbles_of(a.skip(1)) =~= na.skip(2)) by {
                lemma_nibbles_skip(a);
            }
            assert(nibbles_of(b.skip(1)) =~= nb.skip(2)) by {
                lemma_nibbles_skip(b);
            }
            assert(lex_lt(a, b) == lex_lt(a.skip(1), b.skip(1)));
            assert(na.len() >= 2 && nb.len() >= 2);
            assert(na[0] == nb[0]);
            assert(lex_lt(na, nb) == lex_lt(na.skip(1), nb.skip(1)));
            assert(na.skip(1)[0] == na[1] && nb.skip(1)[0] == nb[1]);
            assert(na.skip(1)[0] == nb.skip(1)[0]);
            assert(lex_lt(na.skip(1), nb.skip(1)) == lex_lt(na.skip(1).skip(1), nb.skip(1).skip(1)));
            assert(na.skip(1).skip(1) =~= na.skip(2));
            assert(nb.skip(1).skip(1) =~= nb.skip(2));
        } else {
            assert(na.len() >= 2 && nb.len() >= 2);
            if a[0] / 16 == b[0] / 16 {
                let sa = na.skip(1);
                let sb = nb.skip(1);
                assert(sa.len() >= 1 && sb.len() >= 1);
                assert(sa[0] == na[1] && sb[0] == nb[1]);
                assert(sa[0] != sb[0]);
                assert(lex_lt(na, nb) == lex_lt(sa, sb));
                assert(lex_lt(sa, sb) == (a[0] % 16 < b[0] % 16));
            } else {
                assert(lex_lt(na, nb) == (a[0] / 16 < b[0] / 16));
            }
        }
    }
}

/// Order on a byte matches order on its (high, low) nibble pair.
proof fn lemma_nibble_pair_order(x: u8, y: u8)
    ensures
        x < y <==> (x / 16 < y / 16 || (x / 16 == y / 16 && x % 16 < y % 16)),
        x == y <==> (x / 16 == y / 16 && x % 16 == y % 16),
{
    assert(x == 16 * (x / 16) + x % 16) by (nonlinear_arith);
    assert(y == 16 * (y / 16) + y % 16) by (nonlinear_arith);
    assert(x / 16 < y / 16 ==> 16 * (x / 16) + 16 <= 16 * (y / 16)) by (nonlinear_arith);
    assert(y / 16 < x / 16 ==> 16 * (y / 16) + 16 <= 16 * (x / 16)) by (nonlinear_arith);
}

proof fn lemma_nibbles_skip(a: Seq<u8>)
    requires
        a.len() > 0,
    ensures
        nibbles_of(a.skip(1)) =~= nibbles_of(a).skip(2),
{
    let l = nibbles_of(a.skip(1));
    let r = nibbles_of(a).skip(2);
    assert forall|i: int| 0 <= i < l.len() implies l[i] == r[i] by {
        assert(a.skip(1)[i / 2] == a[i / 2 + 1]);
        assert((i + 2) / 2 == i / 2 + 1);
        assert((i + 2) % 2 == i % 2);
    }
}

/// Exec comparison: `a` is lexicographically smaller than `b`.
pub fn bytes_lt(a: &Vec<u8>, b: &Vec<u8>) -> (r: bool)
    ensures
        r == lex_lt(a@, b@),
{
    let mut i: usize = 0;
    proof {
        assert(a@.skip(0) =~= a@);
        assert(b@.skip(0) =~= b@);
    }
    loop
        invariant
            i <= a.len(),
            i <= b.len(),
            lex_lt(a@, b@) == lex_lt(a@.skip(i as int), b@.skip(i as int)),
        decreases a.len() - i,
    {
        let ghost sa = a@.skip(i as int);
        let ghost sb = b@.skip(i as int);
        proof {
            assert(sa.len() > 0 ==> sa[0] == a@[i as int]);
            assert(sb.len() > 0 ==> sb[0] == b@[i as int]);
        }
        if i == b.len() {
            return false;
        }
        if i == a.len() {
            return true;
        }
        if a[i] < b[i] {
            return true;
        }
        if a[i] > b[i] {
            return false;
        }
        proof {
            assert(sa.skip(1) =~= a@.skip(i + 1));
            assert(sb.skip(1) =~= b@.skip(i + 1));
            assert(lex_lt(sa, sb) == lex_lt(sa.skip(1), sb.skip(1)));
        }
        i = i + 1;
    }
}

/// Exec equality of byte strings.
pub fn bytes_eq(a: &Vec<u8>, b: &Vec<u8>) -> (r: bool)
    ensures
        r == (a@ == b@),
{
    if a.len() != b.len() {
        proof {
            assert(a@ != b@);
        }
        return false;
    }
    let mut i: usize = 0;
    while i < a.len()
        invariant
            i <= a.len(),
            a.len() == b.len(),
            forall|j: int| 0 <= j < i ==> a@[j] == b@[j],
        decreases a.len() - i,
    {
        if a[i] != b[i] {
            return false;
        }
        i = i + 1;
    }
    proof {
        assert(a@ =~= b@);
    }
    true
}

/// Exec copy of a byte string.
pub fn bytes_copy(a: &Vec<u8>) -> (r: Vec<u8>)
    ensures
        r@ == a@,
{
    let mut r: Vec<u8> = Vec::new();
    let mut i: usize = 0;
    while i < a.len()
        invariant
            i <= a.len(),
            r@ =~= a@.subrange(0, i as int),
        decreases a.len() - i,
    {
        r.push(a[i]);
        i = i + 1;
    }
    proof {
        assert(r@ =~= a@);
    }
    r
}

/// Number of hexadecimal digits shared by the hex forms of two byte
/// strings: full bytes count two digits, a byte agreeing only in its
/// high nibble counts one more.
pub fn common_hex_len(a: &Vec<u8>, b: &Vec<u8>) -> (r: usize)
    ensures
        r == common_len(nibbles_of(a@), nibbles_of(b@)),
{
    let na = nibbles_of_exec(a);
    let nb = nibbles_of_exec(b);
    let mut i: usize = 0;
    proof {
        assert(na@.skip(0) =~= na@);
        assert(nb@.skip(0) =~= nb@);
    }
    loop
        invariant
            na@ == nibbles_of(a@),
            nb@ == nibbles_of(b@),
            i <= na.len(),
            i <= nb.len(),
            common_len(na@, nb@) == i + common_len(na@.skip(i as int), nb@.skip(i as int)),
        decreases na.len() - i,
    {
        let ghost sa = na@.skip(i as int);
        let ghost sb = nb@.skip(i as int);
        proof {
            assert(sa.len() > 0 ==> sa[0] == na@[i as int]);
            assert(sb.len() > 0 ==> sb[0] == nb@[i as int]);
        }
        if i == na.len() || i == nb.len() {
            return i;
        }
        if na[i] != nb[i] {
            return i;
        }
        proof {
            assert(sa.skip(1) =~= na@.skip(i + 1));
            assert(sb.skip(1) =~= nb@.skip(i + 1));
            assert(common_len(sa, sb) == 1 + common_len(sa.skip(1), sb.skip(1)));
        }
        i = i + 1;
    }
}

/// The nibble expansion of a byte string, as an exec value.
pub fn nibbles_of_exec(a: &Vec<u8>) -> (r: Vec<u8>)
    ensures
        r@ == nibbles_of(a@),
{
    let mut r: Vec<u8> = Vec::new();
    let mut i: usize = 0;
    while i < a.len()
        invariant
            i <= a.len(),
            r@ =~= nibbles_of(a@.subrange(0, i as int)),
        decreases a.len() - i,
    {
        let ghost before = a@.subrange(0, i as int);
        r.push(a[i] / 16);
        r.push(a[i] % 16);
        i = i + 1;
        proof {
            let now = a@.subrange(0, i as int);
            assert(now.len() == before.len() + 1);
            assert forall|j: int| 0 <= j < now.len() * 2 implies r@[j] == nibbles_of(now)[j] by {
                if j < before.len() * 2 {
                    assert(now[j / 2] == before[j / 2]);
                } else {
                    assert(j / 2 == before.len());
                    assert(now[j / 2] == a@[i - 1]);
                }
            }
            assert(r@ =~= nibbles_of(now));
        }
    }
    proof {
        assert(a@.subrange(0, a@.len() as int) =~= a@);
    }
    r
}

} // verus!

verus! {

/// The nibble expansion determines the bytes.
pub proof fn lemma_nibbles_injective(a: Seq<u8>, b: Seq<u8>)
    requires
        nibbles_of(a) == nibbles_of(b),
    ensures
        a == b,
{
    assert(nibbles_of(a).len() == nibbles_of(b).len());
    assert(nibbles_of(a).len() == a.len() * 2);
    assert(nibbles_of(b).len() == b.len() * 2);
    assert(a.len() == b.len());
    assert forall|i: int| 0 <= i < a.len() implies a[i] == b[i] by {
        assert(nibbles_of(a)[2 * i] == a[i] / 16 && nibbles_of(a)[2 * i + 1] == a[i] % 16);
        assert(nibbles_of(b)[2 * i] == b[i] / 16 && nibbles_of(b)[2 * i + 1] == b[i] % 16);
        lemma_nibble_pair_order(a[i], b[i]);
    }
    assert(a =~= b);
}

/// Order carries from bytes to nibbles, weakly.
pub proof fn lemma_leq_bytes_nibbles(a: Seq<u8>, b: Seq<u8>)
    requires
        lex_leq(a, b),
    ensures
        lex_leq(nibbles_of(a), nibbles_of(b)),
{
    if a == b {
    } else {
        lemma_lex_bytes_nibbles(a, b);
    }
}

} // verus!
