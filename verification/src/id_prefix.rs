//! Prefix index over object identifiers: `IdIndex`, a sorted key-value
//! table with prefix lookup and shortest-unique-prefix queries, and
//! `IdPrefixContext`, which composes a global index with an optional
//! disambiguation scope.

use vstd::prelude::*;
use vstd::pervasive::cloned;
use crate::hex::{
    lex_lt, lex_leq, nibbles_of, common_len, is_prefix, bytes_lt, bytes_eq, common_hex_len,
    lemma_lex_trichotomy, lemma_lex_transitive, lemma_lex_bytes_nibbles, lemma_prefix_interval,
    lemma_common_len_bounds, lemma_common_len_between, lemma_common_len_at_least,
};
use crate::backend::{ObjectId, CommitId, ChangeId};
use crate::hex_prefix::{HexPrefix, PrefixResolution, lemma_min_bytes_below};

verus! {

/// Whether the hex digits `p` lead the hex form of the key bytes `k`.
pub open spec fn prefix_matches(p: Seq<u8>, k: Seq<u8>) -> bool {
    is_prefix(p, nibbles_of(k))
}

/// Keys appear in non-decreasing byte order.
pub open spec fn keys_sorted<V>(s: Seq<(Seq<u8>, V)>) -> bool {
    forall|i: int, j: int| 0 <= i < j < s.len() ==> lex_leq((#[trigger] s[i]).0, (#[trigger] s[j]).0)
}

/// The entries whose key the prefix matches, in order.
pub open spec fn matching_pairs<V>(s: Seq<(Seq<u8>, V)>, p: Seq<u8>) -> Seq<(Seq<u8>, V)> {
    s.filter(|pr: (Seq<u8>, V)| prefix_matches(p, pr.0))
}

/// Two matched entries carry distinct keys.
pub open spec fn ambiguous<V>(s: Seq<(Seq<u8>, V)>, p: Seq<u8>) -> bool {
    exists|i: int, j: int|
        0 <= i < matching_pairs(s, p).len() && 0 <= j < matching_pairs(s, p).len() && (
        #[trigger] matching_pairs(s, p)[i]).0 != (#[trigger] matching_pairs(s, p)[j]).0
}

/// One more hex digit than the longest hex prefix `key` shares with any
/// entry under a distinct key; 1 when no distinct key exists.
pub open spec fn shortest_unique_len<V>(s: Seq<(Seq<u8>, V)>, key: Seq<u8>) -> nat
    decreases s.len(),
{
    if s.len() == 0 {
        1
    } else {
        let rest = shortest_unique_len(s.drop_last(), key);
        if s.last().0 != key {
            let cand = common_len(nibbles_of(s.last().0), nibbles_of(key)) + 1;
            if cand > rest {
                cand
            } else {
                rest
            }
        } else {
            rest
        }
    }
}

/// The defining properties of `shortest_unique_len`: it dominates every
/// distinct key's shared-prefix length, and is attained by one unless
/// every key equals `key`.
pub proof fn lemma_shortest_unique_len<V>(s: Seq<(Seq<u8>, V)>, key: Seq<u8>)
    ensures
        shortest_unique_len(s, key) >= 1,
        forall|i: int|
            0 <= i < s.len() && (#[trigger] s[i]).0 != key ==> common_len(
                nibbles_of(s[i].0),
                nibbles_of(key),
            ) + 1 <= shortest_unique_len(s, key),
        (exists|i: int|
            0 <= i < s.len() && (#[trigger] s[i]).0 != key && common_len(
                nibbles_of(s[i].0),
                nibbles_of(key),
            ) + 1 == shortest_unique_len(s, key)) || ((forall|i: int|
            0 <= i < s.len() ==> (#[trigger] s[i]).0 == key) && shortest_unique_len(s, key) == 1),
    decreases s.len(),
{
    if s.len() > 0 {
        let d = s.drop_last();
        lemma_shortest_unique_len(d, key);
        assert(forall|i: int| 0 <= i < d.len() ==> (#[trigger] d[i]) == s[i]);
        let su = shortest_unique_len(s, key);
        let sud = shortest_unique_len(d, key);
        let last = s.last();
        assert forall|i: int| 0 <= i < s.len() && (#[trigger] s[i]).0 != key implies common_len(
            nibbles_of(s[i].0),
            nibbles_of(key),
        ) + 1 <= su by {
            if i < s.len() - 1 {
                assert(d[i] == s[i]);
                assert(common_len(nibbles_of(d[i].0), nibbles_of(key)) + 1 <= sud);
                assert(sud <= su);
            }
        }
        if last.0 != key {
            let cand = common_len(nibbles_of(last.0), nibbles_of(key)) + 1;
            if cand > sud {
                assert(su == cand);
                assert(s[s.len() - 1] == last);
            } else {
                assert(su == sud);
                if exists|i: int|
                    0 <= i < d.len() && (#[trigger] d[i]).0 != key && common_len(
                        nibbles_of(d[i].0),
                        nibbles_of(key),
                    ) + 1 == sud {
                    let i = choose|i: int|
                        0 <= i < d.len() && (#[trigger] d[i]).0 != key && common_len(
                            nibbles_of(d[i].0),
                            nibbles_of(key),
                        ) + 1 == sud;
                    assert(s[i] == d[i]);
                } else {
                    assert(sud == 1);
                    assert(cand >= 1);
                    assert(cand == 1);
                    assert(s[s.len() - 1] == last);
                }
            }
        } else {
            assert(su == sud);
            if exists|i: int|
                0 <= i < d.len() && (#[trigger] d[i]).0 != key && common_len(
                    nibbles_of(d[i].0),
                    nibbles_of(key),
                ) + 1 == sud {
                let i = choose|i: int|
                    0 <= i < d.len() && (#[trigger] d[i]).0 != key && common_len(
                        nibbles_of(d[i].0),
                        nibbles_of(key),
                    ) + 1 == sud;
                assert(s[i] == d[i]);
            } else {
                assert forall|i: int| 0 <= i < s.len() implies (#[trigger] s[i]).0 == key by {
                    if i < s.len() - 1 {
                        assert(s[i] == d[i]);
                    }
                }
            }
        }
    }
}

/// A sorted key-value table over object identifiers.  Multiple values
/// may share one key; they group together.
#[derive(Debug)]
pub struct IdIndex<K: ObjectId, V> {
    pairs: Vec<(K, V)>,
}

impl<K: ObjectId, V> View for IdIndex<K, V> {
    type V = Seq<(Seq<u8>, V)>;

    /// Key views paired with the stored values, in table order.
    closed spec fn view(&self) -> Seq<(Seq<u8>, V)> {
        Seq::new(self.pairs@.len(), |i: int| (self.pairs@[i].0@, self.pairs@[i].1))
    }
}

impl<K: ObjectId, V> IdIndex<K, V> {
    /// The table is kept sorted by key.
    #[verifier::type_invariant]
    pub closed spec fn wf(&self) -> bool {
        keys_sorted(self@)
    }

    /// Creates a new index from the given entries.  The entries are
    /// sorted by key; ties keep no promised order.
    pub fn from_vec(vec: Vec<(K, V)>) -> (r: Self)
        ensures
            keys_sorted(r@),
            r@.to_multiset() == pair_views(vec@).to_multiset(),
    {
        let mut v = vec;
        let ghost orig = pair_views(v@);
        if v.len() > 1 {
            let mut idx: usize = 1;
            while idx < v.len()
                invariant
                    1 <= idx <= v@.len(),
                    keys_sorted(pair_views(v@).subrange(0, idx as int)),
                    pair_views(v@).to_multiset() == orig.to_multiset(),
                decreases v@.len() - idx,
            {
                let ghost s = pair_views(v@);
                let pos = insertion_pos(&v, idx);
                let e = v.remove(idx);
                v.insert(pos, e);
                proof {
                    let r = pair_views(v@);
                    assert(r =~= s.subrange(0, pos as int) + seq![s[idx as int]] + s.subrange(
                        pos as int,
                        idx as int,
                    ) + s.skip(idx + 1));
                    lemma_sorted_insert_step(s, r, pos as int, idx as int);
                }
                idx = idx + 1;
            }
            proof {
                assert(pair_views(v@).subrange(0, pair_views(v@).len() as int) =~= pair_views(v@));
            }
        }
        let r = IdIndex { pairs: v };
        proof {
            assert(r@ =~= pair_views(r.pairs@));
            if r.pairs@.len() <= 1 {
                assert(keys_sorted(r@));
            }
        }
        r
    }

    /// Looks up entries with the given prefix, and collects mapped
    /// values if all matched entries share one key.  The empty prefix is
    /// always ambiguous.
    pub fn resolve_prefix_with<U, F: Fn(&V) -> U>(
        &self,
        prefix: &HexPrefix,
        value_mapper: F,
    ) -> (r: PrefixResolution<Vec<U>>)
        requires
            forall|i: int| 0 <= i < self@.len() ==> call_requires(value_mapper, (&(#[trigger] self@[i]).1,)),
        ensures
            (r is AmbiguousMatch) <==> (prefix@.len() == 0 || ambiguous(self@, prefix@)),
            (r is NoMatch) <==> (prefix@.len() > 0 && matching_pairs(self@, prefix@).len() == 0),
            (r is SingleMatch) <==> (prefix@.len() > 0 && matching_pairs(self@, prefix@).len() > 0
                && !ambiguous(self@, prefix@)),
            r is SingleMatch ==> {
                let m = matching_pairs(self@, prefix@);
                let vals = r->SingleMatch_0;
                &&& vals@.len() == m.len()
                &&& forall|j: int|
                    0 <= j < m.len() ==> call_ensures(
                        value_mapper,
                        (&(#[trigger] m[j]).1,),
                        vals@[j],
                    )
            },
    {
        proof {
            use_type_invariant(self);
        }
        let ghost p = prefix@;
        let ghost s = self@;
        if prefix.is_empty() {
            return PrefixResolution::AmbiguousMatch;
        }
        let (lo, hi) = self.match_range(prefix);
        proof {
            lemma_filter_is_subrange(s, p, lo as int, hi as int);
        }
        if lo == hi {
            return PrefixResolution::NoMatch;
        }
        let ghost m = matching_pairs(s, p);
        // check that every matched key equals the first
        let mut k: usize = lo + 1;
        while k < hi
            invariant
                lo < hi <= self.pairs@.len(),
                lo < k,
                s == self@,
                p == prefix@,
                p.len() > 0,
                m == matching_pairs(s, p),
                m =~= s.subrange(lo as int, hi as int),
                forall|j: int| lo < j < k ==> (#[trigger] s[j]).0 == s[lo as int].0,
            decreases hi - k,
        {
            if !bytes_eq(self.pairs[k].0.as_bytes(), self.pairs[lo].0.as_bytes()) {
                proof {
                    assert(matching_pairs(s, p)[k - lo].0 != matching_pairs(s, p)[0].0);
                    assert(ambiguous(s, p));
                    assert(matching_pairs(s, p).len() > 0);
                }
                return PrefixResolution::AmbiguousMatch;
            }
            k = k + 1;
        }
        let mut vals: Vec<U> = Vec::new();
        let mut j: usize = lo;
        while j < hi
            invariant
                lo <= j <= hi <= self.pairs@.len(),
                s == self@,
                p == prefix@,
                p.len() > 0,
                m == matching_pairs(s, p),
                forall|j2: int| lo < j2 < hi ==> (#[trigger] s[j2]).0 == s[lo as int].0,
                m =~= s.subrange(lo as int, hi as int),
                forall|i: int| 0 <= i < self@.len() ==> call_requires(value_mapper, (&(#[trigger] self@[i]).1,)),
                vals@.len() == j - lo,
                forall|i: int|
                    0 <= i < j - lo ==> call_ensures(value_mapper, (&(#[trigger] m[i]).1,), vals@[i]),
            decreases hi - j,
        {
            proof {
                assert(call_requires(value_mapper, (&self@[j as int].1,)));
                assert(self@[j as int].1 == self.pairs@[j as int].1);
            }
            let u = value_mapper(&self.pairs[j].1);
            vals.push(u);
            j = j + 1;
        }
        proof {
            assert(forall|i: int, j2: int|
                0 <= i < m.len() && 0 <= j2 < m.len() ==> (#[trigger] m[i]).0 == (
                #[trigger] m[j2]).0);
            assert(!ambiguous(s, p));
        }
        PrefixResolution::SingleMatch(vals)
    }

    /// Looks up entries with the given prefix, and collects the values
    /// if all matched entries share one key.
    pub fn resolve_prefix(&self, prefix: &HexPrefix) -> (r: PrefixResolution<Vec<V>>) where
        V: Clone,
        ensures
            (r is AmbiguousMatch) <==> (prefix@.len() == 0 || ambiguous(self@, prefix@)),
            (r is NoMatch) <==> (prefix@.len() > 0 && matching_pairs(self@, prefix@).len() == 0),
            (r is SingleMatch) <==> (prefix@.len() > 0 && matching_pairs(self@, prefix@).len() > 0
                && !ambiguous(self@, prefix@)),
            r is SingleMatch ==> {
                let m = matching_pairs(self@, prefix@);
                let vals = r->SingleMatch_0;
                &&& vals@.len() == m.len()
                &&& forall|j: int| 0 <= j < m.len() ==> cloned::<V>((#[trigger] m[j]).1, vals@[j])
            },
    {
        self.resolve_prefix_with(
            prefix,
            (|v: &V| -> (u: V)
                ensures
                    cloned::<V>(*v, u),
                { v.clone() }),
        )
    }

    /// The entries whose key starts with the prefix, in key order.
    pub fn resolve_prefix_range(&self, prefix: &HexPrefix) -> (r: Vec<(&K, &V)>)
        ensures
            r@.len() == matching_pairs(self@, prefix@).len(),
            forall|j: int|
                0 <= j < r@.len() ==> ((#[trigger] r@[j]).0@, *r@[j].1) == matching_pairs(
                    self@,
                    prefix@,
                )[j],
    {
        proof {
            use_type_invariant(self);
        }
        let (lo, hi) = self.match_range(prefix);
        proof {
            lemma_filter_is_subrange(self@, prefix@, lo as int, hi as int);
        }
        let mut r: Vec<(&K, &V)> = Vec::new();
        let mut j: usize = lo;
        while j < hi
            invariant
                lo <= j <= hi <= self.pairs@.len(),
                matching_pairs(self@, prefix@) =~= self@.subrange(lo as int, hi as int),
                r@.len() == j - lo,
                forall|i: int|
                    0 <= i < j - lo ==> ((#[trigger] r@[i]).0@, *r@[i].1) == matching_pairs(
                        self@,
                        prefix@,
                    )[i],
            decreases hi - j,
        {
            r.push((&self.pairs[j].0, &self.pairs[j].1));
            j = j + 1;
        }
        r
    }

    /// The contiguous index range of entries the prefix matches.
    fn match_range(&self, prefix: &HexPrefix) -> (r: (usize, usize))
        requires
            self.wf(),
        ensures
            0 <= r.0 <= r.1 <= self@.len(),
            forall|i: int| r.0 <= i < r.1 ==> prefix_matches(prefix@, (#[trigger] self@[i]).0),
            forall|i: int|
                0 <= i < self@.len() && !(r.0 <= i < r.1) ==> !prefix_matches(
                    prefix@,
                    (#[trigger] self@[i]).0,
                ),
    {
        let ghost p = prefix@;
        let ghost s = self@;
        let minb = prefix.min_prefix_bytes();
        let lo = lower_bound(&self.pairs, minb);
        proof {
            assert forall|i: int| 0 <= i < lo implies !prefix_matches(p, (#[trigger] s[i]).0) by {
                if prefix_matches(p, s[i].0) {
                    lemma_matches_not_below(p, minb@, s[i].0);
                    lemma_lex_trichotomy(s[i].0, minb@);
                }
            }
        }
        let mut hi = lo;
        loop
            invariant
                lo <= hi <= self.pairs@.len(),
                s == self@,
                p == prefix@,
                self.wf(),
                nibbles_of(minb@) == if p.len() % 2 == 1 {
                    p.push(0)
                } else {
                    p
                },
                forall|i: int| 0 <= i < lo ==> lex_lt((#[trigger] s[i]).0, minb@),
                forall|i: int| lo <= i ==> i < s.len() ==> !lex_lt((#[trigger] s[i]).0, minb@),
                forall|i: int| 0 <= i < lo ==> !prefix_matches(p, (#[trigger] s[i]).0),
                forall|i: int| lo <= i < hi ==> prefix_matches(p, (#[trigger] s[i]).0),
            decreases self.pairs@.len() - hi,
        {
            if hi == self.pairs.len() {
                return (lo, hi);
            }
            if !prefix.matches(&self.pairs[hi].0) {
                // nothing at or past `hi` matches: matching keys form an
                // interval that starts at the minimum bytes
                proof {
                    assert forall|i: int| hi <= i < s.len() implies !prefix_matches(
                        p,
                        (#[trigger] s[i]).0,
                    ) by {
                        if i > hi && prefix_matches(p, s[i].0) {
                            lemma_match_interval(s, p, minb@, hi as int, i);
                        }
                    }
                }
                return (lo, hi);
            }
            hi = hi + 1;
        }
    }

    /// Whether `key` is one of the index keys.
    pub fn has_key(&self, key: &K) -> (r: bool)
        ensures
            r == exists|i: int| 0 <= i < self@.len() && (#[trigger] self@[i]).0 == key@,
    {
        proof {
            use_type_invariant(self);
        }
        let pos = lower_bound(&self.pairs, key.as_bytes());
        if pos < self.pairs.len() && bytes_eq(self.pairs[pos].0.as_bytes(), key.as_bytes()) {
            proof {
                assert((self@[pos as int]).0 == key@);
            }
            true
        } else {
            proof {
                assert forall|i: int| 0 <= i < self@.len() implies (#[trigger] self@[i]).0 != key@
                by {
                    if i < pos {
                        lemma_lex_trichotomy(self@[i].0, key@);
                    } else {
                        lemma_lex_trichotomy(self@[i].0, key@);
                        if self@[i].0 == key@ && pos < self@.len() {
                            // sorted: self@[pos].0 <= self@[i].0 == key and
                            // key <= self@[pos].0, so the key would sit at pos
                            assert(lex_leq(self@[pos as int].0, self@[i].0));
                            lemma_lex_trichotomy(self@[pos as int].0, key@);
                            lemma_lex_transitive(key@, self@[pos as int].0, self@[i].0);
                        }
                    }
                }
            }
            false
        }
    }

    /// The least number of hex digits of `key` that distinguishes it
    /// from every other key in the index; at least 1.  The query works
    /// whether or not `key` itself is present.
    pub fn shortest_unique_prefix_len(&self, key: &K) -> (r: usize)
        requires
            2 * key@.len() + 1 <= usize::MAX,
        ensures
            r == shortest_unique_len(self@, key@),
    {
        proof {
            use_type_invariant(self);
            lemma_shortest_unique_len(self@, key@);
        }
        let ghost s = self@;
        let pos = lower_bound(&self.pairs, key.as_bytes());
        let mut best: usize = 1;
        if pos > 0 {
            let c = common_hex_len(self.pairs[pos - 1].0.as_bytes(), key.as_bytes());
            proof {
                lemma_common_len_bounds(nibbles_of(s[pos - 1].0), nibbles_of(key@));
                lemma_lex_trichotomy(s[pos - 1].0, key@);
            }
            let cand = c + 1;
            if cand > best {
                best = cand;
            }
        }
        let right = self.next_distinct(key, pos);
        match right {
            Some(d) => {
                let c = common_hex_len(self.pairs[d].0.as_bytes(), key.as_bytes());
                proof {
                    lemma_common_len_bounds(nibbles_of(s[d as int].0), nibbles_of(key@));
                }
                let cand = c + 1;
                if cand > best {
                    best = cand;
                }
            },
            None => {},
        }
        proof {
            lemma_neighbors_dominate(s, key@, pos as int, right_index_spec(right, s.len() as int));
            assert(best == shortest_unique_len(s, key@)) by {
                lemma_best_is_max(s, key@, pos as int, right_index_spec(right, s.len() as int), best as nat);
            }
        }
        best
    }

    /// The first index at or past `from` whose key differs from `key`.
    fn next_distinct(&self, key: &K, from: usize) -> (r: Option<usize>)
        requires
            self.wf(),
            from <= self@.len(),
        ensures
            match r {
                Some(d) => from <= d < self@.len() && (#[trigger] self@[d as int]).0 != key@
                    && forall|j: int| from <= j < d ==> (#[trigger] self@[j]).0 == key@,
                None => forall|j: int| from <= j < self@.len() ==> (#[trigger] self@[j]).0 == key@,
            },
    {
        let mut d = from;
        loop
            invariant
                from <= d <= self@.len(),
                forall|j: int| from <= j < d ==> (#[trigger] self@[j]).0 == key@,
            decreases self@.len() - d,
        {
            if d == self.pairs.len() {
                return None;
            }
            if !bytes_eq(self.pairs[d].0.as_bytes(), key.as_bytes()) {
                return Some(d);
            }
            d = d + 1;
        }
    }
}

/// The key and value views of a pair vector, in order.
pub open spec fn pair_views<K: ObjectId, V>(s: Seq<(K, V)>) -> Seq<(Seq<u8>, V)> {
    Seq::new(s.len(), |i: int| (s[i].0@, s[i].1))
}

} // verus!

use vstd::seq_lib::lemma_multiset_commutative;
use crate::hex::{lemma_nibbles_injective, lemma_leq_bytes_nibbles};

verus! {

/// The first index whose key is not below `target`, by binary search.
fn lower_bound<K: ObjectId, V>(pairs: &Vec<(K, V)>, target: &Vec<u8>) -> (pos: usize)
    requires
        keys_sorted(pair_views(pairs@)),
    ensures
        pos <= pairs@.len(),
        forall|i: int| 0 <= i < pos ==> lex_lt((#[trigger] pairs@[i].0)@, target@),
        forall|i: int| pos <= i < pairs@.len() ==> !lex_lt((#[trigger] pairs@[i].0)@, target@),
{
    let ghost s = pair_views(pairs@);
    let mut lo: usize = 0;
    let mut hi: usize = pairs.len();
    while lo < hi
        invariant
            lo <= hi <= pairs@.len(),
            s == pair_views(pairs@),
            keys_sorted(s),
            forall|i: int| 0 <= i < lo ==> lex_lt((#[trigger] pairs@[i].0)@, target@),
            forall|i: int| hi <= i < pairs@.len() ==> !lex_lt((#[trigger] pairs@[i].0)@, target@),
        decreases hi - lo,
    {
        let mid = lo + (hi - lo) / 2;
        if bytes_lt(pairs[mid].0.as_bytes(), target) {
            proof {
                assert forall|i: int| 0 <= i < mid + 1 implies lex_lt(
                    (#[trigger] pairs@[i].0)@,
                    target@,
                ) by {
                    if i < mid {
                        assert(lex_leq(s[i].0, s[mid as int].0));
                        lemma_lex_transitive(s[i].0, s[mid as int].0, target@);
                    }
                }
            }
            lo = mid + 1;
        } else {
            proof {
                lemma_lex_trichotomy(s[mid as int].0, target@);
                assert forall|i: int| mid <= i < pairs@.len() implies !lex_lt(
                    (#[trigger] pairs@[i].0)@,
                    target@,
                ) by {
                    if i > mid {
                        assert(lex_leq(s[mid as int].0, s[i].0));
                        if lex_lt(s[i].0, target@) {
                            lemma_lex_transitive(s[mid as int].0, s[i].0, target@);
                        }
                    }
                }
            }
            hi = mid;
        }
    }
    lo
}

/// The position, within the sorted prefix `[0, idx)`, where the element
/// at `idx` belongs: after every key not above it.
fn insertion_pos<K: ObjectId, V>(v: &Vec<(K, V)>, idx: usize) -> (pos: usize)
    requires
        idx < v@.len(),
    ensures
        pos <= idx,
        forall|j: int| 0 <= j < pos ==> !lex_lt(v@[idx as int].0@, (#[trigger] v@[j].0)@),
        pos < idx ==> lex_lt(v@[idx as int].0@, v@[pos as int].0@),
{
    let mut pos: usize = 0;
    loop
        invariant
            pos <= idx < v@.len(),
            forall|j: int| 0 <= j < pos ==> !lex_lt(v@[idx as int].0@, (#[trigger] v@[j].0)@),
        decreases idx - pos,
    {
        if pos == idx {
            return pos;
        }
        if bytes_lt(v[idx].0.as_bytes(), v[pos].0.as_bytes()) {
            return pos;
        }
        pos = pos + 1;
    }
}

/// One insertion-sort step keeps the prefix sorted and the contents a
/// permutation.
proof fn lemma_sorted_insert_step<V>(s: Seq<(Seq<u8>, V)>, r: Seq<(Seq<u8>, V)>, pos: int, idx: int)
    requires
        keys_sorted(s.subrange(0, idx)),
        0 <= pos <= idx < s.len(),
        forall|j: int| 0 <= j < pos ==> !lex_lt(s[idx].0, (#[trigger] s[j]).0),
        pos < idx ==> lex_lt(s[idx].0, s[pos].0),
        r =~= s.subrange(0, pos) + seq![s[idx]] + s.subrange(pos, idx) + s.skip(idx + 1),
    ensures
        keys_sorted(r.subrange(0, idx + 1)),
        r.to_multiset() == s.to_multiset(),
        r.len() == s.len(),
{
    let sp = s.subrange(0, idx);
    assert(forall|j: int| 0 <= j < pos ==> r[j] == s[j]);
    assert(r[pos] == s[idx]);
    assert(forall|j: int| pos < j <= idx ==> #[trigger] r[j] == s[j - 1]);
    assert forall|a: int, b: int| 0 <= a < b < idx + 1 implies lex_leq(
        (#[trigger] r.subrange(0, idx + 1)[a]).0,
        (#[trigger] r.subrange(0, idx + 1)[b]).0,
    ) by {
        assert(r.subrange(0, idx + 1)[a] == r[a]);
        assert(r.subrange(0, idx + 1)[b] == r[b]);
        if a < pos && b < pos {
            assert(sp[a] == s[a] && sp[b] == s[b]);
        } else if a < pos && b == pos {
            lemma_lex_trichotomy(s[idx].0, s[a].0);
        } else if a < pos && b > pos {
            assert(sp[a] == s[a] && sp[b - 1] == s[b - 1]);
        } else if a == pos && b > pos {
            if pos < idx {
                // r[b] == s[b-1], and s[pos] <= s[b-1] in the sorted prefix
                assert(sp[pos] == s[pos] && sp[b - 1] == s[b - 1]);
                if pos < b - 1 {
                    assert(lex_leq(s[pos].0, s[b - 1].0));
                }
                lemma_lex_trichotomy(s[idx].0, s[pos].0);
                lemma_lex_transitive(s[idx].0, s[pos].0, s[b - 1].0);
            }
        } else {
            assert(sp[a - 1] == s[a - 1] && sp[b - 1] == s[b - 1]);
        }
    }
    // permutation: both sides are the same four blocks, reordered
    let b1 = s.subrange(0, pos);
    let b2 = s.subrange(pos, idx);
    let b3 = seq![s[idx]];
    let b4 = s.skip(idx + 1);
    assert(s =~= b1 + b2 + b3 + b4);
    assert(r =~= b1 + b3 + b2 + b4);
    lemma_multiset_commutative(b1 + b2 + b3, b4);
    lemma_multiset_commutative(b1 + b2, b3);
    lemma_multiset_commutative(b1, b2);
    lemma_multiset_commutative(b1 + b3 + b2, b4);
    lemma_multiset_commutative(b1 + b3, b2);
    lemma_multiset_commutative(b1, b3);
    assert((b1 + b2 + b3 + b4).to_multiset() =~= (b1 + b3 + b2 + b4).to_multiset());
}

/// A key the prefix matches never lies below the prefix's minimum bytes.
proof fn lemma_matches_not_below(p: Seq<u8>, minb: Seq<u8>, k: Seq<u8>)
    requires
        nibbles_of(minb) == if p.len() % 2 == 1 {
            p.push(0)
        } else {
            p
        },
        prefix_matches(p, k),
    ensures
        lex_leq(minb, k),
{
    lemma_min_bytes_below(p, nibbles_of(minb), nibbles_of(k));
    if minb == k {
    } else if nibbles_of(minb) == nibbles_of(k) {
        lemma_nibbles_injective(minb, k);
    } else {
        lemma_lex_bytes_nibbles(minb, k);
        assert(lex_lt(nibbles_of(minb), nibbles_of(k)));
    }
}

/// Matches form an interval: a key at or above the minimum bytes that
/// sits below a matching key matches too.
proof fn lemma_match_interval<V>(
    s: Seq<(Seq<u8>, V)>,
    p: Seq<u8>,
    minb: Seq<u8>,
    h: int,
    i: int,
)
    requires
        keys_sorted(s),
        0 <= h < i < s.len(),
        nibbles_of(minb) == if p.len() % 2 == 1 {
            p.push(0)
        } else {
            p
        },
        !lex_lt(s[h].0, minb),
        prefix_matches(p, s[i].0),
    ensures
        prefix_matches(p, s[h].0),
{
    lemma_lex_trichotomy(s[h].0, minb);
    assert(lex_leq(minb, s[h].0));
    assert(lex_leq(s[h].0, s[i].0));
    lemma_leq_bytes_nibbles(minb, s[h].0);
    lemma_leq_bytes_nibbles(s[h].0, s[i].0);
    let q = nibbles_of(minb);
    assert(is_prefix(p, q)) by {
        if p.len() % 2 == 1 {
            assert(p.push(0).subrange(0, p.len() as int) =~= p);
        } else {
            assert(p.subrange(0, p.len() as int) =~= p);
        }
    }
    lemma_prefix_interval(p, q, nibbles_of(s[h].0), nibbles_of(s[i].0));
}

/// When exactly the keys in `[lo, hi)` match, the filtered sequence is
/// that subrange.
proof fn lemma_filter_is_subrange<V>(s: Seq<(Seq<u8>, V)>, p: Seq<u8>, lo: int, hi: int)
    requires
        0 <= lo <= hi <= s.len(),
        forall|i: int| lo <= i < hi ==> prefix_matches(p, (#[trigger] s[i]).0),
        forall|i: int| 0 <= i < s.len() && !(lo <= i < hi) ==> !prefix_matches(p, (#[trigger] s[i]).0),
    ensures
        matching_pairs(s, p) =~= s.subrange(lo, hi),
    decreases s.len(),
{
    reveal(Seq::filter);
    if s.len() == 0 {
    } else {
        let d = s.drop_last();
        assert(d =~= s.subrange(0, s.len() - 1));
        assert(forall|i: int| 0 <= i < d.len() ==> (#[trigger] d[i]) == s[i]);
        if hi == s.len() && lo < hi {
            // last element matches
            assert(prefix_matches(p, s[s.len() - 1].0));
            lemma_filter_is_subrange(d, p, lo, hi - 1);
            assert(matching_pairs(s, p) == matching_pairs(d, p).push(s.last()));
            assert(matching_pairs(s, p) =~= s.subrange(lo, hi));
        } else {
            // last element does not match
            assert(!prefix_matches(p, s[s.len() - 1].0));
            let l2 = if lo <= d.len() {
                lo
            } else {
                d.len() as int
            };
            let h2 = if hi <= d.len() {
                hi
            } else {
                d.len() as int
            };
            lemma_filter_is_subrange(d, p, l2, h2);
            assert(matching_pairs(s, p) == matching_pairs(d, p));
            assert(s.subrange(lo, hi) =~= d.subrange(l2, h2));
            assert(matching_pairs(s, p) =~= s.subrange(lo, hi));
        }
    }
}

/// The index denoted by the right-neighbor search result.
pub open spec fn right_index_spec(r: Option<usize>, len: int) -> int {
    match r {
        Some(d) => d as int,
        None => len,
    }
}

/// Every distinct key shares no longer a hex prefix with `key` than one
/// of the two neighbors of its insertion point.
proof fn lemma_neighbors_dominate<V>(s: Seq<(Seq<u8>, V)>, key: Seq<u8>, pos: int, d: int)
    requires
        keys_sorted(s),
        0 <= pos <= s.len(),
        pos <= d <= s.len(),
        forall|i: int| 0 <= i < pos ==> lex_lt((#[trigger] s[i]).0, key),
        forall|i: int| pos <= i < s.len() ==> !lex_lt((#[trigger] s[i]).0, key),
        forall|j: int| pos <= j < d ==> (#[trigger] s[j]).0 == key,
        d < s.len() ==> s[d].0 != key,
    ensures
        forall|i: int|
            0 <= i < s.len() && (#[trigger] s[i]).0 != key ==> common_len(
                nibbles_of(s[i].0),
                nibbles_of(key),
            ) <= if i < pos {
                common_len(nibbles_of(s[pos - 1].0), nibbles_of(key))
            } else {
                common_len(nibbles_of(s[d].0), nibbles_of(key))
            },
{
    assert forall|i: int| 0 <= i < s.len() && (#[trigger] s[i]).0 != key implies common_len(
        nibbles_of(s[i].0),
        nibbles_of(key),
    ) <= if i < pos {
        common_len(nibbles_of(s[pos - 1].0), nibbles_of(key))
    } else {
        common_len(nibbles_of(s[d].0), nibbles_of(key))
    } by {
        if i < pos {
            // s[i] <= s[pos-1] < key
            assert(lex_leq(s[i].0, s[pos - 1].0));
            lemma_lex_trichotomy(s[pos - 1].0, key);
            lemma_leq_bytes_nibbles(s[i].0, s[pos - 1].0);
            lemma_leq_bytes_nibbles(s[pos - 1].0, key);
            lemma_common_len_between(nibbles_of(s[i].0), nibbles_of(s[pos - 1].0), nibbles_of(key));
            lemma_common_len_bounds(nibbles_of(s[i].0), nibbles_of(key));
            lemma_common_len_bounds(nibbles_of(s[pos - 1].0), nibbles_of(key));
            lemma_common_len_bounds(nibbles_of(s[i].0), nibbles_of(s[pos - 1].0));
        } else {
            // key <= s[d] <= s[i]
            assert(i >= d);
            assert(d < s.len());
            lemma_lex_trichotomy(s[d].0, key);
            assert(lex_leq(key, s[d].0));
            assert(lex_leq(s[d].0, s[i].0)) by {
                if d < i {
                } else {
                    assert(d == i);
                }
            }
            lemma_leq_bytes_nibbles(key, s[d].0);
            lemma_leq_bytes_nibbles(s[d].0, s[i].0);
            lemma_common_len_between(nibbles_of(key), nibbles_of(s[d].0), nibbles_of(s[i].0));
            lemma_common_len_bounds(nibbles_of(key), nibbles_of(s[i].0));
            lemma_common_len_bounds(nibbles_of(key), nibbles_of(s[d].0));
            lemma_common_len_bounds(nibbles_of(s[i].0), nibbles_of(key));
            lemma_common_len_bounds(nibbles_of(s[d].0), nibbles_of(key));
        }
    }
}

/// The computed maximum over the two neighbor candidates equals the
/// specified shortest unique length.
proof fn lemma_best_is_max<V>(s: Seq<(Seq<u8>, V)>, key: Seq<u8>, pos: int, d: int, best: nat)
    requires
        keys_sorted(s),
        0 <= pos <= s.len(),
        pos <= d <= s.len(),
        forall|i: int| 0 <= i < pos ==> lex_lt((#[trigger] s[i]).0, key),
        forall|i: int| pos <= i < s.len() ==> !lex_lt((#[trigger] s[i]).0, key),
        forall|j: int| pos <= j < d ==> (#[trigger] s[j]).0 == key,
        d < s.len() ==> s[d].0 != key,
        best >= 1,
        pos > 0 ==> best >= common_len(nibbles_of(s[pos - 1].0), nibbles_of(key)) + 1,
        d < s.len() ==> best >= common_len(nibbles_of(s[d].0), nibbles_of(key)) + 1,
        best == 1 || (pos > 0 && best == common_len(nibbles_of(s[pos - 1].0), nibbles_of(key)) + 1)
            || (d < s.len() && best == common_len(nibbles_of(s[d].0), nibbles_of(key)) + 1),
    ensures
        best == shortest_unique_len(s, key),
{
    lemma_shortest_unique_len(s, key);
    lemma_neighbors_dominate(s, key, pos, d);
    let su = shortest_unique_len(s, key);
    // su <= best
    if exists|i: int|
        0 <= i < s.len() && (#[trigger] s[i]).0 != key && common_len(
            nibbles_of(s[i].0),
            nibbles_of(key),
        ) + 1 == su {
        let i = choose|i: int|
            0 <= i < s.len() && (#[trigger] s[i]).0 != key && common_len(
                nibbles_of(s[i].0),
                nibbles_of(key),
            ) + 1 == su;
        if i < pos {
            assert(s[pos - 1].0 != key) by {
                lemma_lex_trichotomy(s[pos - 1].0, key);
            }
        }
    }
    // best <= su
    if pos > 0 {
        assert(s[pos - 1].0 != key) by {
            lemma_lex_trichotomy(s[pos - 1].0, key);
        }
    }
}

} // verus!

use vstd::seq_lib::group_seq_properties;

verus! {

/// The shortest-unique length is correct: the prefix of `key` of that
/// length matches no entry under a distinct key, while one digit less
/// still matches some other entry (unless every key equals `key`).
pub proof fn lemma_shortest_unique_prefix_len_correct<V>(s: Seq<(Seq<u8>, V)>, key: Seq<u8>)
    ensures
        ({
            let l = shortest_unique_len(s, key) as int;
            &&& (l <= nibbles_of(key).len() ==> forall|i: int|
                0 <= i < s.len() && (#[trigger] s[i]).0 != key ==> !prefix_matches(
                    nibbles_of(key).subrange(0, l),
                    s[i].0,
                ))
            &&& (l > 1 ==> exists|i: int|
                0 <= i < s.len() && (#[trigger] s[i]).0 != key && prefix_matches(
                    nibbles_of(key).subrange(0, l - 1),
                    s[i].0,
                ))
        }),
{
    lemma_shortest_unique_len(s, key);
    let l = shortest_unique_len(s, key) as int;
    let nk = nibbles_of(key);
    if l <= nk.len() {
        assert forall|i: int|
            0 <= i < s.len() && (#[trigger] s[i]).0 != key implies !prefix_matches(
            nk.subrange(0, l),
            s[i].0,
        ) by {
            let ni = nibbles_of(s[i].0);
            let c = common_len(ni, nk);
            lemma_common_len_bounds(ni, nk);
            if prefix_matches(nk.subrange(0, l), s[i].0) {
                // the first l digits agree, so the common prefix reaches l
                assert(forall|j: int| 0 <= j < l ==> ni[j] == nk.subrange(0, l)[j]);
                assert(forall|j: int| 0 <= j < l ==> nk.subrange(0, l)[j] == nk[j]);
                lemma_common_len_at_least(ni, nk, l);
                assert(c + 1 <= l);
            }
        }
    }
    if l > 1 {
        let i = choose|i: int|
            0 <= i < s.len() && (#[trigger] s[i]).0 != key && common_len(
                nibbles_of(s[i].0),
                nibbles_of(key),
            ) + 1 == l;
        let ni = nibbles_of(s[i].0);
        lemma_common_len_bounds(ni, nk);
        assert(nk.subrange(0, l - 1) =~= ni.subrange(0, l - 1));
        assert(prefix_matches(nk.subrange(0, l - 1), s[i].0));
    }
}

/// The view of a commit resolution: the identifier as bytes.
pub open spec fn commit_resolution_view(r: PrefixResolution<CommitId>) -> PrefixResolution<
    Seq<u8>,
> {
    match r {
        PrefixResolution::NoMatch => PrefixResolution::NoMatch,
        PrefixResolution::SingleMatch(id) => PrefixResolution::SingleMatch(id@),
        PrefixResolution::AmbiguousMatch => PrefixResolution::AmbiguousMatch,
    }
}

/// The view of a change resolution: the commit identifiers as bytes.
pub open spec fn change_resolution_view(r: PrefixResolution<Vec<CommitId>>) -> PrefixResolution<
    Seq<Seq<u8>>,
> {
    match r {
        PrefixResolution::NoMatch => PrefixResolution::NoMatch,
        PrefixResolution::SingleMatch(ids) => PrefixResolution::SingleMatch(
            Seq::new(ids@.len(), |i: int| ids@[i]@),
        ),
        PrefixResolution::AmbiguousMatch => PrefixResolution::AmbiguousMatch,
    }
}

/// Resolution of a prefix against a pair table, collapsed to one
/// identifier: the matched group's last value.
pub open spec fn table_commit_resolution(s: Seq<(Seq<u8>, CommitId)>, p: Seq<u8>)
    -> PrefixResolution<Seq<u8>> {
    if p.len() == 0 {
        PrefixResolution::AmbiguousMatch
    } else if matching_pairs(s, p).len() == 0 {
        PrefixResolution::NoMatch
    } else if ambiguous(s, p) {
        PrefixResolution::AmbiguousMatch
    } else {
        let m = matching_pairs(s, p);
        PrefixResolution::SingleMatch(m[m.len() - 1].1@)
    }
}

/// The repository as the prefix machinery sees it: a global index over
/// commit and change identifiers.  Implementations state their behavior
/// through the four specification functions.
pub trait Repo {
    /// What resolving a commit id prefix against the global index yields.
    spec fn commit_resolution_spec(&self, p: Seq<u8>) -> PrefixResolution<Seq<u8>>;

    /// What resolving a change id prefix yields: commit ids in the group.
    spec fn change_resolution_spec(&self, p: Seq<u8>) -> PrefixResolution<Seq<Seq<u8>>>;

    /// The globally shortest unique prefix length of a commit id.
    spec fn commit_short_spec(&self, id: Seq<u8>) -> nat;

    /// The globally shortest unique prefix length of a change id.
    spec fn change_short_spec(&self, id: Seq<u8>) -> nat;

    fn resolve_prefix(&self, prefix: &HexPrefix) -> (r: PrefixResolution<CommitId>)
        ensures
            commit_resolution_view(r) == self.commit_resolution_spec(prefix@),
    ;

    fn shortest_unique_commit_id_prefix_len(&self, commit_id: &CommitId) -> (r: usize)
        requires
            2 * commit_id@.len() + 1 <= usize::MAX,
        ensures
            r == self.commit_short_spec(commit_id@),
    ;

    fn resolve_change_id_prefix(&self, prefix: &HexPrefix) -> (r: PrefixResolution<Vec<CommitId>>)
        ensures
            change_resolution_view(r) == self.change_resolution_spec(prefix@),
    ;

    fn shortest_unique_change_id_prefix_len(&self, change_id: &ChangeId) -> (r: usize)
        requires
            2 * change_id@.len() + 1 <= usize::MAX,
        ensures
            r == self.change_short_spec(change_id@),
    ;
}

/// An in-memory repository: its global index is a pair of `IdIndex`
/// tables built from the known commits.
pub struct SimpleRepo {
    commit_index: IdIndex<CommitId, CommitId>,
    change_index: IdIndex<ChangeId, CommitId>,
}

impl SimpleRepo {
    /// The rows of the global commit table: commit ids keyed by
    /// themselves, sorted by key.
    pub closed spec fn commit_table(&self) -> Seq<(Seq<u8>, Seq<u8>)> {
        id_table_views(self.commit_index@)
    }

    /// The rows of the global change table: commit ids keyed by their
    /// change ids, sorted by key.
    pub closed spec fn change_table(&self) -> Seq<(Seq<u8>, Seq<u8>)> {
        id_table_views(self.change_index@)
    }

    /// Builds the global index over the given commits: two tables
    /// holding exactly the rows the commits induce, sorted by key.
    pub fn new(commits: Vec<(CommitId, ChangeId)>) -> (r: Self)
        ensures
            r.commit_table().to_multiset() == commit_scope_rows(commits@).to_multiset(),
            r.change_table().to_multiset() == change_scope_rows(commits@).to_multiset(),
    {
        let (commit_index, change_index) = build_indexes(&commits);
        SimpleRepo { commit_index, change_index }
    }
}

impl Repo for SimpleRepo {
    open spec fn commit_resolution_spec(&self, p: Seq<u8>) -> PrefixResolution<Seq<u8>> {
        rows_commit_resolution(self.commit_table(), p)
    }

    open spec fn change_resolution_spec(&self, p: Seq<u8>) -> PrefixResolution<Seq<Seq<u8>>> {
        rows_change_resolution(self.change_table(), p)
    }

    open spec fn commit_short_spec(&self, id: Seq<u8>) -> nat {
        shortest_unique_len(self.commit_table(), id)
    }

    open spec fn change_short_spec(&self, id: Seq<u8>) -> nat {
        shortest_unique_len(self.change_table(), id)
    }

    fn resolve_prefix(&self, prefix: &HexPrefix) -> (r: PrefixResolution<CommitId>)
        ensures
            commit_resolution_view(r) == self.commit_resolution_spec(prefix@),
    {
        proof {
            lemma_resolution_views(self.commit_index@, prefix@);
        }
        resolve_single_commit(&self.commit_index, prefix)
    }

    fn shortest_unique_commit_id_prefix_len(&self, commit_id: &CommitId) -> (r: usize) {
        proof {
            lemma_shortest_unique_len_views(self.commit_index@, commit_id@);
        }
        self.commit_index.shortest_unique_prefix_len(commit_id)
    }

    fn resolve_change_id_prefix(&self, prefix: &HexPrefix) -> (r: PrefixResolution<Vec<CommitId>>)
        ensures
            change_resolution_view(r) == self.change_resolution_spec(prefix@),
    {
        proof {
            lemma_resolution_views(self.change_index@, prefix@);
        }
        resolve_change_values(&self.change_index, prefix)
    }

    fn shortest_unique_change_id_prefix_len(&self, change_id: &ChangeId) -> (r: usize) {
        proof {
            lemma_shortest_unique_len_views(self.change_index@, change_id@);
        }
        self.change_index.shortest_unique_prefix_len(change_id)
    }
}

/// Resolves a prefix in a commit-valued table, collapsing a
/// single-key match to one commit id.
fn resolve_single_commit(index: &IdIndex<CommitId, CommitId>, prefix: &HexPrefix) -> (r:
    PrefixResolution<CommitId>)
    ensures
        commit_resolution_view(r) == table_commit_resolution(index@, prefix@),
{
    match index.resolve_prefix(prefix) {
        PrefixResolution::NoMatch => PrefixResolution::NoMatch,
        PrefixResolution::AmbiguousMatch => PrefixResolution::AmbiguousMatch,
        PrefixResolution::SingleMatch(mut ids) => {
            let ghost m = matching_pairs(index@, prefix@);
            match ids.pop() {
                Some(id) => {
                    proof {
                        assert(cloned::<CommitId>(m[m.len() - 1].1, id));
                    }
                    PrefixResolution::SingleMatch(id)
                },
                None => {
                    // a single match always carries at least one value
                    proof {
                        assert(false);
                    }
                    PrefixResolution::NoMatch
                },
            }
        },
    }
}

/// Resolves a prefix in a change-id table to the matched commit ids.
fn resolve_change_values(index: &IdIndex<ChangeId, CommitId>, prefix: &HexPrefix) -> (r:
    PrefixResolution<Vec<CommitId>>)
    ensures
        change_resolution_view(r) == table_change_resolution_by_change(index@, prefix@),
{
    match index.resolve_prefix(prefix) {
        PrefixResolution::NoMatch => PrefixResolution::NoMatch,
        PrefixResolution::AmbiguousMatch => PrefixResolution::AmbiguousMatch,
        PrefixResolution::SingleMatch(ids) => {
            proof {
                let m = matching_pairs(index@, prefix@);
                assert(Seq::new(ids@.len(), |i: int| ids@[i]@) =~= Seq::new(
                    m.len(),
                    |i: int| m[i].1@,
                ));
            }
            PrefixResolution::SingleMatch(ids)
        },
    }
}

/// Resolution of a change-id prefix against a pair table.
pub open spec fn table_change_resolution_by_change(s: Seq<(Seq<u8>, CommitId)>, p: Seq<u8>)
    -> PrefixResolution<Seq<Seq<u8>>> {
    if p.len() == 0 {
        PrefixResolution::AmbiguousMatch
    } else if matching_pairs(s, p).len() == 0 {
        PrefixResolution::NoMatch
    } else if ambiguous(s, p) {
        PrefixResolution::AmbiguousMatch
    } else {
        let m = matching_pairs(s, p);
        PrefixResolution::SingleMatch(Seq::new(m.len(), |i: int| m[i].1@))
    }
}

/// Builds the commit and change tables from commit pairs: the commit
/// table holds (commit id, commit id) rows and the change table
/// (change id, commit id) rows, each a sorted permutation of what the
/// given stream induces.
fn build_indexes(commits: &Vec<(CommitId, ChangeId)>) -> (r: (
    IdIndex<CommitId, CommitId>,
    IdIndex<ChangeId, CommitId>,
))
    ensures
        keys_sorted(r.0@),
        keys_sorted(r.1@),
        id_table_views(r.0@).to_multiset() == commit_scope_rows(commits@).to_multiset(),
        id_table_views(r.1@).to_multiset() == change_scope_rows(commits@).to_multiset(),
        forall|id: Seq<u8>|
            #[trigger] table_has_key(r.0@, id) <==> (exists|j: int|
                0 <= j < commits@.len() && ((#[trigger] commits@[j]).0)@ == id),
{
    let mut commit_vec: Vec<(CommitId, CommitId)> = Vec::new();
    let mut change_vec: Vec<(ChangeId, CommitId)> = Vec::new();
    let mut i: usize = 0;
    while i < commits.len()
        invariant
            i <= commits@.len(),
            commit_vec@.len() == i,
            change_vec@.len() == i,
            forall|j: int| 0 <= j < i ==> ((#[trigger] commit_vec@[j]).0)@ == (commits@[j].0)@,
            forall|j: int| 0 <= j < i ==> ((#[trigger] commit_vec@[j]).1)@ == (commits@[j].0)@,
            forall|j: int| 0 <= j < i ==> ((#[trigger] change_vec@[j]).0)@ == (commits@[j].1)@,
            forall|j: int| 0 <= j < i ==> ((#[trigger] change_vec@[j]).1)@ == (commits@[j].0)@,
        decreases commits@.len() - i,
    {
        let c = commits[i].0.clone();
        let c2 = commits[i].0.clone();
        let ch = commits[i].1.clone();
        commit_vec.push((c, c2));
        change_vec.push((ch, commits[i].0.clone()));
        i = i + 1;
    }
    proof {
        broadcast use group_seq_properties;
    }
    let ghost cv = pair_views(commit_vec@);
    let ghost chv = pair_views(change_vec@);
    let commit_index = IdIndex::from_vec(commit_vec);
    let change_index = IdIndex::from_vec(change_vec);
    proof {
        lemma_key_set_preserved(commit_index@, cv);
        assert forall|id: Seq<u8>|
            #[trigger] table_has_key(cv, id) <==> (exists|j: int|
                0 <= j < commits@.len() && ((#[trigger] commits@[j]).0)@ == id) by {
            assert(cv.len() == commits@.len());
            assert(forall|j: int| 0 <= j < cv.len() ==> (#[trigger] cv[j]).0 == (commits@[j].0)@);
            if exists|j: int| 0 <= j < commits@.len() && ((#[trigger] commits@[j]).0)@ == id {
                let j = choose|j: int| 0 <= j < commits@.len() && ((#[trigger] commits@[j]).0)@ == id;
                assert(cv[j].0 == id);
            }
        }
        lemma_table_views_multiset(commit_index@, cv);
        lemma_table_views_multiset(change_index@, chv);
        assert(id_table_views(cv) =~= commit_scope_rows(commits@));
        assert(id_table_views(chv) =~= change_scope_rows(commits@));
    }
    (commit_index, change_index)
}

/// Some entry of the table carries the key `id`.
pub open spec fn table_has_key<V>(s: Seq<(Seq<u8>, V)>, id: Seq<u8>) -> bool {
    exists|i: int| 0 <= i < s.len() && (#[trigger] s[i]).0 == id
}

/// Two sequences with equal multisets carry the same key set.
proof fn lemma_key_set_preserved<V>(a: Seq<(Seq<u8>, V)>, b: Seq<(Seq<u8>, V)>)
    requires
        a.to_multiset() == b.to_multiset(),
    ensures
        forall|id: Seq<u8>| #[trigger] table_has_key(a, id) <==> table_has_key(b, id),
{
    broadcast use vstd::seq_lib::group_to_multiset_ensures;

    assert forall|id: Seq<u8>| #[trigger] table_has_key(a, id) <==> table_has_key(b, id) by {
        if exists|i: int| 0 <= i < a.len() && (#[trigger] a[i]).0 == id {
            let i = choose|i: int| 0 <= i < a.len() && (#[trigger] a[i]).0 == id;
            assert(a.contains(a[i]));
            assert(a.to_multiset().count(a[i]) > 0);
            assert(b.to_multiset().count(a[i]) > 0);
            assert(b.contains(a[i]));
            let j = choose|j: int| 0 <= j < b.len() && b[j] == a[i];
            assert(b[j].0 == id);
        }
        if exists|j: int| 0 <= j < b.len() && (#[trigger] b[j]).0 == id {
            let j = choose|j: int| 0 <= j < b.len() && (#[trigger] b[j]).0 == id;
            assert(b.contains(b[j]));
            assert(b.to_multiset().count(b[j]) > 0);
            assert(a.to_multiset().count(b[j]) > 0);
            assert(a.contains(b[j]));
            let i = choose|i: int| 0 <= i < a.len() && a[i] == b[j];
            assert(a[i].0 == id);
        }
    }
}

} // verus!

verus! {

/// An optional disambiguation scope: indexes over the commits of a
/// chosen revset, materialized from its commit stream.
struct DisambiguationData {
    commit_index: IdIndex<CommitId, CommitId>,
    change_index: IdIndex<ChangeId, CommitId>,
}

/// Composes the global index of a repository with an optional scoped
/// index used to resolve and shorten id prefixes.
pub struct IdPrefixContext {
    disambiguation: Option<DisambiguationData>,
}

impl Default for IdPrefixContext {
    /// A context with no disambiguation scope.
    fn default() -> (r: Self)
        ensures
            !r.has_scope(),
    {
        IdPrefixContext { disambiguation: None }
    }
}

impl IdPrefixContext {
    /// Whether a disambiguation scope is configured.
    pub closed spec fn has_scope(&self) -> bool {
        self.disambiguation is Some
    }

    /// The rows of the scope's commit table: commit ids keyed by
    /// themselves, sorted by key.
    pub closed spec fn scope_commit_table(&self) -> Seq<(Seq<u8>, Seq<u8>)> {
        id_table_views(self.disambiguation->Some_0.commit_index@)
    }

    /// The rows of the scope's change table: commit ids keyed by their
    /// change ids, sorted by key.
    pub closed spec fn scope_change_table(&self) -> Seq<(Seq<u8>, Seq<u8>)> {
        id_table_views(self.disambiguation->Some_0.change_index@)
    }

    /// What resolving a commit prefix inside the scope yields.
    pub open spec fn scope_commit_resolution(&self, p: Seq<u8>) -> PrefixResolution<Seq<u8>> {
        rows_commit_resolution(self.scope_commit_table(), p)
    }

    /// What resolving a change prefix inside the scope yields.
    pub open spec fn scope_change_resolution(&self, p: Seq<u8>) -> PrefixResolution<Seq<Seq<u8>>> {
        rows_change_resolution(self.scope_change_table(), p)
    }

    /// Whether the scope knows this commit id.
    pub open spec fn scope_has_commit(&self, id: Seq<u8>) -> bool {
        table_has_key(self.scope_commit_table(), id)
    }

    /// Whether the scope knows this change id.
    pub open spec fn scope_has_change(&self, id: Seq<u8>) -> bool {
        table_has_key(self.scope_change_table(), id)
    }

    /// The scope's shortest unique prefix length for a commit id.
    pub open spec fn scope_commit_short(&self, id: Seq<u8>) -> nat {
        shortest_unique_len(self.scope_commit_table(), id)
    }

    /// The scope's shortest unique prefix length for a change id.
    pub open spec fn scope_change_short(&self, id: Seq<u8>) -> nat {
        shortest_unique_len(self.scope_change_table(), id)
    }

    /// Returns a context that disambiguates within the given commits:
    /// the materialized commit stream of a revset, as pairs of commit
    /// id and change id.  The scope's two tables hold exactly the rows
    /// the stream induces, sorted by key.
    pub fn disambiguate_within(self, scope: Vec<(CommitId, ChangeId)>) -> (r: Self)
        ensures
            r.has_scope(),
            keys_sorted(r.scope_commit_table()),
            keys_sorted(r.scope_change_table()),
            r.scope_commit_table().to_multiset() == commit_scope_rows(scope@).to_multiset(),
            r.scope_change_table().to_multiset() == change_scope_rows(scope@).to_multiset(),
            forall|id: Seq<u8>|
                #[trigger] r.scope_has_commit(id) <==> (exists|j: int|
                    0 <= j < scope@.len() && ((#[trigger] scope@[j]).0)@ == id),
    {
        let (commit_index, change_index) = build_indexes(&scope);
        let r = IdPrefixContext {
            disambiguation: Some(DisambiguationData { commit_index, change_index }),
        };
        proof {
            assert forall|i: int, j: int|
                0 <= i < j < r.scope_commit_table().len() implies lex_leq(
                (#[trigger] r.scope_commit_table()[i]).0,
                (#[trigger] r.scope_commit_table()[j]).0,
            ) by {
                let raw = r.disambiguation->Some_0.commit_index@;
                assert(lex_leq((raw[i]).0, (raw[j]).0));
            }
            assert forall|i: int, j: int|
                0 <= i < j < r.scope_change_table().len() implies lex_leq(
                (#[trigger] r.scope_change_table()[i]).0,
                (#[trigger] r.scope_change_table()[j]).0,
            ) by {
                let raw = r.disambiguation->Some_0.change_index@;
                assert(lex_leq((raw[i]).0, (raw[j]).0));
            }
            assert forall|id: Seq<u8>|
                #[trigger] r.scope_has_commit(id) <==> (exists|j: int|
                    0 <= j < scope@.len() && ((#[trigger] scope@[j]).0)@ == id) by {
                lemma_table_has_key_views(r.disambiguation->Some_0.commit_index@, id);
            }
        }
        r
    }

    /// Resolves an unambiguous commit id prefix: a single match in the
    /// scope wins; otherwise the global index decides.  A scoped
    /// ambiguity or miss still delegates, since a prefix can be
    /// unambiguous globally even when invisible in the scope.
    pub fn resolve_commit_prefix<R: Repo>(&self, repo: &R, prefix: &HexPrefix) -> (r:
        PrefixResolution<CommitId>)
        ensures
            commit_resolution_view(r) == if self.has_scope() && self.scope_commit_resolution(
                prefix@,
            ) is SingleMatch {
                self.scope_commit_resolution(prefix@)
            } else {
                repo.commit_resolution_spec(prefix@)
            },
    {
        match &self.disambiguation {
            Some(d) => {
                proof {
                    lemma_resolution_views(d.commit_index@, prefix@);
                }
                let local = resolve_single_commit(&d.commit_index, prefix);
                match local {
                    PrefixResolution::SingleMatch(id) => PrefixResolution::SingleMatch(id),
                    _ => repo.resolve_prefix(prefix),
                }
            },
            None => repo.resolve_prefix(prefix),
        }
    }

    /// The shortest prefix length of `commit_id` that
    /// `resolve_commit_prefix` still resolves: measured inside the
    /// scope when the scope contains the id, globally otherwise.  The
    /// scoped length may be shorter than the global one, keeping
    /// display inside the scope terse.
    pub fn shortest_commit_prefix_len<R: Repo>(&self, repo: &R, commit_id: &CommitId) -> (r: usize)
        requires
            2 * commit_id@.len() + 1 <= usize::MAX,
        ensures
            r == if self.has_scope() && self.scope_has_commit(commit_id@) {
                self.scope_commit_short(commit_id@)
            } else {
                repo.commit_short_spec(commit_id@)
            },
    {
        match &self.disambiguation {
            Some(d) => {
                proof {
                    lemma_table_has_key_views(d.commit_index@, commit_id@);
                    lemma_shortest_unique_len_views(d.commit_index@, commit_id@);
                }
                if d.commit_index.has_key(commit_id) {
                    d.commit_index.shortest_unique_prefix_len(commit_id)
                } else {
                    repo.shortest_unique_commit_id_prefix_len(commit_id)
                }
            },
            None => repo.shortest_unique_commit_id_prefix_len(commit_id),
        }
    }

    /// Resolves an unambiguous change id prefix to the commit ids in
    /// the scope's revset; delegates to the repository outside a scoped
    /// single match.
    pub fn resolve_change_prefix<R: Repo>(&self, repo: &R, prefix: &HexPrefix) -> (r:
        PrefixResolution<Vec<CommitId>>)
        ensures
            change_resolution_view(r) == if self.has_scope() && self.scope_change_resolution(
                prefix@,
            ) is SingleMatch {
                self.scope_change_resolution(prefix@)
            } else {
                repo.change_resolution_spec(prefix@)
            },
    {
        match &self.disambiguation {
            Some(d) => {
                proof {
                    lemma_resolution_views(d.change_index@, prefix@);
                }
                let local = resolve_change_values(&d.change_index, prefix);
                match local {
                    PrefixResolution::SingleMatch(ids) => PrefixResolution::SingleMatch(ids),
                    _ => repo.resolve_change_id_prefix(prefix),
                }
            },
            None => repo.resolve_change_id_prefix(prefix),
        }
    }

    /// The shortest prefix length of `change_id` that
    /// `resolve_change_prefix` still resolves.
    pub fn shortest_change_prefix_len<R: Repo>(&self, repo: &R, change_id: &ChangeId) -> (r: usize)
        requires
            2 * change_id@.len() + 1 <= usize::MAX,
        ensures
            r == if self.has_scope() && self.scope_has_change(change_id@) {
                self.scope_change_short(change_id@)
            } else {
                repo.change_short_spec(change_id@)
            },
    {
        match &self.disambiguation {
            Some(d) => {
                proof {
                    lemma_table_has_key_views(d.change_index@, change_id@);
                    lemma_shortest_unique_len_views(d.change_index@, change_id@);
                }
                if d.change_index.has_key(change_id) {
                    d.change_index.shortest_unique_prefix_len(change_id)
                } else {
                    repo.shortest_unique_change_id_prefix_len(change_id)
                }
            },
            None => repo.shortest_unique_change_id_prefix_len(change_id),
        }
    }
}

} // verus!

use vstd::seq_lib::group_to_multiset_ensures;

verus! {

/// The rows of a commit-valued table, keys beside value views.
pub open spec fn id_table_views(s: Seq<(Seq<u8>, CommitId)>) -> Seq<(Seq<u8>, Seq<u8>)> {
    Seq::new(s.len(), |i: int| (s[i].0, (s[i].1)@))
}

/// The commit-table rows a commit stream induces: each commit id keyed
/// by itself.
pub open spec fn commit_scope_rows(scope: Seq<(CommitId, ChangeId)>) -> Seq<(Seq<u8>, Seq<u8>)> {
    Seq::new(scope.len(), |j: int| (((scope[j].0))@, ((scope[j].0))@))
}

/// The change-table rows a commit stream induces: each commit id keyed
/// by its change id.
pub open spec fn change_scope_rows(scope: Seq<(CommitId, ChangeId)>) -> Seq<(Seq<u8>, Seq<u8>)> {
    Seq::new(scope.len(), |j: int| (((scope[j].1))@, ((scope[j].0))@))
}

/// Permutations of a table are permutations of its rows.
proof fn lemma_table_views_multiset(a: Seq<(Seq<u8>, CommitId)>, b: Seq<(Seq<u8>, CommitId)>)
    requires
        a.to_multiset() == b.to_multiset(),
    ensures
        id_table_views(a).to_multiset() == id_table_views(b).to_multiset(),
    decreases a.len(),
{
    broadcast use group_to_multiset_ensures;

    if a.len() == 0 {
        assert(b.to_multiset().len() == 0);
        assert(b.len() == 0);
        assert(id_table_views(a) =~= id_table_views(b));
    } else {
        let x = a.last();
        assert(a.contains(x));
        assert(b.to_multiset().count(x) > 0);
        assert(b.contains(x));
        let j = choose|j: int| 0 <= j < b.len() && b[j] == x;
        let d = a.drop_last();
        assert(a =~= d.push(x));
        assert(a.to_multiset() == d.to_multiset().insert(x));
        assert(d.to_multiset() =~= a.to_multiset().remove(x));
        assert(b.remove(j).to_multiset() =~= b.to_multiset().remove(x));
        assert(d.to_multiset() == b.remove(j).to_multiset());
        lemma_table_views_multiset(d, b.remove(j));
        let vx = (x.0, (x.1)@);
        assert(id_table_views(a) =~= id_table_views(d).push(vx));
        assert(id_table_views(a).to_multiset() == id_table_views(d).to_multiset().insert(vx));
        assert(id_table_views(b.remove(j)) =~= id_table_views(b).remove(j));
        assert(id_table_views(b)[j] == vx);
        assert(id_table_views(b).remove(j).to_multiset() =~= id_table_views(b).to_multiset().remove(
            vx,
        ));
        assert(id_table_views(b).to_multiset().count(vx) > 0) by {
            assert(id_table_views(b).contains(vx));
        }
        assert(id_table_views(b).to_multiset().remove(vx).insert(vx) =~= id_table_views(
            b,
        ).to_multiset());
    }
}

/// Matching rows of the row table are the rows of the matching entries.
proof fn lemma_matching_pairs_views(s: Seq<(Seq<u8>, CommitId)>, p: Seq<u8>)
    ensures
        matching_pairs(id_table_views(s), p) =~= id_table_views(matching_pairs(s, p)),
    decreases s.len(),
{
    reveal(Seq::filter);
    let tv = id_table_views(s);
    if s.len() == 0 {
        assert(matching_pairs(tv, p) =~= id_table_views(matching_pairs(s, p)));
    } else {
        let d = s.drop_last();
        lemma_matching_pairs_views(d, p);
        assert(tv.drop_last() =~= id_table_views(d));
        assert(tv.last() == (s.last().0, (s.last().1)@));
        if prefix_matches(p, s.last().0) {
            assert(matching_pairs(s, p) == matching_pairs(d, p).push(s.last()));
            assert(id_table_views(matching_pairs(s, p)) =~= id_table_views(
                matching_pairs(d, p),
            ).push(tv.last()));
            assert(matching_pairs(tv, p) == matching_pairs(tv.drop_last(), p).push(tv.last()));
        } else {
            assert(matching_pairs(s, p) == matching_pairs(d, p));
            assert(matching_pairs(tv, p) == matching_pairs(tv.drop_last(), p));
        }
    }
}

/// Ambiguity coincides on a table and its rows.
proof fn lemma_ambiguous_views(s: Seq<(Seq<u8>, CommitId)>, p: Seq<u8>)
    ensures
        ambiguous(id_table_views(s), p) == ambiguous(s, p),
{
    lemma_matching_pairs_views(s, p);
    let m = matching_pairs(s, p);
    let mv = matching_pairs(id_table_views(s), p);
    assert(forall|i: int| 0 <= i < m.len() ==> (#[trigger] mv[i]).0 == m[i].0);
    if ambiguous(s, p) {
        let (i, j) = choose|i: int, j: int|
            0 <= i < m.len() && 0 <= j < m.len() && (#[trigger] m[i]).0 != (#[trigger] m[j]).0;
        assert(mv[i].0 != mv[j].0);
    }
    if ambiguous(id_table_views(s), p) {
        let (i, j) = choose|i: int, j: int|
            0 <= i < mv.len() && 0 <= j < mv.len() && (#[trigger] mv[i]).0 != (#[trigger] mv[j]).0;
        assert(m[i].0 != m[j].0);
    }
}

/// The shortest unique length only reads keys, shared by the rows.
proof fn lemma_shortest_unique_len_views(s: Seq<(Seq<u8>, CommitId)>, key: Seq<u8>)
    ensures
        shortest_unique_len(id_table_views(s), key) == shortest_unique_len(s, key),
    decreases s.len(),
{
    if s.len() > 0 {
        lemma_shortest_unique_len_views(s.drop_last(), key);
        assert(id_table_views(s).drop_last() =~= id_table_views(s.drop_last()));
        assert(id_table_views(s).last().0 == s.last().0);
    }
}

/// Key membership coincides on a table and its rows.
proof fn lemma_table_has_key_views(s: Seq<(Seq<u8>, CommitId)>, id: Seq<u8>)
    ensures
        table_has_key(id_table_views(s), id) == table_has_key(s, id),
{
    if table_has_key(s, id) {
        let i = choose|i: int| 0 <= i < s.len() && (#[trigger] s[i]).0 == id;
        assert((id_table_views(s)[i]).0 == id);
    }
    if table_has_key(id_table_views(s), id) {
        let i = choose|i: int|
            0 <= i < id_table_views(s).len() && (#[trigger] id_table_views(s)[i]).0 == id;
        assert(s[i].0 == id);
    }
}

/// Resolution of a commit prefix against table rows: the matched
/// group's last value.
pub open spec fn rows_commit_resolution(t: Seq<(Seq<u8>, Seq<u8>)>, p: Seq<u8>) -> PrefixResolution<
    Seq<u8>,
> {
    if p.len() == 0 {
        PrefixResolution::AmbiguousMatch
    } else if matching_pairs(t, p).len() == 0 {
        PrefixResolution::NoMatch
    } else if ambiguous(t, p) {
        PrefixResolution::AmbiguousMatch
    } else {
        let m = matching_pairs(t, p);
        PrefixResolution::SingleMatch(m[m.len() - 1].1)
    }
}

/// Resolution of a change prefix against table rows: the matched
/// group's values.
pub open spec fn rows_change_resolution(t: Seq<(Seq<u8>, Seq<u8>)>, p: Seq<u8>) -> PrefixResolution<
    Seq<Seq<u8>>,
> {
    if p.len() == 0 {
        PrefixResolution::AmbiguousMatch
    } else if matching_pairs(t, p).len() == 0 {
        PrefixResolution::NoMatch
    } else if ambiguous(t, p) {
        PrefixResolution::AmbiguousMatch
    } else {
        let m = matching_pairs(t, p);
        PrefixResolution::SingleMatch(Seq::new(m.len(), |i: int| m[i].1))
    }
}

/// Table resolutions and row resolutions agree.
pub proof fn lemma_resolution_views(s: Seq<(Seq<u8>, CommitId)>, p: Seq<u8>)
    ensures
        table_commit_resolution(s, p) == rows_commit_resolution(id_table_views(s), p),
        table_change_resolution_by_change(s, p) == rows_change_resolution(id_table_views(s), p),
{
    lemma_matching_pairs_views(s, p);
    lemma_ambiguous_views(s, p);
    let m = matching_pairs(s, p);
    let mv = matching_pairs(id_table_views(s), p);
    if p.len() > 0 && m.len() > 0 && !ambiguous(s, p) {
        assert(mv[mv.len() - 1].1 == (m[m.len() - 1].1)@);
        assert(Seq::new(m.len(), |i: int| (m[i].1)@) =~= Seq::new(mv.len(), |i: int| mv[i].1));
    }
}

} // verus!
