//! User-supplied hexadecimal prefixes of object identifiers, possibly
//! of odd length, and the tri-state result of resolving one.

use vstd::prelude::*;
use vstd::string::StringSliceAdditionalSpecFns;
use crate::hex::{
    nibbles_of, is_prefix, common_len, lex_leq, lemma_common_len_bounds, lemma_common_len_at_least,
    lemma_lex_lt_by_common, lemma_prefix_common_len, nibbles_of_exec, bytes_copy,
};
use crate::backend::{ObjectId, is_hex_digit, hex_val, hex_digit_values};

verus! {

/// The result of looking up a prefix: no key matches, every matching
/// entry has one key, or several distinct keys match.
#[derive(Debug, PartialEq, Eq, Clone)]
pub enum PrefixResolution<T> {
    NoMatch,
    SingleMatch(T),
    AmbiguousMatch,
}

/// A hex prefix of an object identifier, as digit values (each `0..16`).
///
/// Stored as the bytes implied by the even part of the prefix, with the
/// trailing lone digit, when the length is odd, padded into the last
/// byte's low nibble.
#[derive(Debug)]
pub struct HexPrefix {
    min_prefix_bytes: Vec<u8>,
    has_odd_byte: bool,
}

impl View for HexPrefix {
    type V = Seq<u8>;

    /// The digit values of the prefix.
    closed spec fn view(&self) -> Seq<u8> {
        if self.has_odd_byte {
            nibbles_of(self.min_prefix_bytes@).drop_last()
        } else {
            nibbles_of(self.min_prefix_bytes@)
        }
    }
}

impl Clone for HexPrefix {
    fn clone(&self) -> (r: Self)
        ensures
            r@ == self@,
            r.wf(),
    {
        proof {
            use_type_invariant(self);
        }
        HexPrefix {
            min_prefix_bytes: bytes_copy(&self.min_prefix_bytes),
            has_odd_byte: self.has_odd_byte,
        }
    }
}

impl HexPrefix {
    /// An odd prefix owns a final byte whose low nibble is the padding.
    #[verifier::type_invariant]
    pub closed spec fn wf(&self) -> bool {
        self.has_odd_byte ==> self.min_prefix_bytes@.len() > 0 && self.min_prefix_bytes@.last()
            % 16 == 0
    }

    /// Builds a prefix from a hex string; `None` when some character is
    /// not a hexadecimal digit.
    pub fn new(prefix: &str) -> (r: Option<HexPrefix>)
        ensures
            r is Some <==> forall|i: int|
                0 <= i < prefix.spec_bytes().len() ==> is_hex_digit(#[trigger] prefix.spec_bytes()[i]),
            r is Some ==> r->Some_0@ == hex_digit_values(prefix.spec_bytes()),
    {
        let b = prefix.as_bytes();
        let n = b.len();
        let mut digits: Vec<u8> = Vec::new();
        let mut i: usize = 0;
        while i < n
            invariant
                b@ == prefix.spec_bytes(),
                n == b@.len(),
                i <= n,
                digits@.len() == i,
                forall|j: int| 0 <= j < i ==> is_hex_digit(#[trigger] b@[j]),
                forall|j: int| 0 <= j < i ==> digits@[j] == hex_val(b@[j]) && digits@[j] < 16,
            decreases n - i,
        {
            let c = b[i];
            let v = if 48 <= c && c <= 57 {
                c - 48
            } else if 97 <= c && c <= 102 {
                c - 87
            } else if 65 <= c && c <= 70 {
                c - 55
            } else {
                return None;
            };
            digits.push(v);
            i = i + 1;
        }
        let has_odd_byte = digits.len() % 2 != 0;
        let mut bytes: Vec<u8> = Vec::new();
        let mut k: usize = 0;
        while k + 1 < digits.len()
            invariant
                k % 2 == 0,
                k <= digits@.len(),
                digits@.len() % 2 == 1 ==> k < digits@.len(),
                bytes@.len() * 2 == k,
                forall|j: int| 0 <= j < digits@.len() ==> digits@[j] < 16,
                forall|j: int|
                    0 <= j < k ==> nibbles_of(bytes@)[j] == digits@[j],
            decreases digits@.len() - k,
        {
            let byte = digits[k] * 16 + digits[k + 1];
            bytes.push(byte);
            proof {
                assert(byte / 16 == digits@[k as int] && byte % 16 == digits@[k + 1]) by (
                nonlinear_arith)
                    requires
                        digits@[k as int] < 16,
                        digits@[k + 1] < 16,
                        byte == digits@[k as int] * 16 + digits@[k + 1],
                ;
                assert forall|j: int| 0 <= j < k + 2 implies nibbles_of(bytes@)[j] == digits@[j] by {
                    if j < k {
                        assert(bytes@[j / 2] == bytes@.drop_last()[j / 2]);
                        assert(nibbles_of(bytes@.drop_last())[j] == digits@[j]);
                    } else {
                        assert(j / 2 == bytes@.len() - 1);
                    }
                }
            }
            k = k + 2;
        }
        if has_odd_byte {
            proof {
                assert(k == digits@.len() - 1);
            }
            let ghost pre = bytes@;
            let byte = digits[k] * 16;
            bytes.push(byte);
            proof {
                assert(byte / 16 == digits@[k as int] && byte % 16 == 0) by (nonlinear_arith)
                    requires
                        digits@[k as int] < 16,
                        byte == digits@[k as int] * 16,
                ;
                assert(bytes@.drop_last() =~= pre);
                assert forall|j: int| 0 <= j < k + 1 implies nibbles_of(bytes@)[j] == digits@[j] by {
                    if j < k {
                        assert(bytes@[j / 2] == pre[j / 2]);
                        assert(nibbles_of(pre)[j] == digits@[j]);
                    } else {
                        assert(j / 2 == bytes@.len() - 1);
                    }
                }
                assert(nibbles_of(bytes@).drop_last() =~= digits@);
            }
        } else {
            proof {
                assert(k == digits@.len());
                assert(nibbles_of(bytes@) =~= digits@);
            }
        }
        let r = HexPrefix { min_prefix_bytes: bytes, has_odd_byte };
        proof {
            if has_odd_byte {
                assert(nibbles_of(r.min_prefix_bytes@).last() == 0);
                assert(r.min_prefix_bytes@.last() % 16 == 0) by {
                    let nb = nibbles_of(r.min_prefix_bytes@);
                    assert(nb[nb.len() - 1] == r.min_prefix_bytes@[(nb.len() - 1) / 2] % 16);
                }
            }
            assert(digits@ =~= hex_digit_values(prefix.spec_bytes()));
            assert(r@ =~= hex_digit_values(prefix.spec_bytes()));
        }
        Some(r)
    }

    /// The bytes implied by the prefix: the smallest identifier bytes
    /// any matching identifier can start with.
    pub fn min_prefix_bytes(&self) -> (r: &Vec<u8>)
        ensures
            nibbles_of(r@) == if self@.len() % 2 == 1 {
                self@.push(0)
            } else {
                self@
            },
            r@.len() == 0 <==> self@.len() == 0,
    {
        proof {
            use_type_invariant(self);
            let nb = nibbles_of(self.min_prefix_bytes@);
            if self.has_odd_byte {
                assert(nb.len() > 0);
                assert(nb.last() == self.min_prefix_bytes@.last() % 16) by {
                    assert((nb.len() - 1) / 2 == self.min_prefix_bytes@.len() - 1);
                }
                assert(nb =~= self@.push(0));
            }
        }
        &self.min_prefix_bytes
    }

    /// Whether the identifier's hex form starts with this prefix.
    pub fn matches<K: ObjectId>(&self, id: &K) -> (r: bool)
        ensures
            r == is_prefix(self@, nibbles_of(id@)),
    {
        proof {
            use_type_invariant(self);
        }
        let digits = nibbles_of_exec(id.as_bytes());
        let own = nibbles_of_exec(&self.min_prefix_bytes);
        let plen = if self.has_odd_byte {
            own.len() - 1
        } else {
            own.len()
        };
        if plen > digits.len() {
            return false;
        }
        let mut i: usize = 0;
        while i < plen
            invariant
                own@.len() >= plen,
                plen <= digits@.len(),
                digits@ == nibbles_of(id@),
                self@ == own@.subrange(0, plen as int),
                i <= plen,
                forall|j: int| 0 <= j < i ==> own@[j] == digits@[j],
            decreases plen - i,
        {
            if own[i] != digits[i] {
                proof {
                    assert(self@[i as int] != nibbles_of(id@)[i as int]);
                    assert(!is_prefix(self@, nibbles_of(id@)));
                }
                return false;
            }
            i = i + 1;
        }
        proof {
            assert(self@ =~= nibbles_of(id@).subrange(0, plen as int));
        }
        true
    }

    /// Whether the prefix has no digits.  The empty prefix matches every
    /// identifier but resolvers always treat it as ambiguous.
    pub fn is_empty(&self) -> (r: bool)
        ensures
            r == (self@.len() == 0),
    {
        proof {
            use_type_invariant(self);
        }
        self.min_prefix_bytes.len() == 0
    }
}

/// A matching identifier is never below the prefix's minimum bytes:
/// in nibble terms, `p` padded to `q` keeps `q <= digits` whenever `p`
/// is a prefix of `digits`.
pub proof fn lemma_min_bytes_below(p: Seq<u8>, q: Seq<u8>, digits: Seq<u8>)
    requires
        q == if p.len() % 2 == 1 {
            p.push(0)
        } else {
            p
        },
        digits.len() % 2 == 0,
        is_prefix(p, digits),
    ensures
        lex_leq(q, digits),
{
    lemma_prefix_common_len(p, digits);
    lemma_common_len_bounds(p, digits);
    if p.len() % 2 == 1 {
        assert(digits.len() > p.len());
        assert(forall|i: int| 0 <= i < p.len() ==> q[i] == p[i] && p[i] == digits[i]);
        if digits[p.len() as int] == 0 {
            lemma_common_len_at_least(q, digits, q.len() as int);
            lemma_common_len_bounds(q, digits);
            lemma_lex_lt_by_common(q, digits);
            if q.len() == digits.len() {
                assert(q =~= digits);
            }
        } else {
            lemma_common_len_at_least(q, digits, p.len() as int);
            lemma_common_len_bounds(q, digits);
            lemma_lex_lt_by_common(q, digits);
            assert(common_len(q, digits) == p.len());
        }
    } else {
        lemma_lex_lt_by_common(p, digits);
        if p.len() == digits.len() {
            assert(p =~= digits);
        }
    }
}

} // verus!
