//! Whole-file three-way content merge.
//!
//! The merger folds the sides over the bases: starting from the first
//! side, each base in turn must equal either the next side (that side
//! brought no change) or the state folded so far (the fold brought no
//! change); otherwise the contents conflict.

use vstd::prelude::*;
use crate::hex::bytes_eq;

verus! {

/// The outcome of a content merge.
#[derive(Debug, PartialEq, Eq)]
pub enum MergeResult {
    /// The contents merged cleanly.
    Resolved(Vec<u8>),
    /// The contents conflict.
    Conflict,
}

/// The fold underlying the merge: `None` means conflict.
pub open spec fn fold_merge(acc: Seq<u8>, removes: Seq<Seq<u8>>, adds: Seq<Seq<u8>>) -> Option<
    Seq<u8>,
>
    decreases removes.len(),
{
    if removes.len() == 0 {
        Some(acc)
    } else if adds.len() == 0 {
        None
    } else if adds[0] == removes[0] {
        fold_merge(acc, removes.skip(1), adds.skip(1))
    } else if acc == removes[0] {
        fold_merge(adds[0], removes.skip(1), adds.skip(1))
    } else {
        None
    }
}

/// Merges file contents three-way (or octopus-style): `removes` are
/// the base versions, `adds` the side versions, one more numerous.
pub fn merge(removes: &Vec<Vec<u8>>, adds: &Vec<Vec<u8>>) -> (r: MergeResult)
    requires
        adds@.len() == removes@.len() + 1,
    ensures
        match fold_merge(adds@[0]@, views_of(removes@), views_of(adds@).skip(1)) {
            Some(c) => r matches MergeResult::Resolved(v) && v@ == c,
            None => r is Conflict,
        },
{
    let mut i: usize = 0;
    let ghost rs = views_of(removes@);
    let ghost ads = views_of(adds@).skip(1);
    let mut current: Vec<u8> = clone_bytes(&adds[0]);
    proof {
        assert(rs.skip(0) =~= rs);
        assert(ads.skip(0) =~= ads);
    }
    while i < removes.len()
        invariant
            adds@.len() == removes@.len() + 1,
            i <= removes@.len(),
            rs == views_of(removes@),
            ads == views_of(adds@).skip(1),
            fold_merge(adds@[0]@, rs, ads) == fold_merge(current@, rs.skip(i as int), ads.skip(i as int)),
        decreases removes@.len() - i,
    {
        let ghost sr = rs.skip(i as int);
        let ghost sa = ads.skip(i as int);
        proof {
            assert(sr[0] == rs[i as int]);
            assert(sa[0] == ads[i as int]);
            assert(rs[i as int] == removes@[i as int]@);
            assert(ads[i as int] == adds@[i + 1]@);
            assert(sr.skip(1) =~= rs.skip(i + 1));
            assert(sa.skip(1) =~= ads.skip(i + 1));
        }
        if bytes_eq(&adds[i + 1], &removes[i]) {
            // this side brought no change: keep the fold
        } else if bytes_eq(&current, &removes[i]) {
            // the fold equals the base: take the changed side
            current = clone_bytes(&adds[i + 1]);
        } else {
            return MergeResult::Conflict;
        }
        i = i + 1;
    }
    proof {
        assert(rs.skip(rs.len() as int).len() == 0);
    }
    MergeResult::Resolved(current)
}

/// The views of a vector of byte vectors.
pub open spec fn views_of(s: Seq<Vec<u8>>) -> Seq<Seq<u8>> {
    Seq::new(s.len(), |i: int| s[i]@)
}

fn clone_bytes(v: &Vec<u8>) -> (r: Vec<u8>)
    ensures
        r@ == v@,
{
    let r = v.clone();
    proof {
        assert(r@ =~= v@);
    }
    r
}

} // verus!
