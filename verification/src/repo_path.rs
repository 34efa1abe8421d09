//! Paths within a repository: a `RepoPath` is a sequence of basename
//! components from the repository root.  Paths are ordered
//! lexicographically by components, components by their bytes.

use vstd::prelude::*;
use crate::hex::{lex_lt, bytes_lt, bytes_eq, bytes_copy, lemma_lex_trichotomy, lemma_lex_transitive};

verus! {

/// One basename in a directory.
#[derive(Debug)]
pub struct RepoPathComponent {
    value: Vec<u8>,
}

impl View for RepoPathComponent {
    type V = Seq<u8>;

    closed spec fn view(&self) -> Seq<u8> {
        self.value@
    }
}

impl RepoPathComponent {
    pub fn new(value: Vec<u8>) -> (r: Self)
        ensures
            r@ == value@,
    {
        RepoPathComponent { value }
    }

    pub fn as_bytes(&self) -> (r: &Vec<u8>)
        ensures
            r@ == self@,
    {
        &self.value
    }
}

impl Clone for RepoPathComponent {
    fn clone(&self) -> (r: Self)
        ensures
            r@ == self@,
    {
        RepoPathComponent { value: bytes_copy(&self.value) }
    }
}

/// A directory or file path: components from the root, root itself empty.
#[derive(Debug)]
pub struct RepoPath {
    components: Vec<RepoPathComponent>,
}

impl View for RepoPath {
    type V = Seq<Seq<u8>>;

    closed spec fn view(&self) -> Seq<Seq<u8>> {
        Seq::new(self.components@.len(), |i: int| self.components@[i]@)
    }
}

/// Strict lexicographic order on paths: componentwise, a proper prefix
/// comes first.
pub open spec fn path_lt(a: Seq<Seq<u8>>, b: Seq<Seq<u8>>) -> bool
    decreases a.len(),
{
    if b.len() == 0 {
        false
    } else if a.len() == 0 {
        true
    } else if lex_lt(a[0], b[0]) {
        true
    } else if lex_lt(b[0], a[0]) {
        false
    } else {
        path_lt(a.skip(1), b.skip(1))
    }
}

pub open spec fn path_leq(a: Seq<Seq<u8>>, b: Seq<Seq<u8>>) -> bool {
    path_lt(a, b) || a == b
}

pub proof fn lemma_path_trichotomy(a: Seq<Seq<u8>>, b: Seq<Seq<u8>>)
    ensures
        path_lt(a, b) || path_lt(b, a) || a == b,
        path_lt(a, b) ==> !path_lt(b, a) && a != b,
        path_lt(b, a) ==> a != b,
    decreases a.len(),
{
    if a.len() == 0 && b.len() == 0 {
        assert(a =~= b);
    } else if a.len() == 0 || b.len() == 0 {
    } else {
        lemma_lex_trichotomy(a[0], b[0]);
        if !lex_lt(a[0], b[0]) && !lex_lt(b[0], a[0]) {
            lemma_path_trichotomy(a.skip(1), b.skip(1));
            if a.skip(1) == b.skip(1) {
                assert forall|i: int| 0 <= i < a.len() implies a[i] == b[i] by {
                    if i > 0 {
                        assert(a.skip(1)[i - 1] == b.skip(1)[i - 1]);
                    }
                }
                assert(a =~= b);
            }
            if a == b {
                assert(a.skip(1) =~= b.skip(1));
            }
        }
    }
}

pub proof fn lemma_path_transitive(a: Seq<Seq<u8>>, b: Seq<Seq<u8>>, c: Seq<Seq<u8>>)
    requires
        path_leq(a, b),
        path_leq(b, c),
    ensures
        path_leq(a, c),
        path_lt(a, b) || path_lt(b, c) ==> path_lt(a, c),
    decreases a.len() + b.len() + c.len(),
{
    if a == b || b == c {
    } else if a.len() == 0 {
        if c.len() == 0 {
            assert(b.len() > 0);
        }
    } else {
        assert(b.len() > 0);
        assert(c.len() > 0);
        lemma_lex_trichotomy(a[0], b[0]);
        lemma_lex_trichotomy(b[0], c[0]);
        lemma_lex_trichotomy(a[0], c[0]);
        lemma_lex_transitive(a[0], b[0], c[0]);
        if a[0] == b[0] && b[0] == c[0] {
            lemma_path_trichotomy(a.skip(1), b.skip(1));
            lemma_path_trichotomy(b.skip(1), c.skip(1));
            lemma_path_transitive(a.skip(1), b.skip(1), c.skip(1));
            lemma_path_trichotomy(a.skip(1), c.skip(1));
            if a.skip(1) =~= c.skip(1) {
                assert(path_lt(a.skip(1), b.skip(1)) || path_lt(b.skip(1), c.skip(1)));
            }
        }
    }
}

impl RepoPath {
    /// The repository root.
    pub fn root() -> (r: Self)
        ensures
            r@ =~= Seq::<Seq<u8>>::empty(),
    {
        RepoPath { components: Vec::new() }
    }

    pub fn components(&self) -> (r: &Vec<RepoPathComponent>)
        ensures
            r@.len() == self@.len(),
            forall|i: int| 0 <= i < r@.len() ==> r@[i]@ == self@[i],
    {
        &self.components
    }

    pub fn is_root(&self) -> (r: bool)
        ensures
            r == (self@.len() == 0),
    {
        self.components.len() == 0
    }

    /// The path of the entry `name` inside the directory `self`.
    pub fn join(&self, name: &RepoPathComponent) -> (r: Self)
        ensures
            r@ =~= self@.push(name@),
    {
        let mut components = clone_components(&self.components);
        components.push(name.clone());
        RepoPath { components }
    }

    /// Splits into parent directory and basename; `None` at the root.
    pub fn split(&self) -> (r: Option<(RepoPath, RepoPathComponent)>)
        ensures
            self@.len() == 0 ==> r is None,
            self@.len() > 0 ==> {
                &&& r is Some
                &&& r->Some_0.0@ =~= self@.subrange(0, self@.len() - 1)
                &&& r->Some_0.1@ == self@[self@.len() - 1]
            },
    {
        if self.components.len() == 0 {
            None
        } else {
            let mut components = clone_components(&self.components);
            let last = components.pop().unwrap();
            Some((RepoPath { components }, last))
        }
    }
}

impl Clone for RepoPath {
    fn clone(&self) -> (r: Self)
        ensures
            r@ == self@,
    {
        let components = clone_components(&self.components);
        let r = RepoPath { components };
        proof {
            assert(r@ =~= self@);
        }
        r
    }
}

fn clone_components(v: &Vec<RepoPathComponent>) -> (r: Vec<RepoPathComponent>)
    ensures
        r@.len() == v@.len(),
        forall|i: int| 0 <= i < v@.len() ==> r@[i]@ == v@[i]@,
{
    let mut r: Vec<RepoPathComponent> = Vec::new();
    let mut i: usize = 0;
    while i < v.len()
        invariant
            i <= v@.len(),
            r@.len() == i,
            forall|j: int| 0 <= j < i ==> r@[j]@ == v@[j]@,
        decreases v@.len() - i,
    {
        r.push(v[i].clone());
        i = i + 1;
    }
    r
}

/// Exec comparison by the path order.
pub fn repo_path_lt(a: &RepoPath, b: &RepoPath) -> (r: bool)
    ensures
        r == path_lt(a@, b@),
{
    let ac = a.components();
    let bc = b.components();
    let mut i: usize = 0;
    proof {
        assert(a@.skip(0) =~= a@);
        assert(b@.skip(0) =~= b@);
    }
    loop
        invariant
            i <= ac@.len(),
            i <= bc@.len(),
            ac@.len() == a@.len(),
            bc@.len() == b@.len(),
            forall|j: int| 0 <= j < ac@.len() ==> ac@[j]@ == a@[j],
            forall|j: int| 0 <= j < bc@.len() ==> bc@[j]@ == b@[j],
            path_lt(a@, b@) == path_lt(a@.skip(i as int), b@.skip(i as int)),
        decreases ac@.len() - i,
    {
        let ghost sa = a@.skip(i as int);
        let ghost sb = b@.skip(i as int);
        proof {
            assert(sa.len() > 0 ==> sa[0] == a@[i as int]);
            assert(sb.len() > 0 ==> sb[0] == b@[i as int]);
        }
        if i == bc.len() {
            return false;
        }
        if i == ac.len() {
            return true;
        }
        if bytes_lt(ac[i].as_bytes(), bc[i].as_bytes()) {
            return true;
        }
        if bytes_lt(bc[i].as_bytes(), ac[i].as_bytes()) {
            return false;
        }
        proof {
            lemma_lex_trichotomy(a@[i as int], b@[i as int]);
            assert(sa.skip(1) =~= a@.skip(i + 1));
            assert(sb.skip(1) =~= b@.skip(i + 1));
            assert(path_lt(sa, sb) == path_lt(sa.skip(1), sb.skip(1)));
        }
        i = i + 1;
    }
}

/// Exec equality by the path order.
pub fn repo_path_eq(a: &RepoPath, b: &RepoPath) -> (r: bool)
    ensures
        r == (a@ == b@),
{
    let ac = a.components();
    let bc = b.components();
    if ac.len() != bc.len() {
        proof {
            assert(a@ != b@);
        }
        return false;
    }
    let mut i: usize = 0;
    while i < ac.len()
        invariant
            i <= ac@.len(),
            ac@.len() == bc@.len(),
            ac@.len() == a@.len(),
            bc@.len() == b@.len(),
            forall|j: int| 0 <= j < ac@.len() ==> ac@[j]@ == a@[j],
            forall|j: int| 0 <= j < bc@.len() ==> bc@[j]@ == b@[j],
            forall|j: int| 0 <= j < i ==> a@[j] == b@[j],
        decreases ac@.len() - i,
    {
        if !bytes_eq(ac[i].as_bytes(), bc[i].as_bytes()) {
            proof {
                assert(a@[i as int] != b@[i as int]);
            }
            return false;
        }
        i = i + 1;
    }
    proof {
        assert(a@ =~= b@);
    }
    true
}

} // verus!
