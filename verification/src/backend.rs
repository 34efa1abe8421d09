//! The data model: object identifiers, tree values, conflicts, and the
//! entry table of a stored tree.
//!
//! An object identifier is an opaque byte string with a hexadecimal
//! view; equality and ordering are byte-lexicographic.  The specialized
//! kinds (`FileId`, `TreeId`, `ChangeId`, `CommitId`, `ConflictId`) are
//! distinct types sharing the `ObjectId` abstraction.

use vstd::prelude::*;
use vstd::string::StringSliceAdditionalSpecFns;
use crate::hex::{lex_lt, nibbles_of, bytes_eq, bytes_lt, bytes_copy};
use crate::repo_path::RepoPathComponent;

verus! {

/// An error reported by the object store.
#[derive(Debug, PartialEq, Eq)]
pub enum BackendError {
    /// The requested object identifier is not present in the store.
    ObjectNotFound,
}

impl Clone for BackendError {
    fn clone(&self) -> (r: Self)
        ensures
            r == *self,
    {
        match self {
            BackendError::ObjectNotFound => BackendError::ObjectNotFound,
        }
    }
}

/// Shared abstraction of the identifier kinds: opaque bytes.
pub trait ObjectId: View<V = Seq<u8>> + Sized {
    fn as_bytes(&self) -> (r: &Vec<u8>)
        ensures
            r@ == self@,
    ;

    fn from_bytes(bytes: Vec<u8>) -> (r: Self)
        ensures
            r@ == bytes@,
    ;
}

/// Whether `c` is an ASCII hexadecimal digit.
pub open spec fn is_hex_digit(c: u8) -> bool {
    (48 <= c <= 57) || (97 <= c <= 102) || (65 <= c <= 70)
}

/// The value of an ASCII hexadecimal digit.
pub open spec fn hex_val(c: u8) -> u8 {
    if 48 <= c <= 57 {
        (c - 48) as u8
    } else if 97 <= c <= 102 {
        (c - 87) as u8
    } else {
        (c - 55) as u8
    }
}

/// A string parses as the hex form of a byte string: an even number of
/// hex digits.
pub open spec fn is_hex_string(s: Seq<u8>) -> bool {
    s.len() % 2 == 0 && forall|i: int| 0 <= i < s.len() ==> is_hex_digit(#[trigger] s[i])
}

/// The bytes denoted by a sequence of hex digits.
pub open spec fn hex_digit_values(s: Seq<u8>) -> Seq<u8> {
    s.map_values(|c: u8| hex_val(c))
}

fn hex_digit_value(c: u8) -> (r: Option<u8>)
    ensures
        r is Some <==> is_hex_digit(c),
        r is Some ==> r->Some_0 == hex_val(c) && r->Some_0 < 16,
{
    if 48 <= c && c <= 57 {
        Some(c - 48)
    } else if 97 <= c && c <= 102 {
        Some(c - 87)
    } else if 65 <= c && c <= 70 {
        Some(c - 55)
    } else {
        None
    }
}

/// Parses a hex string with an even number of digits into bytes.
/// Returns `None` when the length is odd or a character is not a hex
/// digit.
pub fn hex_to_bytes(s: &str) -> (r: Option<Vec<u8>>)
    ensures
        r is Some <==> is_hex_string(s.spec_bytes()),
        r is Some ==> nibbles_of(r->Some_0@) == hex_digit_values(s.spec_bytes()),
{
    let b = s.as_bytes();
    let n = b.len();
    if n % 2 != 0 {
        return None;
    }
    let mut out: Vec<u8> = Vec::new();
    let mut i: usize = 0;
    while i < n
        invariant
            b@ == s.spec_bytes(),
            n == b@.len(),
            n % 2 == 0,
            i % 2 == 0,
            i <= n,
            out@.len() * 2 == i,
            forall|j: int| 0 <= j < i ==> is_hex_digit(#[trigger] b@[j]),
            nibbles_of(out@) =~= hex_digit_values(b@.subrange(0, i as int)),
        decreases n - i,
    {
        let hi = match hex_digit_value(b[i]) {
            Some(v) => v,
            None => {
                proof {
                    assert(!is_hex_digit(s.spec_bytes()[i as int]));
                }
                return None;
            },
        };
        let lo = match hex_digit_value(b[i + 1]) {
            Some(v) => v,
            None => {
                proof {
                    assert(!is_hex_digit(s.spec_bytes()[i + 1]));
                }
                return None;
            },
        };
        let byte = hi * 16 + lo;
        out.push(byte);
        proof {
            assert(byte / 16 == hi && byte % 16 == lo) by (nonlinear_arith)
                requires
                    hi < 16,
                    lo < 16,
                    byte == hi * 16 + lo,
            ;
        }
        i = i + 2;
        proof {
            let now = b@.subrange(0, i as int);
            assert forall|j: int| 0 <= j < i implies nibbles_of(out@)[j] == hex_digit_values(
                now,
            )[j] by {
                if j < i - 2 {
                    assert(nibbles_of(out@)[j] == nibbles_of(out@.drop_last())[j]) by {
                        assert(out@.drop_last()[j / 2] == out@[j / 2]);
                    }
                    assert(hex_digit_values(b@.subrange(0, i - 2))[j] == hex_digit_values(now)[j]);
                } else {
                    assert(j / 2 == out@.len() - 1);
                    assert(out@[j / 2] == byte);
                }
            }
            assert(nibbles_of(out@) =~= hex_digit_values(now));
        }
    }
    proof {
        assert(b@.subrange(0, n as int) =~= b@);
    }
    Some(out)
}

/// The identifier of a stored file (also used for symlink targets).
#[derive(Debug, PartialEq, Eq)]
pub struct FileId {
    bytes: Vec<u8>,
}

/// The identifier of a stored tree.
#[derive(Debug, PartialEq, Eq)]
pub struct TreeId {
    bytes: Vec<u8>,
}

/// The identifier of a change (stable across rewrites of a commit).
#[derive(Debug, PartialEq, Eq)]
pub struct ChangeId {
    bytes: Vec<u8>,
}

/// The identifier of a commit.
#[derive(Debug, PartialEq, Eq)]
pub struct CommitId {
    bytes: Vec<u8>,
}

/// The identifier of a stored conflict object.
#[derive(Debug, PartialEq, Eq)]
pub struct ConflictId {
    bytes: Vec<u8>,
}

impl View for FileId {
    type V = Seq<u8>;

    closed spec fn view(&self) -> Seq<u8> {
        self.bytes@
    }
}

impl ObjectId for FileId {
    fn as_bytes(&self) -> (r: &Vec<u8>)
        ensures
            r@ == self@,
    {
        &self.bytes
    }

    fn from_bytes(bytes: Vec<u8>) -> (r: Self)
        ensures
            r@ == bytes@,
    {
        FileId { bytes }
    }
}

impl Clone for FileId {
    fn clone(&self) -> (r: Self)
        ensures
            r@ == self@,
    {
        FileId { bytes: bytes_copy(&self.bytes) }
    }
}

impl FileId {
    /// Builds the identifier denoted by a hex string.
    pub fn from_hex(s: &str) -> (r: Self)
        requires
            is_hex_string(s.spec_bytes()),
        ensures
            nibbles_of(r@) == hex_digit_values(s.spec_bytes()),
    {
        match hex_to_bytes(s) {
            Some(bytes) => FileId { bytes },
            None => FileId { bytes: Vec::new() },
        }
    }
}

impl View for TreeId {
    type V = Seq<u8>;

    closed spec fn view(&self) -> Seq<u8> {
        self.bytes@
    }
}

impl ObjectId for TreeId {
    fn as_bytes(&self) -> (r: &Vec<u8>)
        ensures
            r@ == self@,
    {
        &self.bytes
    }

    fn from_bytes(bytes: Vec<u8>) -> (r: Self)
        ensures
            r@ == bytes@,
    {
        TreeId { bytes }
    }
}

impl Clone for TreeId {
    fn clone(&self) -> (r: Self)
        ensures
            r@ == self@,
    {
        TreeId { bytes: bytes_copy(&self.bytes) }
    }
}

impl TreeId {
    /// Builds the identifier denoted by a hex string.
    pub fn from_hex(s: &str) -> (r: Self)
        requires
            is_hex_string(s.spec_bytes()),
        ensures
            nibbles_of(r@) == hex_digit_values(s.spec_bytes()),
    {
        match hex_to_bytes(s) {
            Some(bytes) => TreeId { bytes },
            None => TreeId { bytes: Vec::new() },
        }
    }
}

impl View for ChangeId {
    type V = Seq<u8>;

    closed spec fn view(&self) -> Seq<u8> {
        self.bytes@
    }
}

impl ObjectId for ChangeId {
    fn as_bytes(&self) -> (r: &Vec<u8>)
        ensures
            r@ == self@,
    {
        &self.bytes
    }

    fn from_bytes(bytes: Vec<u8>) -> (r: Self)
        ensures
            r@ == bytes@,
    {
        ChangeId { bytes }
    }
}

impl Clone for ChangeId {
    fn clone(&self) -> (r: Self)
        ensures
            r@ == self@,
    {
        ChangeId { bytes: bytes_copy(&self.bytes) }
    }
}

impl ChangeId {
    /// Builds the identifier denoted by a hex string.
    pub fn from_hex(s: &str) -> (r: Self)
        requires
            is_hex_string(s.spec_bytes()),
        ensures
            nibbles_of(r@) == hex_digit_values(s.spec_bytes()),
    {
        match hex_to_bytes(s) {
            Some(bytes) => ChangeId { bytes },
            None => ChangeId { bytes: Vec::new() },
        }
    }
}

impl View for CommitId {
    type V = Seq<u8>;

    closed spec fn view(&self) -> Seq<u8> {
        self.bytes@
    }
}

impl ObjectId for CommitId {
    fn as_bytes(&self) -> (r: &Vec<u8>)
        ensures
            r@ == self@,
    {
        &self.bytes
    }

    fn from_bytes(bytes: Vec<u8>) -> (r: Self)
        ensures
            r@ == bytes@,
    {
        CommitId { bytes }
    }
}

impl Clone for CommitId {
    fn clone(&self) -> (r: Self)
        ensures
            r@ == self@,
    {
        CommitId { bytes: bytes_copy(&self.bytes) }
    }
}

impl CommitId {
    /// Builds the identifier denoted by a hex string.
    pub fn from_hex(s: &str) -> (r: Self)
        requires
            is_hex_string(s.spec_bytes()),
        ensures
            nibbles_of(r@) == hex_digit_values(s.spec_bytes()),
    {
        match hex_to_bytes(s) {
            Some(bytes) => CommitId { bytes },
            None => CommitId { bytes: Vec::new() },
        }
    }
}

impl View for ConflictId {
    type V = Seq<u8>;

    closed spec fn view(&self) -> Seq<u8> {
        self.bytes@
    }
}

impl ObjectId for ConflictId {
    fn as_bytes(&self) -> (r: &Vec<u8>)
        ensures
            r@ == self@,
    {
        &self.bytes
    }

    fn from_bytes(bytes: Vec<u8>) -> (r: Self)
        ensures
            r@ == bytes@,
    {
        ConflictId { bytes }
    }
}

impl Clone for ConflictId {
    fn clone(&self) -> (r: Self)
        ensures
            r@ == self@,
    {
        ConflictId { bytes: bytes_copy(&self.bytes) }
    }
}

impl ConflictId {
    /// Builds the identifier denoted by a hex string.
    pub fn from_hex(s: &str) -> (r: Self)
        requires
            is_hex_string(s.spec_bytes()),
        ensures
            nibbles_of(r@) == hex_digit_values(s.spec_bytes()),
    {
        match hex_to_bytes(s) {
            Some(bytes) => ConflictId { bytes },
            None => ConflictId { bytes: Vec::new() },
        }
    }
}

} // verus!

use crate::hex::{lemma_lex_trichotomy, lemma_lex_transitive};

verus! {

/// A value stored at one basename of a tree.
#[derive(Debug, PartialEq, Eq)]
pub enum TreeValue {
    /// A regular file with its content id and executable bit.
    File { id: FileId, executable: bool },
    /// A symbolic link; the id addresses the target bytes.
    Symlink(FileId),
    /// A subtree.
    Tree(TreeId),
    /// A sub-repository pointer.
    GitSubmodule(CommitId),
    /// A persisted conflict object.
    Conflict(ConflictId),
}

/// The mathematical value of a `TreeValue`: ids as byte strings.
pub enum TreeValueView {
    File { id: Seq<u8>, executable: bool },
    Symlink(Seq<u8>),
    Tree(Seq<u8>),
    GitSubmodule(Seq<u8>),
    Conflict(Seq<u8>),
}

impl View for TreeValue {
    type V = TreeValueView;

    open spec fn view(&self) -> TreeValueView {
        match self {
            TreeValue::File { id, executable } => TreeValueView::File {
                id: id@,
                executable: *executable,
            },
            TreeValue::Symlink(id) => TreeValueView::Symlink(id@),
            TreeValue::Tree(id) => TreeValueView::Tree(id@),
            TreeValue::GitSubmodule(id) => TreeValueView::GitSubmodule(id@),
            TreeValue::Conflict(id) => TreeValueView::Conflict(id@),
        }
    }
}

impl Clone for TreeValue {
    fn clone(&self) -> (r: Self)
        ensures
            r@ == self@,
    {
        match self {
            TreeValue::File { id, executable } => TreeValue::File {
                id: id.clone(),
                executable: *executable,
            },
            TreeValue::Symlink(id) => TreeValue::Symlink(id.clone()),
            TreeValue::Tree(id) => TreeValue::Tree(id.clone()),
            TreeValue::GitSubmodule(id) => TreeValue::GitSubmodule(id.clone()),
            TreeValue::Conflict(id) => TreeValue::Conflict(id.clone()),
        }
    }
}

/// Exec equality of tree values, by their mathematical views.
pub fn tree_value_eq(a: &TreeValue, b: &TreeValue) -> (r: bool)
    ensures
        r == (a@ == b@),
{
    match (a, b) {
        (
            TreeValue::File { id: ia, executable: ea },
            TreeValue::File { id: ib, executable: eb },
        ) => bytes_eq(ia.as_bytes(), ib.as_bytes()) && (*ea == *eb),
        (TreeValue::Symlink(ia), TreeValue::Symlink(ib)) => bytes_eq(
            ia.as_bytes(),
            ib.as_bytes(),
        ),
        (TreeValue::Tree(ia), TreeValue::Tree(ib)) => bytes_eq(ia.as_bytes(), ib.as_bytes()),
        (TreeValue::GitSubmodule(ia), TreeValue::GitSubmodule(ib)) => bytes_eq(
            ia.as_bytes(),
            ib.as_bytes(),
        ),
        (TreeValue::Conflict(ia), TreeValue::Conflict(ib)) => bytes_eq(
            ia.as_bytes(),
            ib.as_bytes(),
        ),
        _ => false,
    }
}

/// Exec equality of optional tree values.
pub fn opt_tree_value_eq(a: Option<&TreeValue>, b: Option<&TreeValue>) -> (r: bool)
    ensures
        r == (opt_value_view(a) == opt_value_view(b)),
{
    match (a, b) {
        (None, None) => true,
        (Some(av), Some(bv)) => tree_value_eq(av, bv),
        _ => false,
    }
}

/// The view of an optional tree value.
pub open spec fn opt_value_view(v: Option<&TreeValue>) -> Option<TreeValueView> {
    match v {
        None => None,
        Some(value) => Some(value@),
    }
}

/// One signed term of a conflict.
#[derive(Debug, PartialEq, Eq)]
pub struct ConflictTerm {
    pub value: TreeValue,
}

impl View for ConflictTerm {
    type V = TreeValueView;

    open spec fn view(&self) -> TreeValueView {
        self.value@
    }
}

impl Clone for ConflictTerm {
    fn clone(&self) -> (r: Self)
        ensures
            r@ == self@,
    {
        ConflictTerm { value: self.value.clone() }
    }
}

/// The mathematical value of a conflict: two sequences of signed terms.
/// The state represented is `sum(adds) - sum(removes)`.
pub struct ConflictView {
    pub removes: Seq<TreeValueView>,
    pub adds: Seq<TreeValueView>,
}

/// An unresolved state: negative terms and positive terms.
#[derive(Debug, PartialEq, Eq)]
pub struct Conflict {
    pub removes: Vec<ConflictTerm>,
    pub adds: Vec<ConflictTerm>,
}

impl View for Conflict {
    type V = ConflictView;

    open spec fn view(&self) -> ConflictView {
        ConflictView {
            removes: Seq::new(self.removes@.len(), |i: int| self.removes@[i]@),
            adds: Seq::new(self.adds@.len(), |i: int| self.adds@[i]@),
        }
    }
}

impl Clone for Conflict {
    fn clone(&self) -> (r: Self)
        ensures
            r@.removes == self@.removes,
            r@.adds == self@.adds,
    {
        let r = Conflict {
            removes: clone_terms(&self.removes),
            adds: clone_terms(&self.adds),
        };
        proof {
            assert(r@.removes =~= self@.removes);
            assert(r@.adds =~= self@.adds);
        }
        r
    }
}

impl Default for Conflict {
    /// A conflict with no terms: the absent state.
    fn default() -> (r: Self)
        ensures
            r@.removes.len() == 0,
            r@.adds.len() == 0,
    {
        Conflict { removes: Vec::new(), adds: Vec::new() }
    }
}

fn clone_terms(v: &Vec<ConflictTerm>) -> (r: Vec<ConflictTerm>)
    ensures
        r@.len() == v@.len(),
        forall|i: int| 0 <= i < v@.len() ==> r@[i]@ == v@[i]@,
{
    let mut r: Vec<ConflictTerm> = Vec::new();
    let mut i: usize = 0;
    while i < v.len()
        invariant
            i <= v@.len(),
            r@.len() == i,
            forall|j: int| 0 <= j < i ==> r@[j]@ == v@[j]@,
        decreases v@.len() - i,
    {
        r.push(v[i].clone());
        i = i + 1;
    }
    r
}

/// One named entry of a tree.
#[derive(Debug)]
pub struct TreeEntry {
    pub name: RepoPathComponent,
    pub value: TreeValue,
}

/// The mathematical value of an entry.
pub struct TreeEntryView {
    pub name: Seq<u8>,
    pub value: TreeValueView,
}

impl View for TreeEntry {
    type V = TreeEntryView;

    open spec fn view(&self) -> TreeEntryView {
        TreeEntryView { name: self.name@, value: self.value@ }
    }
}

impl Clone for TreeEntry {
    fn clone(&self) -> (r: Self)
        ensures
            r@ == self@,
    {
        TreeEntry { name: self.name.clone(), value: self.value.clone() }
    }
}

/// Entries are sorted strictly by basename: names are unique.
pub open spec fn entries_sorted(s: Seq<TreeEntryView>) -> bool {
    forall|i: int, j: int|
        0 <= i < j < s.len() ==> lex_lt(#[trigger] s[i].name, #[trigger] s[j].name)
}

/// The value stored at `name`, by first occurrence.
pub open spec fn lookup(s: Seq<TreeEntryView>, name: Seq<u8>) -> Option<TreeValueView>
    decreases s.len(),
{
    if s.len() == 0 {
        None
    } else if s[0].name == name {
        Some(s[0].value)
    } else {
        lookup(s.skip(1), name)
    }
}

pub proof fn lemma_lookup_present(s: Seq<TreeEntryView>, i: int)
    requires
        entries_sorted(s),
        0 <= i < s.len(),
    ensures
        lookup(s, s[i].name) == Some(s[i].value),
    decreases s.len(),
{
    if i == 0 {
    } else {
        lemma_lex_trichotomy(s[0].name, s[i].name);
        assert(lex_lt(s[0].name, s[i].name));
        assert(entries_sorted(s.skip(1))) by {
            assert forall|a: int, b: int| 0 <= a < b < s.skip(1).len() implies lex_lt(
                #[trigger] s.skip(1)[a].name,
                #[trigger] s.skip(1)[b].name,
            ) by {
                assert(s.skip(1)[a] == s[a + 1]);
                assert(s.skip(1)[b] == s[b + 1]);
            }
        }
        assert(s.skip(1)[i - 1] == s[i]);
        lemma_lookup_present(s.skip(1), i - 1);
    }
}

pub proof fn lemma_lookup_absent(s: Seq<TreeEntryView>, name: Seq<u8>)
    requires
        forall|i: int| 0 <= i < s.len() ==> (#[trigger] s[i].name) != name,
    ensures
        lookup(s, name) is None,
    decreases s.len(),
{
    if s.len() > 0 {
        assert(forall|i: int|
            0 <= i < s.skip(1).len() ==> (#[trigger] s.skip(1)[i].name) == s[i + 1].name);
        lemma_lookup_absent(s.skip(1), name);
    }
}

/// A name is in the lookup domain exactly when some entry carries it.
pub proof fn lemma_lookup_index(s: Seq<TreeEntryView>, name: Seq<u8>)
    ensures
        (lookup(s, name) is Some) <==> exists|i: int| 0 <= i < s.len() && (#[trigger] s[i].name)
            == name,
    decreases s.len(),
{
    if s.len() > 0 {
        lemma_lookup_index(s.skip(1), name);
        if s[0].name == name {
        } else if lookup(s, name) is Some {
            let i = choose|i: int| 0 <= i < s.skip(1).len() && (#[trigger] s.skip(1)[i].name)
                == name;
            assert(s[i + 1] == s.skip(1)[i]);
        } else {
            if exists|i: int| 0 <= i < s.len() && (#[trigger] s[i].name) == name {
                let i = choose|i: int| 0 <= i < s.len() && (#[trigger] s[i].name) == name;
                assert(i > 0);
                assert(s.skip(1)[i - 1] == s[i]);
            }
        }
    }
}

/// The entry table of a tree: basenames with values, sorted by name.
#[derive(Debug)]
pub struct TreeData {
    entries: Vec<TreeEntry>,
}

impl View for TreeData {
    type V = Seq<TreeEntryView>;

    closed spec fn view(&self) -> Seq<TreeEntryView> {
        Seq::new(self.entries@.len(), |i: int| self.entries@[i]@)
    }
}

impl Clone for TreeData {
    fn clone(&self) -> (r: Self)
        ensures
            r@ == self@,
    {
        let mut entries: Vec<TreeEntry> = Vec::new();
        let mut i: usize = 0;
        while i < self.entries.len()
            invariant
                i <= self.entries@.len(),
                entries@.len() == i,
                forall|j: int| 0 <= j < i ==> entries@[j]@ == self.entries@[j]@,
            decreases self.entries@.len() - i,
        {
            entries.push(self.entries[i].clone());
            i = i + 1;
        }
        let r = TreeData { entries };
        proof {
            assert(r@ =~= self@);
        }
        r
    }
}

impl TreeData {
    /// The empty table.
    pub fn new() -> (r: Self)
        ensures
            r@ =~= Seq::<TreeEntryView>::empty(),
    {
        TreeData { entries: Vec::new() }
    }

    pub open spec fn wf(&self) -> bool {
        entries_sorted(self@)
    }

    pub fn is_empty(&self) -> (r: bool)
        ensures
            r == (self@.len() == 0),
    {
        self.entries.len() == 0
    }

    pub fn len(&self) -> (r: usize)
        ensures
            r == self@.len(),
    {
        self.entries.len()
    }

    /// The entries in basename order.
    pub fn entries(&self) -> (r: &Vec<TreeEntry>)
        ensures
            r@.len() == self@.len(),
            forall|i: int| 0 <= i < r@.len() ==> r@[i]@ == self@[i],
    {
        &self.entries
    }

    /// The entry named `name`, if any.
    pub fn entry(&self, name: &RepoPathComponent) -> (r: Option<&TreeEntry>)
        requires
            self.wf(),
        ensures
            match r {
                Some(e) => lookup(self@, name@) == Some(e@.value) && e@.name == name@,
                None => lookup(self@, name@) is None,
            },
    {
        let n = self.entries.len();
        let mut i: usize = 0;
        while i < n
            invariant
                n == self@.len(),
                i <= n,
                self.wf(),
                forall|j: int| 0 <= j < i ==> (#[trigger] self@[j].name) != name@,
            decreases n - i,
        {
            if bytes_eq(self.entries[i].name.as_bytes(), name.as_bytes()) {
                proof {
                    lemma_lookup_present(self@, i as int);
                }
                return Some(&self.entries[i]);
            }
            i = i + 1;
        }
        proof {
            lemma_lookup_absent(self@, name@);
        }
        None
    }

    /// The value stored at `name`, if any.
    pub fn value(&self, name: &RepoPathComponent) -> (r: Option<&TreeValue>)
        requires
            self.wf(),
        ensures
            opt_value_view(r) == lookup(self@, name@),
    {
        match self.entry(name) {
            Some(e) => Some(&e.value),
            None => None,
        }
    }

    /// The first position whose name is not below `name`.
    fn lower_bound(&self, name: &RepoPathComponent) -> (pos: usize)
        requires
            self.wf(),
        ensures
            pos <= self@.len(),
            forall|j: int| 0 <= j < pos ==> lex_lt(#[trigger] self@[j].name, name@),
            pos < self@.len() ==> !lex_lt(self@[pos as int].name, name@),
    {
        let n = self.entries.len();
        let mut i: usize = 0;
        loop
            invariant
                n == self@.len(),
                i <= n,
                self.wf(),
                forall|j: int| 0 <= j < i ==> lex_lt(#[trigger] self@[j].name, name@),
            decreases n - i,
        {
            if i == n {
                return i;
            }
            if !bytes_lt(self.entries[i].name.as_bytes(), name.as_bytes()) {
                return i;
            }
            i = i + 1;
        }
    }

    /// Sets the value at `name`, inserting or replacing.
    pub fn set(&mut self, name: RepoPathComponent, value: TreeValue)
        requires
            old(self).wf(),
        ensures
            final(self).wf(),
            lookup(final(self)@, name@) == Some(value@),
            forall|m: Seq<u8>| m != name@ ==> #[trigger] lookup(final(self)@, m) == lookup(old(self)@, m),
            final(self)@.len() <= old(self)@.len() + 1,
    {
        let ghost s = self@;
        let i = self.lower_bound(&name);
        let replace = i < self.entries.len() && bytes_eq(
            self.entries[i].name.as_bytes(),
            name.as_bytes(),
        );
        if replace {
            self.entries.remove(i);
        }
        let ghost mid = self@;
        self.entries.insert(i, TreeEntry { name, value });
        proof {
            let r = self@;
            let pos = i as int;
            if replace {
                assert(mid =~= s.subrange(0, pos) + s.skip(pos + 1));
                assert(r =~= s.subrange(0, pos) + seq![r[pos]] + s.skip(pos + 1));
            } else {
                assert(mid == s);
                assert(r =~= s.subrange(0, pos) + seq![r[pos]] + s.skip(pos));
            }
            lemma_set_shape(s, r, pos, replace, name@, value@);
        }
    }

    /// Removes the entry at `name`, if present.
    pub fn remove(&mut self, name: &RepoPathComponent)
        requires
            old(self).wf(),
        ensures
            final(self).wf(),
            lookup(final(self)@, name@) is None,
            forall|m: Seq<u8>| m != name@ ==> #[trigger] lookup(final(self)@, m) == lookup(old(self)@, m),
            final(self)@.len() <= old(self)@.len(),
    {
        let ghost s = self@;
        let n = self.entries.len();
        let mut i: usize = 0;
        while i < n
            invariant
                n == s.len(),
                self@ == s,
                s == old(self)@,
                i <= n,
                entries_sorted(s),
                forall|j: int| 0 <= j < i ==> (#[trigger] s[j].name) != name@,
            decreases n - i,
        {
            if bytes_eq(self.entries[i].name.as_bytes(), name.as_bytes()) {
                self.entries.remove(i);
                proof {
                    let r = self@;
                    let pos = i as int;
                    assert(r =~= s.subrange(0, pos) + s.skip(pos + 1));
                    lemma_remove_shape(s, r, pos, name@);
                    assert(lookup(r, name@) is None);
                    assert(forall|m: Seq<u8>| m != name@ ==> #[trigger] lookup(r, m) == lookup(s, m));
                    assert(r.len() <= s.len());
                }
                return;
            }
            i = i + 1;
        }
        proof {
            lemma_lookup_absent(s, name@);
        }
    }
}

/// Sortedness and lookup facts for an insertion or replacement at `pos`.
proof fn lemma_set_shape(
    s: Seq<TreeEntryView>,
    r: Seq<TreeEntryView>,
    pos: int,
    replace: bool,
    name: Seq<u8>,
    value: TreeValueView,
)
    requires
        entries_sorted(s),
        0 <= pos <= s.len(),
        forall|j: int| 0 <= j < pos ==> lex_lt(#[trigger] s[j].name, name),
        !replace ==> (pos == s.len() || !lex_lt(s[pos].name, name)) && (pos < s.len() ==> s[pos].name
            != name),
        replace ==> pos < s.len() && s[pos].name == name,
        replace ==> r =~= s.subrange(0, pos) + seq![
            TreeEntryView { name, value },
        ] + s.skip(pos + 1),
        !replace ==> r =~= s.subrange(0, pos) + seq![TreeEntryView { name, value }] + s.skip(pos),
        r[pos] == (TreeEntryView { name, value }),
    ensures
        entries_sorted(r),
        lookup(r, name) == Some(value),
        forall|m: Seq<u8>| m != name ==> #[trigger] lookup(r, m) == lookup(s, m),
{
    let tail_base = if replace {
        pos + 1
    } else {
        pos
    };
    // elements after pos in r come from s at tail_base..
    assert(forall|j: int| 0 <= j < pos ==> r[j] == s[j]);
    assert(forall|j: int|
        pos < j < r.len() ==> #[trigger] r[j] == s[j - pos - 1 + tail_base]);
    assert forall|a: int, b: int| 0 <= a < b < r.len() implies lex_lt(
        #[trigger] r[a].name,
        #[trigger] r[b].name,
    ) by {
        if a < pos && b < pos {
        } else if a < pos && b == pos {
        } else if a < pos && b > pos {
            let sb = b - pos - 1 + tail_base;
            assert(r[b] == s[sb]);
        } else if a == pos && b > pos {
            let sb = b - pos - 1 + tail_base;
            assert(r[b] == s[sb]);
            if replace {
                lemma_lex_trichotomy(name, s[sb].name);
                assert(lex_lt(s[pos].name, s[sb].name));
            } else {
                // name <= s[pos].name < s[sb].name unless pos == sb
                lemma_lex_trichotomy(s[pos].name, name);
                assert(!lex_lt(s[pos].name, name));
                if sb == pos {
                    assert(lex_lt(name, s[sb].name) || name == s[sb].name);
                    assert(s[sb].name != name);
                } else {
                    assert(lex_lt(s[pos].name, s[sb].name));
                    if name == s[pos].name {
                    } else {
                        lemma_lex_transitive(name, s[pos].name, s[sb].name);
                    }
                }
            }
        } else {
            // pos < a < b
            let sa = a - pos - 1 + tail_base;
            let sb = b - pos - 1 + tail_base;
            assert(r[a] == s[sa]);
            assert(r[b] == s[sb]);
        }
    }
    lemma_lookup_present(r, pos);
    assert forall|m: Seq<u8>| m != name implies #[trigger] lookup(r, m) == lookup(s, m) by {
        lemma_lookup_index(s, m);
        lemma_lookup_index(r, m);
        if exists|i: int| 0 <= i < s.len() && (#[trigger] s[i].name) == m {
            let i = choose|i: int| 0 <= i < s.len() && (#[trigger] s[i].name) == m;
            lemma_lookup_present(s, i);
            if i < pos {
                assert(r[i] == s[i]);
                lemma_lookup_present(r, i);
            } else {
                assert(i >= tail_base);
                let j = i - tail_base + pos + 1;
                assert(r[j] == s[i]);
                lemma_lookup_present(r, j);
            }
        } else {
            assert forall|i: int| 0 <= i < r.len() implies (#[trigger] r[i].name) != m by {
                if i < pos {
                    assert(r[i] == s[i]);
                } else if i > pos {
                    assert(r[i] == s[i - pos - 1 + tail_base]);
                }
            }
            lemma_lookup_absent(r, m);
            lemma_lookup_absent(s, m);
        }
    }
}

/// Sortedness and lookup facts for a removal at `pos`.
proof fn lemma_remove_shape(s: Seq<TreeEntryView>, r: Seq<TreeEntryView>, pos: int, name: Seq<u8>)
    requires
        entries_sorted(s),
        0 <= pos < s.len(),
        s[pos].name == name,
        r =~= s.subrange(0, pos) + s.skip(pos + 1),
    ensures
        entries_sorted(r),
        lookup(r, name) is None,
        forall|m: Seq<u8>| m != name ==> #[trigger] lookup(r, m) == lookup(s, m),
{
    assert(forall|j: int| 0 <= j < pos ==> r[j] == s[j]);
    assert(forall|j: int| pos <= j < r.len() ==> #[trigger] r[j] == s[j + 1]);
    assert forall|a: int, b: int| 0 <= a < b < r.len() implies lex_lt(
        #[trigger] r[a].name,
        #[trigger] r[b].name,
    ) by {
        if a < pos && b >= pos {
            assert(r[b] == s[b + 1]);
        } else if a >= pos {
            assert(r[a] == s[a + 1]);
            assert(r[b] == s[b + 1]);
        }
    }
    assert forall|i: int| 0 <= i < r.len() implies (#[trigger] r[i].name) != name by {
        if i < pos {
            lemma_lex_trichotomy(s[i].name, s[pos].name);
        } else {
            lemma_lex_trichotomy(s[pos].name, s[i + 1].name);
        }
    }
    lemma_lookup_absent(r, name);
    assert forall|m: Seq<u8>| m != name implies #[trigger] lookup(r, m) == lookup(s, m) by {
        lemma_lookup_index(s, m);
        lemma_lookup_index(r, m);
        if exists|i: int| 0 <= i < s.len() && (#[trigger] s[i].name) == m {
            let i = choose|i: int| 0 <= i < s.len() && (#[trigger] s[i].name) == m;
            lemma_lookup_present(s, i);
            if i < pos {
                assert(r[i] == s[i]);
                lemma_lookup_present(r, i);
            } else {
                assert(i > pos);
                assert(r[i - 1] == s[i]);
                lemma_lookup_present(r, i - 1);
            }
        } else {
            assert forall|i: int| 0 <= i < r.len() implies (#[trigger] r[i].name) != m by {
                if i < pos {
                    assert(r[i] == s[i]);
                } else {
                    assert(r[i] == s[i + 1]);
                }
            }
            lemma_lookup_absent(r, m);
            lemma_lookup_absent(s, m);
        }
    }
}

} // verus!
