//! Tests of the prefix context: a disambiguation scope wins where it
//! resolves, and the global index decides otherwise.

use tree_engine::backend::{ChangeId, CommitId};
use tree_engine::hex_prefix::{HexPrefix, PrefixResolution};
use tree_engine::id_prefix::{IdPrefixContext, SimpleRepo};

#[test]
fn test_scoped_commit_resolution() {
    let repo = SimpleRepo::new(vec![
        (CommitId::from_hex("aaaa"), ChangeId::from_hex("11")),
        (CommitId::from_hex("abbb"), ChangeId::from_hex("22")),
    ]);
    let ctx = IdPrefixContext::default();
    // without a scope, "a" is ambiguous globally
    assert_eq!(
        ctx.resolve_commit_prefix(&repo, &HexPrefix::new("a").unwrap()),
        PrefixResolution::AmbiguousMatch
    );
    // and the unscoped shortest unique prefix needs two digits
    assert_eq!(
        ctx.shortest_commit_prefix_len(&repo, &CommitId::from_hex("aaaa")),
        2
    );
    let scoped =
        ctx.disambiguate_within(vec![(CommitId::from_hex("aaaa"), ChangeId::from_hex("11"))]);
    // in the scope, "a" resolves to the only commit there
    assert_eq!(
        scoped.resolve_commit_prefix(&repo, &HexPrefix::new("a").unwrap()),
        PrefixResolution::SingleMatch(CommitId::from_hex("aaaa"))
    );
    // a prefix invisible in the scope still resolves globally
    assert_eq!(
        scoped.resolve_commit_prefix(&repo, &HexPrefix::new("ab").unwrap()),
        PrefixResolution::SingleMatch(CommitId::from_hex("abbb"))
    );
    // display inside the scope is terse
    assert_eq!(
        scoped.shortest_commit_prefix_len(&repo, &CommitId::from_hex("aaaa")),
        1
    );
}

#[test]
fn test_scoped_change_resolution() {
    let repo = SimpleRepo::new(vec![
        (CommitId::from_hex("aaaa"), ChangeId::from_hex("11")),
        (CommitId::from_hex("abbb"), ChangeId::from_hex("1f")),
    ]);
    let ctx = IdPrefixContext::default();
    assert_eq!(
        ctx.resolve_change_prefix(&repo, &HexPrefix::new("1").unwrap()),
        PrefixResolution::AmbiguousMatch
    );
    let scoped =
        ctx.disambiguate_within(vec![(CommitId::from_hex("aaaa"), ChangeId::from_hex("11"))]);
    assert_eq!(
        scoped.resolve_change_prefix(&repo, &HexPrefix::new("1").unwrap()),
        PrefixResolution::SingleMatch(vec![CommitId::from_hex("aaaa")])
    );
    assert_eq!(
        scoped.shortest_change_prefix_len(&repo, &ChangeId::from_hex("11")),
        1
    );
    assert_eq!(
        scoped.shortest_change_prefix_len(&repo, &ChangeId::from_hex("1f")),
        2
    );
}
