//! Tests of the prefix index: resolution, key lookup, and
//! shortest-unique-prefix queries.

use tree_engine::backend::ChangeId;
use tree_engine::hex_prefix::{HexPrefix, PrefixResolution};
use tree_engine::id_prefix::IdIndex;

fn sorted(resolution: PrefixResolution<Vec<i32>>) -> PrefixResolution<Vec<i32>> {
    match resolution {
        PrefixResolution::SingleMatch(mut xs) => {
            xs.sort();
            PrefixResolution::SingleMatch(xs)
        }
        other => other,
    }
}

#[test]
fn test_id_index_resolve_prefix() {
    let id_index = IdIndex::from_vec(vec![
        (ChangeId::from_hex("0000"), 0),
        (ChangeId::from_hex("0099"), 1),
        (ChangeId::from_hex("0099"), 2),
        (ChangeId::from_hex("0aaa"), 3),
        (ChangeId::from_hex("0aab"), 4),
    ]);
    assert_eq!(
        id_index.resolve_prefix(&HexPrefix::new("0").unwrap()),
        PrefixResolution::AmbiguousMatch,
    );
    assert_eq!(
        id_index.resolve_prefix(&HexPrefix::new("00").unwrap()),
        PrefixResolution::AmbiguousMatch,
    );
    assert_eq!(
        id_index.resolve_prefix(&HexPrefix::new("000").unwrap()),
        PrefixResolution::SingleMatch(vec![0]),
    );
    assert_eq!(
        id_index.resolve_prefix(&HexPrefix::new("0001").unwrap()),
        PrefixResolution::NoMatch,
    );
    assert_eq!(
        sorted(id_index.resolve_prefix(&HexPrefix::new("009").unwrap())),
        PrefixResolution::SingleMatch(vec![1, 2]),
    );
    assert_eq!(
        id_index.resolve_prefix(&HexPrefix::new("0aa").unwrap()),
        PrefixResolution::AmbiguousMatch,
    );
    assert_eq!(
        id_index.resolve_prefix(&HexPrefix::new("0aab").unwrap()),
        PrefixResolution::SingleMatch(vec![4]),
    );
    assert_eq!(
        id_index.resolve_prefix(&HexPrefix::new("f").unwrap()),
        PrefixResolution::NoMatch,
    );
}

#[test]
fn test_has_key() {
    // No crash if empty
    let id_index = IdIndex::from_vec(vec![] as Vec<(ChangeId, ())>);
    assert!(!id_index.has_key(&ChangeId::from_hex("00")));

    let id_index = IdIndex::from_vec(vec![(ChangeId::from_hex("ab"), ())]);
    assert!(!id_index.has_key(&ChangeId::from_hex("aa")));
    assert!(id_index.has_key(&ChangeId::from_hex("ab")));
    assert!(!id_index.has_key(&ChangeId::from_hex("ac")));
}

#[test]
fn test_id_index_shortest_unique_prefix_len() {
    // No crash if empty
    let id_index = IdIndex::from_vec(vec![] as Vec<(ChangeId, ())>);
    assert_eq!(
        id_index.shortest_unique_prefix_len(&ChangeId::from_hex("00")),
        1
    );

    let id_index = IdIndex::from_vec(vec![
        (ChangeId::from_hex("ab"), ()),
        (ChangeId::from_hex("acd0"), ()),
        (ChangeId::from_hex("acd0"), ()), // duplicated key is allowed
    ]);
    assert_eq!(
        id_index.shortest_unique_prefix_len(&ChangeId::from_hex("acd0")),
        2
    );
    assert_eq!(
        id_index.shortest_unique_prefix_len(&ChangeId::from_hex("ac")),
        3
    );

    let id_index = IdIndex::from_vec(vec![
        (ChangeId::from_hex("ab"), ()),
        (ChangeId::from_hex("acd0"), ()),
        (ChangeId::from_hex("acf0"), ()),
        (ChangeId::from_hex("a0"), ()),
        (ChangeId::from_hex("ba"), ()),
    ]);

    assert_eq!(
        id_index.shortest_unique_prefix_len(&ChangeId::from_hex("a0")),
        2
    );
    assert_eq!(
        id_index.shortest_unique_prefix_len(&ChangeId::from_hex("ba")),
        1
    );
    assert_eq!(
        id_index.shortest_unique_prefix_len(&ChangeId::from_hex("ab")),
        2
    );
    assert_eq!(
        id_index.shortest_unique_prefix_len(&ChangeId::from_hex("acd0")),
        3
    );
    // If it were there, the length would be 1.
    assert_eq!(
        id_index.shortest_unique_prefix_len(&ChangeId::from_hex("c0")),
        1
    );
}

#[test]
fn test_hex_prefix_rejects_bad_digits() {
    assert!(HexPrefix::new("0a9f").is_some());
    assert!(HexPrefix::new("").is_some());
    assert!(HexPrefix::new("xy").is_none());
    assert!(HexPrefix::new("0g").is_none());
}

#[test]
fn test_empty_prefix_always_ambiguous() {
    let id_index = IdIndex::from_vec(vec![] as Vec<(ChangeId, i32)>);
    assert_eq!(
        id_index.resolve_prefix(&HexPrefix::new("").unwrap()),
        PrefixResolution::AmbiguousMatch,
    );
    let id_index = IdIndex::from_vec(vec![(ChangeId::from_hex("ab"), 7)]);
    assert_eq!(
        id_index.resolve_prefix(&HexPrefix::new("").unwrap()),
        PrefixResolution::AmbiguousMatch,
    );
}

#[test]
fn test_resolve_prefix_with_maps_values() {
    let id_index = IdIndex::from_vec(vec![
        (ChangeId::from_hex("0099"), 10),
        (ChangeId::from_hex("0099"), 20),
    ]);
    let doubled = id_index.resolve_prefix_with(&HexPrefix::new("00").unwrap(), |v: &i32| v * 2);
    assert_eq!(doubled, PrefixResolution::SingleMatch(vec![20, 40]));
}

#[test]
fn test_resolve_prefix_range_lists_matches() {
    let id_index = IdIndex::from_vec(vec![
        (ChangeId::from_hex("0aaa"), 3),
        (ChangeId::from_hex("0000"), 0),
        (ChangeId::from_hex("0aab"), 4),
    ]);
    let range = id_index.resolve_prefix_range(&HexPrefix::new("0aa").unwrap());
    let values: Vec<i32> = range.iter().map(|(_, v)| **v).collect();
    assert_eq!(values, vec![3, 4]);
}
