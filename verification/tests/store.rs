//! The link network.

use audio_decomposer::associative::store::{Doublet, LinkIndex, LinkStore, NULL};

#[test]
fn a_new_store_is_empty() {
    let store = LinkStore::new();

    assert!(store.is_empty());
    assert_eq!(store.len(), 0);
    assert_eq!(store.get(NULL), None);
    assert_eq!(store.get(1), None);
    assert_eq!(store.source(7), NULL);
    assert_eq!(store.target(7), NULL);
    assert_eq!(store.describe(NULL), "null");
    assert_eq!(store.describe(3), "missing(3)");
    assert!(!store.is_point(1));
}

#[test]
fn points_are_distinct_and_self_referencing() {
    let mut store = LinkStore::new();
    let first = store.create_point();
    let second = store.create_point();

    assert_ne!(first, second);
    assert!(store.is_point(first));
    assert!(store.is_point(second));
    assert_eq!(store.get(first), Some(Doublet::new(first, first)));
    assert_eq!(store.describe(first), format!("point({first})"));
    assert_eq!(store.len(), 2);
}

#[test]
fn creating_the_same_doublet_twice_returns_the_same_link() {
    let mut store = LinkStore::new();
    let left = store.symbol("left");
    let right = store.symbol("right");

    let first = store.create(left, right);
    let second = store.create(left, right);

    assert_eq!(first, second, "identical doublets must deduplicate");
    assert_eq!(store.len(), 3, "only one doublet on top of two symbols");
    assert_eq!(store.find(left, right), Some(first));
    assert_eq!(store.find(right, left), None);
    assert_eq!(store.source(first), left);
    assert_eq!(store.target(first), right);
}

#[test]
fn symbols_are_interned_by_name() {
    let mut store = LinkStore::new();
    let first = store.symbol("sample");
    let second = store.symbol("sample");
    let other = store.symbol("placement");

    assert_eq!(first, second);
    assert_ne!(first, other);
    assert_eq!(store.name(first), Some("sample"));
    assert_eq!(store.name(999), None);
    assert_eq!(store.find_symbol("sample"), Some(first));
    assert_eq!(store.find_symbol("missing"), None);
    assert_eq!(store.describe(first), "sample");
}

#[test]
fn sequences_fold_left_and_share_their_prefixes() {
    let mut store = LinkStore::new();
    let a = store.symbol("a");
    let b = store.symbol("b");
    let c = store.symbol("c");

    let first = store.sequence(&[a, b, c]);
    let before = store.len();
    let second = store.sequence(&[a, b, c]);
    let shared_prefix = store.sequence(&[a, b]);

    assert_eq!(first, second);
    assert_eq!(store.len(), before, "re-encoding stores nothing new");
    assert_eq!(store.source(first), shared_prefix);
    assert_eq!(store.target(first), c);
    assert_eq!(store.sequence(&[]), NULL);
    assert_eq!(store.sequence(&[a]), a);
}

#[test]
fn links_can_be_searched_by_source_and_target() {
    let mut store = LinkStore::new();
    let subject = store.symbol("subject");
    let first = store.symbol("first");
    let second = store.symbol("second");
    let left = store.create(subject, first);
    let right = store.create(subject, second);

    assert_eq!(store.by_source(subject), vec![left, right]);
    assert_eq!(store.by_target(first), vec![left]);
    assert_eq!(store.by_target(subject), Vec::<LinkIndex>::new());
    assert_eq!(store.indices().len(), store.len());
    assert_eq!(store.iter().len(), store.len());
}

#[test]
fn the_store_renders_as_a_link_table() {
    let mut store = LinkStore::new();
    let a = store.symbol("a");
    let b = store.symbol("b");
    let pair = store.create(a, b);

    assert_eq!(store.to_string(), "1: 1 1\n2: 2 2\n3: 1 2\n");
    assert_eq!(store.describe(pair), "3: (a b)");
}

#[test]
fn a_point_takes_the_place_of_a_link_that_was_waiting_for_it() {
    let mut store = LinkStore::new();
    let early = store.create(2, 2);
    let point = store.create_point();

    assert_eq!(early, 1);
    assert_eq!(point, 2);
    assert_eq!(store.find(2, 2), Some(point));
    assert_eq!(store.create(2, 2), point);
    assert!(!store.is_point(early));
}

#[test]
fn every_address_comes_with_its_doublet() {
    let mut store = LinkStore::default();
    let a = store.symbol("a");
    let pair = store.create(a, 7);

    assert_eq!(store.indices(), vec![1, 2]);
    assert_eq!(
        store.iter(),
        vec![(a, Doublet::new(1, 1)), (pair, Doublet::new(1, 7))]
    );
    assert_eq!(store.describe(pair), "2: (a missing(7))");
    assert!(Doublet::new(4, 4).is_point(4));
    assert!(!Doublet::new(4, 5).is_point(4));
}

#[test]
fn sequences_of_one_length_are_told_apart() {
    let mut store = LinkStore::new();
    let points: Vec<usize> = (0..3).map(|_| store.create_point()).collect();
    let mut seen = Vec::new();
    for first in &points {
        for second in &points {
            for third in &points {
                let index = store.sequence(&[*first, *second, *third]);
                assert!(!seen.contains(&index));
                seen.push(index);
                let length = store.len();
                assert_eq!(store.sequence(&[*first, *second, *third]), index);
                assert_eq!(store.len(), length);
            }
        }
    }
}
