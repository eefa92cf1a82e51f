//! The network held in the unit store.

use audio_decomposer::associative::native::{keeps, refusal, replay, NativeStore};
use audio_decomposer::associative::store::{Doublet, LinkStore, NULL};
use std::collections::HashMap;

fn sample_store() -> LinkStore {
    let mut store = LinkStore::new();
    let note = store.symbol("note");
    let pitch = store.symbol("pitch");
    let value = store.create_point();
    let target = store.find_symbol("pitch").unwrap();
    let first = store.create(note, target);
    let second = store.create(first, value);
    assert_eq!(store.create(note, pitch), first);
    assert_eq!(store.len(), 5);
    assert_eq!(second, 5);
    store
}

#[test]
fn an_in_memory_network_creates_and_deduplicates_links() {
    let mut store = NativeStore::in_memory().unwrap();

    assert!(store.is_empty());

    let left = store.create_point().unwrap();
    let right = store.create_point().unwrap();
    let pair = store.create(left, right).unwrap();

    assert_eq!(store.create(left, right).unwrap(), pair);
    assert_eq!(store.len(), 3);
    assert_eq!(store.get(pair), Some(Doublet::new(left, right)));
    assert_eq!(store.find(left, right), Some(pair));
    assert_eq!(store.find(right, left), None);
    assert_eq!(store.get(NULL), None);
}

#[test]
fn symbols_are_interned_once() {
    let mut store = NativeStore::in_memory().unwrap();

    let first = store.symbol("note").unwrap();

    assert_eq!(store.symbol("note").unwrap(), first);
    assert_eq!(store.name(first), Some("note"));
    assert_eq!(store.name(first + 1), None);
}

#[test]
fn mirroring_preserves_every_address_and_name() {
    let source = sample_store();
    let mut native = NativeStore::in_memory().unwrap();

    native.mirror(&source).unwrap();

    assert_eq!(native.len(), source.len());
    for (index, doublet) in source.iter() {
        assert_eq!(native.get(index), Some(doublet), "link {index}");
        assert_eq!(native.name(index), source.name(index), "name of {index}");
    }

    let restored = native.snapshot().unwrap();

    assert_eq!(restored.to_string(), source.to_string());
    assert_eq!(restored.find_symbol("pitch"), source.find_symbol("pitch"));
}

#[test]
fn mirroring_twice_is_refused() {
    let source = sample_store();
    let mut native = NativeStore::in_memory().unwrap();

    native.mirror(&source).unwrap();

    assert!(native.mirror(&source).is_err());
    assert_eq!(
        native.mirror(&source).unwrap_err().to_string(),
        "storage error: cannot mirror into a store that already holds 5 links"
    );
}

#[test]
fn links_are_listed_in_address_order() {
    let mut native = NativeStore::in_memory().unwrap();
    let first = native.create_point().unwrap();
    let second = native.create(first, first).unwrap();
    let third = native.create(first, 3).unwrap();

    assert_eq!(second, first);
    assert_eq!(
        native.links(),
        vec![(1, Doublet::new(1, 1)), (third, Doublet::new(1, 3))]
    );
}

#[test]
fn a_doublet_from_the_null_link_is_never_found() {
    let mut native = NativeStore::in_memory().unwrap();
    let first = native.create(NULL, 5).unwrap();
    let second = native.create(NULL, 5).unwrap();

    assert_eq!((first, second), (1, 2));
    assert_eq!(native.find(NULL, 5), None);
    assert_eq!(native.get(second), Some(Doublet::new(NULL, 5)));
    assert_eq!(
        native.snapshot().err().unwrap().to_string(),
        "storage error: link 2 was restored as 1, so addresses would shift"
    );
}

#[test]
fn a_large_network_comes_back_link_for_link() {
    let mut source = LinkStore::new();
    for index in 1..200 {
        let point = source.symbol(&format!("point {index}"));
        source.create(point, point / 2);
        source.create(point / 2, point);
    }
    let mut native = NativeStore::in_memory().unwrap();

    native.mirror(&source).unwrap();

    for (index, doublet) in source.iter() {
        assert_eq!(native.get(index), Some(doublet), "link {index}");
        if doublet.source != NULL {
            assert_eq!(
                native.find(doublet.source, doublet.target),
                source.find(doublet.source, doublet.target)
            );
        }
    }
    assert_eq!(native.snapshot().unwrap().to_string(), source.to_string());
}

#[test]
fn a_point_that_was_pointed_at_before_it_was_made_is_mirrored() {
    let mut source = LinkStore::new();
    source.create(2, 2);
    source.create_point();
    let mut native = NativeStore::in_memory().unwrap();

    native.mirror(&source).unwrap();

    assert_eq!(native.snapshot().unwrap().to_string(), source.to_string());
}

#[test]
fn addresses_that_would_shift_are_refused() {
    assert!(keeps(7, "mirrored", 7).is_ok());
    assert_eq!(
        keeps(7, "mirrored", 3).unwrap_err().to_string(),
        "storage error: link 7 was mirrored as 3, so addresses would shift"
    );
    assert_eq!(
        refusal("cannot create a point: ", "no memory").to_string(),
        "storage error: cannot create a point: no memory"
    );
}

#[test]
fn links_that_were_read_from_anywhere_are_replayed() {
    let mut names = HashMap::new();
    names.insert(2, "pitch".to_string());
    let links = vec![
        (1, Doublet::new(1, 1)),
        (2, Doublet::new(2, 2)),
        (3, Doublet::new(1, 2)),
    ];
    let store = replay(&links, &names).unwrap();
    assert_eq!(store.len(), 3);
    assert_eq!(store.find_symbol("pitch"), Some(2));
    assert_eq!(store.get(3), Some(Doublet::new(1, 2)));

    // A gap, and a doublet that was there before.
    for (links, message) in [
        (vec![(2, Doublet::new(2, 2))], "link 2 was restored as 1"),
        (
            vec![
                (1, Doublet::new(1, 1)),
                (2, Doublet::new(1, 1)),
                (3, Doublet::new(3, 3)),
            ],
            "link 2 was restored as 1",
        ),
    ] {
        assert_eq!(
            replay(&links, &HashMap::new()).err().unwrap().to_string(),
            format!("storage error: {message}, so addresses would shift")
        );
    }
}
