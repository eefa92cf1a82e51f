//! Links Notation as text and as a network.

use audio_decomposer::associative::lino::{
    self, link, node_text, parse, property, read_document, reference, store_document, Markers, Node,
};
use audio_decomposer::associative::store::LinkStore;

const SAMPLE_DOCUMENT: &str = "\
(decomposition: version 1)
(source: (sample-rate 44100) (channels 2) (format i16))
(sample: s1 (frames 1024) (peak 0.5))
(sample: s2 (frames 1024) (peak 0.5))
(placement: s1 0 0 1)
(placement: s2 44100 0 1)
";

#[test]
fn documents_round_trip_through_text() {
    let document = parse(SAMPLE_DOCUMENT).unwrap();

    assert_eq!(document.len(), 6);
    assert_eq!(lino::format(&document), SAMPLE_DOCUMENT);
    assert_eq!(parse("").unwrap(), Vec::new());
    assert_eq!(lino::format(&Vec::new()), "");
    assert!(parse("(unclosed").is_err());
}

#[test]
fn documents_round_trip_through_the_network() {
    let document = parse(SAMPLE_DOCUMENT).unwrap();
    let mut store = LinkStore::new();
    let root = store_document(&mut store, &document);
    let restored = read_document(&store, root).unwrap();

    assert_eq!(restored, document);
    assert_eq!(lino::format(&restored), SAMPLE_DOCUMENT);
}

#[test]
fn identical_subtrees_are_stored_once() {
    let mut store = LinkStore::new();
    let single = parse("(sample: s1 (frames 1024) (peak 0.5))").unwrap();
    store_document(&mut store, &single);
    let after_first = store.len();

    let mut repeated = LinkStore::new();
    let twice =
        parse("(sample: s1 (frames 1024) (peak 0.5))\n(sample: s1 (frames 1024) (peak 0.5))")
            .unwrap();
    store_document(&mut repeated, &twice);

    // The second copy adds only the list cell that holds it.
    assert!(
        repeated.len() <= after_first + 2,
        "duplicate stored {} links against {after_first}",
        repeated.len()
    );
}

#[test]
fn builders_produce_the_expected_notation() {
    let document = vec![
        link("sample", vec![reference("s1"), property("frames", "1024")]),
        link("note", vec![reference("60"), reference("0.5")]),
    ];

    assert_eq!(
        lino::format(&document),
        "(sample: s1 (frames 1024))\n(note: 60 0.5)\n"
    );
    assert_eq!(parse(&lino::format(&document)).unwrap(), document);
}

#[test]
fn anonymous_and_nested_links_survive_the_network() {
    let document = parse("((a b) (c: (d: e)))").unwrap();
    let mut store = LinkStore::new();
    let root = store_document(&mut store, &document);

    assert_eq!(read_document(&store, root).unwrap(), document);
}

#[test]
fn malformed_roots_are_reported() {
    let mut store = LinkStore::new();
    let document = parse("(a: b)").unwrap();
    let root = store_document(&mut store, &document);

    assert!(read_document(&store, root + 1000).is_err());
    let stray = store.symbol("stray");
    assert!(read_document(&store, stray).is_err());
    assert!(read_document(&LinkStore::new(), root).is_err());
}

#[test]
fn a_complaint_of_the_parser_becomes_a_parse_error() {
    let error = parse("(unclosed").unwrap_err();

    assert!(error.to_string().starts_with("parse error: "), "{}", error.to_string());
}

#[test]
fn names_that_need_quotes_are_quoted_and_read_back() {
    let document = vec![link("name", vec![reference("two words")])];
    let text = lino::format(&document);

    assert!(text.contains("'two words'"), "{text}");
    assert_eq!(parse(&text).unwrap(), document);
}

#[test]
fn a_single_node_is_written_without_a_line_of_its_own() {
    assert_eq!(node_text(&property("frames", "1024")), "(frames 1024)");
    assert_eq!(node_text(&link("a", vec![reference("b")])), "(a: b)");
}

#[test]
fn markers_are_interned_once() {
    let mut store = LinkStore::new();
    let first = Markers::intern(&mut store);
    let size = store.len();
    let second = Markers::intern(&mut store);

    assert_eq!(size, 5);
    assert_eq!(store.len(), size);
    assert_eq!(first.nil, second.nil);
    assert_eq!(store.name(first.nil), Some("lino:nil"));
}

#[test]
fn storing_a_document_again_stores_nothing() {
    let document = parse(SAMPLE_DOCUMENT).unwrap();
    let mut store = LinkStore::new();
    let first = store_document(&mut store, &document);
    let size = store.len();

    assert_eq!(store_document(&mut store, &document), first);
    assert_eq!(store.len(), size);
}

#[test]
fn a_list_that_leads_back_to_itself_is_refused() {
    let mut store = LinkStore::new();
    let markers = Markers::intern(&mut store);
    let size = store.len();
    // A cell whose rest is the cell itself.
    let pair = size + 2;
    let cell = store.create(markers.cons, pair);
    let looped = store.create(markers.nil, cell);
    assert_eq!(looped, pair);
    let root = store.create(markers.document, cell);

    assert!(read_document(&store, root).is_err());
}

#[test]
fn an_empty_document_is_an_empty_list() {
    let mut store = LinkStore::new();
    let root = store_document(&mut store, &Vec::<Node>::new());

    assert_eq!(read_document(&store, root).unwrap(), Vec::new());
}
