//! Why identical parts of a document end up as the same link.

use vstd::prelude::*;

use crate::associative::lino::{
    grows, interned, lemma_grows, lemma_with_link, lemma_with_list, lemma_with_reference,
    lemma_with_symbol, lemma_with_tree, lemma_with_trees, weight, weights, with_document,
    with_list, with_reference, with_tree, with_trees, Markers, Tree,
};
use crate::associative::store::{
    finds_the_same, found, law_creation_deduplicates, lemma_found_is_there,
    lemma_link_finds_the_same, Doublet, LinkIndex, Network,
};

verus! {

/// Whether no link points, from both its ends, at one address that is not there
/// yet: the point that is created at that address would take the link's place.
pub open spec fn steady(network: Network) -> bool {
    &&& network.sound()
    &&& forall|i: int|
        0 <= i < network.links.len() && (#[trigger] network.links[i]).source
            == network.links[i].target ==> network.links[i].source <= network.links.len()
}

/// Whether the markers stand in a network.
pub open spec fn within(network: Network, markers: Markers) -> bool {
    &&& markers.reference <= network.links.len()
    &&& markers.cons <= network.links.len()
    &&& markers.nil <= network.links.len()
    &&& markers.link <= network.links.len()
    &&& markers.document <= network.links.len()
}

/// Whether a network is steady, and whatever an earlier one finds it finds.
pub open spec fn follows(before: Network, after: Network) -> bool {
    &&& steady(after)
    &&& grows(before, after)
    &&& finds_the_same(before, after)
}

/// What follows from what follows, follows.
proof fn lemma_follows(first: Network, second: Network, third: Network)
    requires
        follows(first, second),
        follows(second, third),
    ensures
        follows(first, third),
{
    lemma_grows(first, second, third);
    assert forall|doublet: Doublet| #[trigger] found(first.links, doublet) is Some implies found(
        third.links,
        doublet,
    ) == found(first.links, doublet) by {
        assert(found(second.links, doublet) == found(first.links, doublet));
    }
}

/// What creating a link does to what can be found.
proof fn lemma_link_follows(network: Network, source: LinkIndex, target: LinkIndex)
    requires
        steady(network),
        network.links.len() < usize::MAX,
        source <= network.links.len(),
        target <= network.links.len(),
    ensures
        follows(network, network.with_link(source, target).0),
        network.with_link(source, target).1 <= network.with_link(source, target).0.links.len(),
        found(
            network.with_link(source, target).0.links,
            Doublet { source, target },
        ) == Some(network.with_link(source, target).1),
{
    lemma_with_link(network, source, target);
    lemma_link_finds_the_same(network, source, target);
    law_creation_deduplicates(network, source, target);
    lemma_found_is_there(network.links, Doublet { source, target });
}

/// What interning a symbol does to what can be found.
proof fn lemma_symbol_follows(network: Network, name: Seq<char>)
    requires
        steady(network),
        network.links.len() < usize::MAX,
    ensures
        follows(network, network.with_symbol(name).0),
        network.with_symbol(name).1 <= network.with_symbol(name).0.links.len(),
{
    lemma_with_symbol(network, name);
    let after = network.with_symbol(name).0;
    assert forall|doublet: Doublet| #[trigger] found(network.links, doublet) is Some implies found(
        after.links,
        doublet,
    ) == found(network.links, doublet) by {
        lemma_found_is_there(network.links, doublet);
        if after.links != network.links {
            assert(after.links.drop_last() =~= network.links);
        }
    }
}

/// A stored reference is found again.
proof fn lemma_reference_again(
    network: Network,
    markers: Markers,
    name: Seq<char>,
    later: Network,
)
    requires
        steady(network),
        within(network, markers),
        network.links.len() + 2 <= usize::MAX,
        follows(with_reference(network, markers, name).0, later),
    ensures
        follows(network, with_reference(network, markers, name).0),
        with_reference(network, markers, name).1
            <= with_reference(network, markers, name).0.links.len(),
        with_reference(later, markers, name) == (
            later,
            with_reference(network, markers, name).1,
        ),
{
    let (named, symbol) = network.with_symbol(name);
    let (after, index) = named.with_link(markers.reference, symbol);
    lemma_symbol_follows(network, name);
    lemma_with_symbol(network, name);
    lemma_link_follows(named, markers.reference, symbol);
    lemma_follows(network, named, after);
    lemma_follows(named, after, later);
    assert(named.symbols.dom().contains(name) && later.symbols.dom().contains(name));
}

/// A stored list is found again.
proof fn lemma_list_again(
    network: Network,
    markers: Markers,
    items: Seq<LinkIndex>,
    later: Network,
)
    requires
        steady(network),
        within(network, markers),
        network.links.len() + 2 * items.len() <= usize::MAX,
        forall|i: int| 0 <= i < items.len() ==> #[trigger] items[i] <= network.links.len(),
        follows(with_list(network, markers, items).0, later),
    ensures
        follows(network, with_list(network, markers, items).0),
        with_list(network, markers, items).1 <= with_list(network, markers, items).0.links.len(),
        with_list(later, markers, items) == (later, with_list(network, markers, items).1),
    decreases items.len(),
{
    if items.len() > 0 {
        let (tail, rest) = with_list(network, markers, items.skip(1));
        let (paired, cell) = tail.with_link(items[0], rest);
        let (after, list) = paired.with_link(markers.cons, cell);
        lemma_list_follows(network, markers, items.skip(1));
        lemma_with_list(network, markers, items.skip(1));
        lemma_with_link(tail, items[0], rest);
        lemma_link_follows(tail, items[0], rest);
        lemma_link_follows(paired, markers.cons, cell);
        lemma_follows(paired, after, later);
        lemma_follows(tail, paired, later);
        lemma_follows(network, tail, paired);
        lemma_follows(network, paired, after);
        lemma_list_again(network, markers, items.skip(1), later);
        assert(found(later.links, Doublet { source: items[0], target: rest }) == Some(cell));
        assert(found(later.links, Doublet { source: markers.cons, target: cell }) == Some(list));
    } else {
        lemma_follows_itself(network);
    }
}

/// What storing a list does to what can be found.
proof fn lemma_list_follows(network: Network, markers: Markers, items: Seq<LinkIndex>)
    requires
        steady(network),
        within(network, markers),
        network.links.len() + 2 * items.len() <= usize::MAX,
        forall|i: int| 0 <= i < items.len() ==> #[trigger] items[i] <= network.links.len(),
    ensures
        follows(network, with_list(network, markers, items).0),
        with_list(network, markers, items).1 <= with_list(network, markers, items).0.links.len(),
    decreases items.len(),
{
    lemma_follows_itself(network);
    if items.len() > 0 {
        let (tail, rest) = with_list(network, markers, items.skip(1));
        let (paired, cell) = tail.with_link(items[0], rest);
        let (after, list) = paired.with_link(markers.cons, cell);
        lemma_list_follows(network, markers, items.skip(1));
        lemma_with_list(network, markers, items.skip(1));
        lemma_with_link(tail, items[0], rest);
        lemma_link_follows(tail, items[0], rest);
        lemma_link_follows(paired, markers.cons, cell);
        lemma_follows(network, tail, paired);
        lemma_follows(network, paired, after);
    }
}

/// A steady network follows itself.
proof fn lemma_follows_itself(network: Network)
    requires
        steady(network),
    ensures
        follows(network, network),
{
    assert(network.links =~= network.links.subrange(0, network.links.len() as int));
}

/// What storing a reference does to what can be found.
proof fn lemma_reference_follows(network: Network, markers: Markers, name: Seq<char>)
    requires
        steady(network),
        within(network, markers),
        network.links.len() + 2 <= usize::MAX,
    ensures
        follows(network, with_reference(network, markers, name).0),
        with_reference(network, markers, name).1
            <= with_reference(network, markers, name).0.links.len(),
{
    let (named, symbol) = network.with_symbol(name);
    lemma_symbol_follows(network, name);
    lemma_with_symbol(network, name);
    lemma_link_follows(named, markers.reference, symbol);
    lemma_follows(network, named, with_reference(network, markers, name).0);
}

/// What storing a tree does to what can be found.
proof fn lemma_tree_follows(network: Network, markers: Markers, tree: Tree)
    requires
        steady(network),
        within(network, markers),
        network.links.len() + weight(tree) <= usize::MAX,
    ensures
        follows(network, with_tree(network, markers, tree).0),
        with_tree(network, markers, tree).1 <= with_tree(network, markers, tree).0.links.len(),
    decreases tree,
{
    match tree {
        Tree::Ref(name) => {
            lemma_reference_follows(network, markers, name);
        },
        Tree::Link(id, values) => {
            let (named, identifier) = match id {
                Some(name) => with_reference(network, markers, name),
                None => (network, markers.nil),
            };
            let (filled, items) = with_trees(named, markers, values);
            let (listed, list) = with_list(filled, markers, items);
            let (bodied, body) = listed.with_link(identifier, list);
            let (after, index) = bodied.with_link(markers.link, body);
            lemma_follows_itself(network);
            if let Some(name) = id {
                lemma_reference_follows(network, markers, name);
                lemma_with_reference(network, markers, name);
            }
            lemma_with_trees(named, markers, values);
            lemma_trees_follow(named, markers, values);
            lemma_with_list(filled, markers, items);
            lemma_list_follows(filled, markers, items);
            lemma_with_link(listed, identifier, list);
            lemma_link_follows(listed, identifier, list);
            lemma_link_follows(bodied, markers.link, body);
            lemma_follows(network, named, filled);
            lemma_follows(network, filled, listed);
            lemma_follows(network, listed, bodied);
            lemma_follows(network, bodied, after);
        },
    }
}

/// What storing several trees does to what can be found.
proof fn lemma_trees_follow(network: Network, markers: Markers, values: Seq<Tree>)
    requires
        steady(network),
        within(network, markers),
        network.links.len() + weights(values) <= usize::MAX,
    ensures
        follows(network, with_trees(network, markers, values).0),
        forall|i: int|
            0 <= i < with_trees(network, markers, values).1.len() ==> #[trigger] with_trees(
                network,
                markers,
                values,
            ).1[i] <= with_trees(network, markers, values).0.links.len(),
    decreases values,
{
    if values.len() == 0 {
        lemma_follows_itself(network);
    } else {
        let (before, items) = with_trees(network, markers, values.drop_last());
        let (after, item) = with_tree(before, markers, values.last());
        lemma_with_trees(network, markers, values.drop_last());
        lemma_trees_follow(network, markers, values.drop_last());
        lemma_with_tree(before, markers, values.last());
        lemma_tree_follows(before, markers, values.last());
        lemma_follows(network, before, after);
    }
}

/// A stored tree is found again.
proof fn lemma_tree_again(network: Network, markers: Markers, tree: Tree, later: Network)
    requires
        steady(network),
        within(network, markers),
        network.links.len() + weight(tree) <= usize::MAX,
        follows(with_tree(network, markers, tree).0, later),
    ensures
        with_tree(later, markers, tree) == (later, with_tree(network, markers, tree).1),
    decreases tree,
{
    match tree {
        Tree::Ref(name) => {
            lemma_reference_again(network, markers, name, later);
        },
        Tree::Link(id, values) => {
            let (named, identifier) = match id {
                Some(name) => with_reference(network, markers, name),
                None => (network, markers.nil),
            };
            let (filled, items) = with_trees(named, markers, values);
            let (listed, list) = with_list(filled, markers, items);
            let (bodied, body) = listed.with_link(identifier, list);
            let (after, index) = bodied.with_link(markers.link, body);
            lemma_follows_itself(network);
            if let Some(name) = id {
                lemma_reference_follows(network, markers, name);
                lemma_with_reference(network, markers, name);
            }
            lemma_with_trees(named, markers, values);
            lemma_trees_follow(named, markers, values);
            lemma_with_list(filled, markers, items);
            lemma_list_follows(filled, markers, items);
            lemma_with_link(listed, identifier, list);
            lemma_link_follows(listed, identifier, list);
            lemma_link_follows(bodied, markers.link, body);
            lemma_follows(bodied, after, later);
            lemma_follows(listed, bodied, later);
            lemma_follows(filled, listed, later);
            lemma_follows(named, filled, later);
            if let Some(name) = id {
                lemma_reference_again(network, markers, name, later);
            }
            lemma_trees_again(named, markers, values, later);
            lemma_list_again(filled, markers, items, later);
            assert(found(later.links, Doublet { source: identifier, target: list }) == Some(body));
            assert(found(later.links, Doublet { source: markers.link, target: body }) == Some(
                index,
            ));
        },
    }
}

/// Stored trees are found again.
proof fn lemma_trees_again(network: Network, markers: Markers, values: Seq<Tree>, later: Network)
    requires
        steady(network),
        within(network, markers),
        network.links.len() + weights(values) <= usize::MAX,
        follows(with_trees(network, markers, values).0, later),
    ensures
        with_trees(later, markers, values) == (later, with_trees(network, markers, values).1),
    decreases values,
{
    if values.len() > 0 {
        let (before, items) = with_trees(network, markers, values.drop_last());
        let (after, item) = with_tree(before, markers, values.last());
        lemma_with_trees(network, markers, values.drop_last());
        lemma_trees_follow(network, markers, values.drop_last());
        lemma_with_tree(before, markers, values.last());
        lemma_tree_follows(before, markers, values.last());
        lemma_follows(before, after, later);
        lemma_trees_again(network, markers, values.drop_last(), later);
        lemma_tree_again(before, markers, values.last(), later);
    }
}

/// Two identical subtrees anywhere in a document end up as the same link:
/// storing a tree again, whatever was stored in between, returns the address it
/// has already and stores nothing.
pub proof fn law_identical_subtrees_are_stored_once(
    network: Network,
    markers: Markers,
    tree: Tree,
    between: Seq<Tree>,
)
    requires
        steady(network),
        within(network, markers),
        network.links.len() + weight(tree) + weights(between) <= usize::MAX,
    ensures
        ({
            let (first, index) = with_tree(network, markers, tree);
            let (middle, _) = with_trees(first, markers, between);
            with_tree(middle, markers, tree) == (middle, index)
        }),
{
    let (first, index) = with_tree(network, markers, tree);
    let (middle, items) = with_trees(first, markers, between);
    lemma_with_tree(network, markers, tree);
    lemma_tree_follows(network, markers, tree);
    lemma_trees_follow(first, markers, between);
    lemma_tree_again(network, markers, tree, middle);
}

/// What interning the markers does to what can be found.
proof fn lemma_interned_follows(network: Network)
    requires
        steady(network),
        network.links.len() + 5 <= usize::MAX,
    ensures
        follows(network, interned(network).0),
        within(interned(network).0, interned(network).1),
        interned(network).0.links.len() <= network.links.len() + 5,
        forall|later: Network| #[trigger]
            grows(interned(network).0, later) ==> interned(later) == (later, interned(network).1),
{
    let (first, reference) = network.with_symbol("lino:ref"@);
    let (second, cons) = first.with_symbol("lino:cons"@);
    let (third, nil) = second.with_symbol("lino:nil"@);
    let (fourth, link) = third.with_symbol("lino:link"@);
    let (fifth, document) = fourth.with_symbol("lino:document"@);
    lemma_symbol_follows(network, "lino:ref"@);
    lemma_with_symbol(network, "lino:ref"@);
    lemma_symbol_follows(first, "lino:cons"@);
    lemma_with_symbol(first, "lino:cons"@);
    lemma_symbol_follows(second, "lino:nil"@);
    lemma_with_symbol(second, "lino:nil"@);
    lemma_symbol_follows(third, "lino:link"@);
    lemma_with_symbol(third, "lino:link"@);
    lemma_symbol_follows(fourth, "lino:document"@);
    lemma_with_symbol(fourth, "lino:document"@);
    lemma_follows(network, first, second);
    lemma_follows(network, second, third);
    lemma_follows(network, third, fourth);
    lemma_follows(network, fourth, fifth);
    assert forall|later: Network| #[trigger] grows(fifth, later) implies interned(later) == (
        later,
        interned(network).1,
    ) by {
        lemma_grows(fourth, fifth, later);
        lemma_grows(third, fourth, later);
        lemma_grows(second, third, later);
        lemma_grows(first, second, later);
        assert(first.symbols.dom().contains("lino:ref"@) && later.symbols.dom().contains(
            "lino:ref"@,
        ));
        assert(second.symbols.dom().contains("lino:cons"@) && later.symbols.dom().contains(
            "lino:cons"@,
        ));
        assert(third.symbols.dom().contains("lino:nil"@) && later.symbols.dom().contains(
            "lino:nil"@,
        ));
        assert(fourth.symbols.dom().contains("lino:link"@) && later.symbols.dom().contains(
            "lino:link"@,
        ));
        assert(fifth.symbols.dom().contains("lino:document"@) && later.symbols.dom().contains(
            "lino:document"@,
        ));
    }
}

/// Storing a document again returns the root it has already and stores nothing.
pub proof fn law_documents_are_stored_once(network: Network, document: Seq<Tree>)
    requires
        steady(network),
        network.links.len() + weights(document) + 2 * document.len() + 6 <= usize::MAX,
    ensures
        ({
            let (after, root) = with_document(network, document);
            with_document(after, document) == (after, root)
        }),
{
    let (marked, markers) = interned(network);
    let (filled, items) = with_trees(marked, markers, document);
    let (listed, list) = with_list(filled, markers, items);
    let (after, root) = listed.with_link(markers.document, list);
    lemma_interned_follows(network);
    lemma_with_trees(marked, markers, document);
    lemma_trees_follow(marked, markers, document);
    lemma_with_list(filled, markers, items);
    lemma_list_follows(filled, markers, items);
    lemma_link_follows(listed, markers.document, list);
    lemma_follows(filled, listed, after);
    lemma_follows(marked, filled, after);
    lemma_trees_again(marked, markers, document, after);
    lemma_list_again(filled, markers, items, after);
}

} // verus!
