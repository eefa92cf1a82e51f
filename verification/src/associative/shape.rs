//! What a document looks like once it stands in the network.
//!
//! Every node is a doublet whose source is a marker. A reference leads to the
//! symbol of its name, a list to a pair of its first item and the rest, a link to
//! a pair of its identifier and its list, and a document to its list.

use vstd::prelude::*;

use crate::associative::lino::{
    formatted, grows, interned, joined, lemma_grows, lemma_kept, lemma_with_link, lemma_with_list,
    lemma_with_reference, lemma_with_symbol, lemma_with_tree, lemma_with_trees, weight, weights,
    with_document, with_list, with_reference, with_tree, with_trees, written, written_all, Markers,
    Tree,
};
use crate::associative::store::{LinkIndex, Network};

verus! {

/// Whether a reference to a name stands at an address.
pub open spec fn is_reference(
    network: Network,
    markers: Markers,
    index: LinkIndex,
    name: Seq<char>,
) -> bool {
    &&& network.at(index as int) matches Some(node)
    &&& node.source == markers.reference
    &&& network.names.contains_key(node.target)
    &&& network.names[node.target] == name
}

/// Whether a list of items stands at an address, the first item at its head.
pub open spec fn is_list(
    network: Network,
    markers: Markers,
    index: LinkIndex,
    items: Seq<LinkIndex>,
) -> bool
    decreases items.len(),
{
    if items.len() == 0 {
        index == markers.nil
    } else {
        &&& network.at(index as int) matches Some(cell)
        &&& cell.source == markers.cons
        &&& network.at(cell.target as int) matches Some(pair)
        &&& pair.source == items[0]
        &&& is_list(network, markers, pair.target, items.skip(1))
    }
}

/// Whether a tree stands at an address.
pub open spec fn is_tree(network: Network, markers: Markers, index: LinkIndex, tree: Tree) -> bool
    decreases tree,
{
    match tree {
        Tree::Ref(name) => is_reference(network, markers, index, name),
        Tree::Link(id, values) => {
            &&& network.at(index as int) matches Some(node)
            &&& node.source == markers.link
            &&& network.at(node.target as int) matches Some(body)
            &&& match id {
                Some(name) => is_reference(network, markers, body.source, name),
                None => body.source == markers.nil,
            }
            &&& holds(network, markers, body.target, values)
        },
    }
}

/// Whether a list of trees stands at an address, the first of them at its head.
pub open spec fn holds(
    network: Network,
    markers: Markers,
    index: LinkIndex,
    values: Seq<Tree>,
) -> bool
    decreases values,
{
    if values.len() == 0 {
        index == markers.nil
    } else {
        &&& network.at(index as int) matches Some(cell)
        &&& cell.source == markers.cons
        &&& network.at(cell.target as int) matches Some(pair)
        &&& is_tree(network, markers, pair.source, values[0])
        &&& holds(network, markers, pair.target, values.skip(1))
    }
}

/// Whether trees stand at addresses, one at each.
pub open spec fn are_trees(
    network: Network,
    markers: Markers,
    items: Seq<LinkIndex>,
    values: Seq<Tree>,
) -> bool {
    &&& items.len() == values.len()
    &&& forall|i: int|
        0 <= i < items.len() ==> is_tree(network, markers, #[trigger] items[i], values[i])
}

/// A symbol keeps its name.
proof fn lemma_name_stays(before: Network, after: Network, index: LinkIndex)
    requires
        grows(before, after),
        before.names.contains_key(index),
    ensures
        after.names.contains_key(index),
        after.names[index] == before.names[index],
{
    assert(before.names.dom().contains(index));
    assert(after.names.dom().contains(index));
    assert(before.names[index] == after.names[index]);
}

proof fn lemma_reference_stays(
    before: Network,
    after: Network,
    markers: Markers,
    index: LinkIndex,
    name: Seq<char>,
)
    requires
        grows(before, after),
        is_reference(before, markers, index, name),
    ensures
        is_reference(after, markers, index, name),
{
    lemma_kept(before, after, index as int);
    lemma_name_stays(before, after, before.at(index as int)->Some_0.target);
}

proof fn lemma_list_stays(
    before: Network,
    after: Network,
    markers: Markers,
    index: LinkIndex,
    items: Seq<LinkIndex>,
)
    requires
        grows(before, after),
        is_list(before, markers, index, items),
    ensures
        is_list(after, markers, index, items),
    decreases items.len(),
{
    if items.len() > 0 {
        let cell = before.at(index as int)->Some_0;
        let pair = before.at(cell.target as int)->Some_0;
        lemma_kept(before, after, index as int);
        lemma_kept(before, after, cell.target as int);
        lemma_list_stays(before, after, markers, pair.target, items.skip(1));
    }
}

proof fn lemma_tree_stays(
    before: Network,
    after: Network,
    markers: Markers,
    index: LinkIndex,
    tree: Tree,
)
    requires
        grows(before, after),
        is_tree(before, markers, index, tree),
    ensures
        is_tree(after, markers, index, tree),
    decreases tree,
{
    match tree {
        Tree::Ref(name) => {
            lemma_reference_stays(before, after, markers, index, name);
        },
        Tree::Link(id, values) => {
            let node = before.at(index as int)->Some_0;
            let body = before.at(node.target as int)->Some_0;
            lemma_kept(before, after, index as int);
            lemma_kept(before, after, node.target as int);
            if let Some(name) = id {
                lemma_reference_stays(before, after, markers, body.source, name);
            }
            lemma_held_stay(before, after, markers, body.target, values);
        },
    }
}

proof fn lemma_held_stay(
    before: Network,
    after: Network,
    markers: Markers,
    index: LinkIndex,
    values: Seq<Tree>,
)
    requires
        grows(before, after),
        holds(before, markers, index, values),
    ensures
        holds(after, markers, index, values),
    decreases values,
{
    if values.len() > 0 {
        let cell = before.at(index as int)->Some_0;
        let pair = before.at(cell.target as int)->Some_0;
        lemma_kept(before, after, index as int);
        lemma_kept(before, after, cell.target as int);
        lemma_tree_stays(before, after, markers, pair.source, values[0]);
        lemma_held_stay(before, after, markers, pair.target, values.skip(1));
    }
}

proof fn lemma_trees_stay(
    before: Network,
    after: Network,
    markers: Markers,
    items: Seq<LinkIndex>,
    values: Seq<Tree>,
)
    requires
        grows(before, after),
        are_trees(before, markers, items, values),
    ensures
        are_trees(after, markers, items, values),
{
    assert forall|i: int| 0 <= i < items.len() implies is_tree(
        after,
        markers,
        #[trigger] items[i],
        values[i],
    ) by {
        lemma_tree_stays(before, after, markers, items[i], values[i]);
    }
}

/// A list of items that are trees is a list of those trees.
proof fn lemma_held(
    network: Network,
    markers: Markers,
    index: LinkIndex,
    items: Seq<LinkIndex>,
    values: Seq<Tree>,
)
    requires
        is_list(network, markers, index, items),
        are_trees(network, markers, items, values),
    ensures
        holds(network, markers, index, values),
    decreases items.len(),
{
    if items.len() > 0 {
        let cell = network.at(index as int)->Some_0;
        let pair = network.at(cell.target as int)->Some_0;
        assert(is_tree(network, markers, items[0], values[0]));
        assert forall|i: int| 0 <= i < items.skip(1).len() implies is_tree(
            network,
            markers,
            #[trigger] items.skip(1)[i],
            values.skip(1)[i],
        ) by {
            assert(items.skip(1)[i] == items[i + 1]);
            assert(values.skip(1)[i] == values[i + 1]);
        }
        lemma_held(network, markers, pair.target, items.skip(1), values.skip(1));
    }
}

/// A reference is stored as one.
pub proof fn law_references_lead_to_their_names(
    network: Network,
    markers: Markers,
    name: Seq<char>,
)
    requires
        network.sound(),
        network.links.len() + 2 <= usize::MAX,
    ensures
        is_reference(
            with_reference(network, markers, name).0,
            markers,
            with_reference(network, markers, name).1,
            name,
        ),
{
    let (named, symbol) = network.with_symbol(name);
    lemma_with_symbol(network, name);
    lemma_with_link(named, markers.reference, symbol);
    lemma_name_stays(named, with_reference(network, markers, name).0, symbol);
}

/// A list is stored as one, its first item at its head.
pub proof fn law_lists_are_chains(network: Network, markers: Markers, items: Seq<LinkIndex>)
    requires
        network.sound(),
        network.links.len() + 2 * items.len() <= usize::MAX,
    ensures
        is_list(
            with_list(network, markers, items).0,
            markers,
            with_list(network, markers, items).1,
            items,
        ),
    decreases items.len(),
{
    if items.len() > 0 {
        let (tail, rest) = with_list(network, markers, items.skip(1));
        let (paired, cell) = tail.with_link(items[0], rest);
        let (after, list) = with_list(network, markers, items);
        lemma_with_list(network, markers, items.skip(1));
        law_lists_are_chains(network, markers, items.skip(1));
        lemma_with_link(tail, items[0], rest);
        lemma_with_link(paired, markers.cons, cell);
        lemma_kept(paired, after, cell as int);
        lemma_grows(tail, paired, after);
        lemma_list_stays(tail, after, markers, rest, items.skip(1));
    }
}

/// A tree is stored as one: its identifier, if it has one, beside the list of its
/// values in their order.
pub proof fn law_trees_keep_their_shape(network: Network, markers: Markers, tree: Tree)
    requires
        network.sound(),
        network.links.len() + weight(tree) <= usize::MAX,
    ensures
        is_tree(
            with_tree(network, markers, tree).0,
            markers,
            with_tree(network, markers, tree).1,
            tree,
        ),
    decreases tree,
{
    match tree {
        Tree::Ref(name) => {
            law_references_lead_to_their_names(network, markers, name);
            let (after, index) = with_reference(network, markers, name);
            assert(with_tree(network, markers, tree) == (after, index));
            assert(is_tree(after, markers, index, tree));
        },
        Tree::Link(id, values) => {
            let (named, identifier) = match id {
                Some(name) => with_reference(network, markers, name),
                None => (network, markers.nil),
            };
            let (filled, items) = with_trees(named, markers, values);
            let (listed, list) = with_list(filled, markers, items);
            let (bodied, body) = listed.with_link(identifier, list);
            let (after, index) = with_tree(network, markers, tree);
            if let Some(name) = id {
                lemma_with_reference(network, markers, name);
                law_references_lead_to_their_names(network, markers, name);
            }
            lemma_with_trees(named, markers, values);
            lemma_trees_keep_their_shape(named, markers, values);
            lemma_with_list(filled, markers, items);
            law_lists_are_chains(filled, markers, items);
            lemma_with_link(listed, identifier, list);
            lemma_with_link(bodied, markers.link, body);
            lemma_kept(bodied, after, body as int);
            lemma_grows(listed, bodied, after);
            lemma_grows(filled, listed, after);
            lemma_grows(named, filled, after);
            if let Some(name) = id {
                lemma_reference_stays(named, after, markers, identifier, name);
            }
            lemma_list_stays(listed, after, markers, list, items);
            lemma_trees_stay(filled, after, markers, items, values);
            lemma_held(after, markers, list, items, values);
        },
    }
}

proof fn lemma_trees_keep_their_shape(network: Network, markers: Markers, values: Seq<Tree>)
    requires
        network.sound(),
        network.links.len() + weights(values) <= usize::MAX,
    ensures
        are_trees(
            with_trees(network, markers, values).0,
            markers,
            with_trees(network, markers, values).1,
            values,
        ),
    decreases values,
{
    if values.len() > 0 {
        let (before, items) = with_trees(network, markers, values.drop_last());
        let (after, all) = with_trees(network, markers, values);
        lemma_with_trees(network, markers, values.drop_last());
        lemma_trees_keep_their_shape(network, markers, values.drop_last());
        lemma_with_tree(before, markers, values.last());
        law_trees_keep_their_shape(before, markers, values.last());
        lemma_trees_stay(before, after, markers, items, values.drop_last());
        assert forall|i: int| 0 <= i < all.len() implies is_tree(
            after,
            markers,
            #[trigger] all[i],
            values[i],
        ) by {
            if i < items.len() {
                assert(all[i] == items[i]);
                assert(values.drop_last()[i] == values[i]);
            }
        }
    }
}

/// A document is stored as the list of its trees behind the marker of documents.
pub proof fn law_documents_are_lists_of_trees(network: Network, document: Seq<Tree>)
    requires
        network.sound(),
        network.links.len() + 6 + weights(document) + 2 * document.len() <= usize::MAX,
    ensures
        ({
            let (after, root) = with_document(network, document);
            let markers = interned(network).1;
            &&& after.at(root as int) matches Some(node)
            &&& node.source == markers.document
            &&& holds(after, markers, node.target, document)
            &&& after.names.contains_key(markers.reference) && after.names[markers.reference]
                == "lino:ref"@
            &&& after.names.contains_key(markers.cons) && after.names[markers.cons]
                == "lino:cons"@
            &&& after.names.contains_key(markers.nil) && after.names[markers.nil] == "lino:nil"@
            &&& after.names.contains_key(markers.link) && after.names[markers.link]
                == "lino:link"@
            &&& after.names.contains_key(markers.document) && after.names[markers.document]
                == "lino:document"@
        }),
{
    let (first, reference) = network.with_symbol("lino:ref"@);
    let (second, cons) = first.with_symbol("lino:cons"@);
    let (third, nil) = second.with_symbol("lino:nil"@);
    let (fourth, link) = third.with_symbol("lino:link"@);
    let (marked, kind) = fourth.with_symbol("lino:document"@);
    let markers = interned(network).1;
    lemma_with_symbol(network, "lino:ref"@);
    lemma_with_symbol(first, "lino:cons"@);
    lemma_with_symbol(second, "lino:nil"@);
    lemma_with_symbol(third, "lino:link"@);
    lemma_with_symbol(fourth, "lino:document"@);
    let (filled, items) = with_trees(marked, markers, document);
    let (listed, list) = with_list(filled, markers, items);
    let (after, root) = with_document(network, document);
    lemma_with_trees(marked, markers, document);
    lemma_trees_keep_their_shape(marked, markers, document);
    lemma_with_list(filled, markers, items);
    law_lists_are_chains(filled, markers, items);
    lemma_with_link(listed, markers.document, list);
    lemma_grows(filled, listed, after);
    lemma_grows(marked, filled, after);
    lemma_list_stays(listed, after, markers, list, items);
    lemma_trees_stay(filled, after, markers, items, document);
    lemma_held(after, markers, list, items, document);
    lemma_grows(fourth, marked, after);
    lemma_grows(third, fourth, after);
    lemma_grows(second, third, after);
    lemma_grows(first, second, after);
    lemma_name_stays(first, after, reference);
    lemma_name_stays(second, after, cons);
    lemma_name_stays(third, after, nil);
    lemma_name_stays(fourth, after, link);
    lemma_name_stays(marked, after, kind);
}

/// A document is written line by line: a link that is added stands on a line of
/// its own behind the others.
pub proof fn law_links_are_written_on_lines(document: Seq<Tree>, link: Tree)
    requires
        forall|i: int| 0 <= i < document.len() ==> (#[trigger] document[i]) is Link,
        link is Link,
    ensures
        formatted(document.push(link)) == formatted(document) + written(link) + seq!['\n'],
{
    let all = document.push(link);
    assert(all.drop_last() =~= document);
    lemma_as_many(document);
    assert(written(link).len() > 0);
    let lines = written_all(document);
    assert(written_all(all) == lines.push(written(link)));
    assert(lines.push(written(link)).drop_last() =~= lines);
    if document.len() == 0 {
        assert(lines =~= Seq::empty());
        assert(joined(lines.push(written(link)), '\n') == written(link));
        assert(formatted(all) =~= formatted(document) + written(link) + seq!['\n']);
    } else {
        lemma_lines_show(document);
        assert(joined(lines.push(written(link)), '\n') == joined(lines, '\n').push('\n')
            + written(link));
        assert(formatted(all) =~= formatted(document) + written(link) + seq!['\n']);
    }
}

proof fn lemma_as_many(document: Seq<Tree>)
    ensures
        written_all(document).len() == document.len(),
    decreases document.len(),
{
    if document.len() > 0 {
        lemma_as_many(document.drop_last());
    }
}

proof fn lemma_lines_show(document: Seq<Tree>)
    requires
        document.len() > 0,
        document.last() is Link,
    ensures
        joined(written_all(document), '\n').len() > 0,
{
    lemma_as_many(document);
    lemma_as_many(document.drop_last());
    let lines = written_all(document);
    assert(lines.last() == written(document.last()));
    assert(written(document.last()).len() > 0);
}

} // verus!
