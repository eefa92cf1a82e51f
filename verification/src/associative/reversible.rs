//! Why projecting a document into the network loses nothing.

use vstd::prelude::*;
use vstd::set_lib::{lemma_int_range, lemma_len_subset, set_int_range};

use crate::associative::lino::{
    document_at, grows, interned, lemma_grows, lemma_kept, lemma_with_link, lemma_with_list,
    lemma_with_reference, lemma_with_symbol, lemma_with_tree, lemma_with_trees, list_at, marked,
    tree_at, trees_at, weight, weights, with_document, with_list, with_reference, with_tree,
    with_trees, Markers, Tree,
};
use crate::associative::store::{LinkIndex, Network, NULL};
use crate::error::Fault;

verus! {

/// Whether a list comes to its end in exactly a number of steps.
pub open spec fn ends(network: Network, markers: Markers, list: LinkIndex, steps: nat) -> bool
    decreases steps,
{
    if list == markers.nil {
        steps == 0
    } else {
        &&& steps > 0
        &&& network.at(list as int) matches Some(cell)
        &&& network.at(cell.target as int) matches Some(pair)
        &&& ends(network, markers, pair.target, (steps - 1) as nat)
    }
}

/// A list ends after one number of steps only.
proof fn lemma_one_end(
    network: Network,
    markers: Markers,
    list: LinkIndex,
    first: nat,
    second: nat,
)
    requires
        ends(network, markers, list, first),
        ends(network, markers, list, second),
    ensures
        first == second,
    decreases first,
{
    if list != markers.nil {
        let cell = network.at(list as int).unwrap();
        let pair = network.at(cell.target as int).unwrap();
        lemma_one_end(network, markers, pair.target, (first - 1) as nat, (second - 1) as nat);
    }
}

/// Whether a link is a list of at least one and at most a number of steps.
pub open spec fn ends_within(network: Network, markers: Markers, list: int, steps: nat) -> bool {
    &&& 1 <= list <= network.links.len()
    &&& exists|count: nat|
        1 <= count <= steps && #[trigger] ends(network, markers, list as usize, count)
}

/// The links that a list runs through are as many as it has steps.
proof fn lemma_list_links(
    network: Network,
    markers: Markers,
    list: LinkIndex,
    steps: nat,
) -> (links: Set<int>)
    requires
        network.links.len() <= usize::MAX,
        ends(network, markers, list, steps),
    ensures
        links.finite(),
        links.len() == steps,
        forall|link: int| #[trigger]
            links.contains(link) ==> ends_within(network, markers, link, steps),
    decreases steps,
{
    if list == markers.nil {
        Set::empty()
    } else {
        let cell = network.at(list as int).unwrap();
        let pair = network.at(cell.target as int).unwrap();
        let rest = lemma_list_links(network, markers, pair.target, (steps - 1) as nat);
        if rest.contains(list as int) {
            let count = choose|count: nat|
                1 <= count <= steps - 1 && #[trigger] ends(
                    network,
                    markers,
                    list as int as usize,
                    count,
                );
            lemma_one_end(network, markers, list, steps, count);
        }
        let links = rest.insert(list as int);
        assert forall|link: int| #[trigger] links.contains(link) implies ends_within(
            network,
            markers,
            link,
            steps,
        ) by {
            if link == list {
                assert(ends(network, markers, link as usize, steps));
            } else {
                assert(ends_within(network, markers, link, (steps - 1) as nat));
            }
        }
        links
    }
}

/// A set of addresses is no larger than the network.
proof fn lemma_addresses(network: Network, links: Set<int>)
    requires
        links.finite(),
        forall|link: int| #[trigger] links.contains(link) ==> 1 <= link <= network.links.len(),
    ensures
        links.len() <= network.links.len(),
{
    let end: int = network.links.len() as int + 1;
    lemma_int_range(1, end);
    assert(links.subset_of(set_int_range(1, end)));
    lemma_len_subset(links, set_int_range(1, end));
}

/// A list that ends does so within as many steps as there are links.
proof fn lemma_list_bound(network: Network, markers: Markers, list: LinkIndex, steps: nat)
    requires
        network.links.len() <= usize::MAX,
        ends(network, markers, list, steps),
    ensures
        steps <= network.links.len(),
{
    let links = lemma_list_links(network, markers, list, steps);
    assert forall|link: int| #[trigger] links.contains(link) implies 1 <= link
        <= network.links.len() by {
        assert(ends_within(network, markers, link, steps));
    }
    lemma_addresses(network, links);
}

/// Whether the markers tell the nodes of a network apart.
pub open spec fn told_apart(network: Network, markers: Markers) -> bool {
    &&& network.point(markers.nil as int)
    &&& markers.cons != markers.nil
    &&& markers.reference != markers.nil
    &&& markers.reference != markers.link
}

/// A stored list ends.
proof fn lemma_list_ends(network: Network, markers: Markers, items: Seq<LinkIndex>, later: Network)
    requires
        network.sound(),
        network.links.len() + 2 * items.len() <= usize::MAX,
        told_apart(network, markers),
        grows(with_list(network, markers, items).0, later),
    ensures
        ends(later, markers, with_list(network, markers, items).1, items.len()),
        with_list(network, markers, items).1 != NULL,
    decreases items.len(),
{
    if items.len() > 0 {
        let (tail, rest) = with_list(network, markers, items.skip(1));
        let (paired, cell) = tail.with_link(items[0], rest);
        let (after, list) = paired.with_link(markers.cons, cell);
        lemma_with_list(network, markers, items.skip(1));
        lemma_with_link(tail, items[0], rest);
        lemma_with_link(paired, markers.cons, cell);
        lemma_grows(tail, paired, after);
        lemma_grows(tail, after, later);
        lemma_grows(paired, after, later);
        lemma_grows(network, tail, later);
        lemma_kept(after, later, list as int);
        lemma_kept(paired, later, cell as int);
        lemma_kept(network, later, markers.nil as int);
        lemma_list_ends(network, markers, items.skip(1), later);
    }
}

/// A stored list is read back.
proof fn lemma_list_back(
    network: Network,
    markers: Markers,
    items: Seq<LinkIndex>,
    later: Network,
    before: Seq<LinkIndex>,
    steps: nat,
)
    requires
        network.sound(),
        network.links.len() + 2 * items.len() <= usize::MAX,
        told_apart(network, markers),
        grows(with_list(network, markers, items).0, later),
        steps >= items.len(),
    ensures
        list_at(later, markers, with_list(network, markers, items).1, before, steps) == Ok::<
            Seq<LinkIndex>,
            Fault,
        >(before + items),
    decreases items.len(),
{
    if items.len() == 0 {
        assert(before + items =~= before);
    } else {
        let (tail, rest) = with_list(network, markers, items.skip(1));
        let (paired, cell) = tail.with_link(items[0], rest);
        let (after, list) = paired.with_link(markers.cons, cell);
        lemma_with_list(network, markers, items.skip(1));
        lemma_with_link(tail, items[0], rest);
        lemma_with_link(paired, markers.cons, cell);
        lemma_grows(tail, paired, after);
        lemma_grows(tail, after, later);
        lemma_grows(paired, after, later);
        lemma_grows(network, tail, later);
        lemma_kept(after, later, list as int);
        lemma_kept(paired, later, cell as int);
        lemma_kept(network, later, markers.nil as int);
        lemma_list_ends(network, markers, items.skip(1), later);
        lemma_list_back(
            network,
            markers,
            items.skip(1),
            later,
            before.push(items[0]),
            (steps - 1) as nat,
        );
        assert(before.push(items[0]) + items.skip(1) =~= before + items);
    }
}

/// A stored list is read back from the network that holds it.
proof fn lemma_whole_list_back(
    network: Network,
    markers: Markers,
    items: Seq<LinkIndex>,
    later: Network,
)
    requires
        network.sound(),
        later.links.len() <= usize::MAX,
        network.links.len() + 2 * items.len() <= usize::MAX,
        told_apart(network, markers),
        grows(with_list(network, markers, items).0, later),
    ensures
        list_at(
            later,
            markers,
            with_list(network, markers, items).1,
            Seq::empty(),
            later.links.len(),
        ) == Ok::<Seq<LinkIndex>, Fault>(items),
{
    lemma_list_ends(network, markers, items, later);
    lemma_list_bound(later, markers, with_list(network, markers, items).1, items.len());
    lemma_list_back(network, markers, items, later, Seq::empty(), later.links.len());
    assert(Seq::<LinkIndex>::empty() + items =~= items);
}

/// How many levels a tree has below its root.
pub open spec fn levels(tree: Tree) -> nat
    decreases tree,
{
    match tree {
        Tree::Ref(_) => 0,
        Tree::Link(id, values) => if id is None && values.len() == 0 {
            0
        } else {
            1 + most_levels(values)
        },
    }
}

/// The most levels that one of several trees has.
pub open spec fn most_levels(values: Seq<Tree>) -> nat
    decreases values,
{
    if values.len() == 0 {
        0
    } else {
        let before = most_levels(values.drop_last());
        let last = levels(values.last());
        if before > last {
            before
        } else {
            last
        }
    }
}

/// A stored tree is read back, given enough levels.
proof fn lemma_tree_back(
    network: Network,
    markers: Markers,
    tree: Tree,
    later: Network,
    depth: nat,
)
    requires
        network.sound(),
        later.links.len() <= usize::MAX,
        network.links.len() + weight(tree) <= usize::MAX,
        told_apart(network, markers),
        grows(with_tree(network, markers, tree).0, later),
        depth >= levels(tree),
    ensures
        tree_at(later, markers, with_tree(network, markers, tree).1, depth) == Ok::<Tree, Fault>(
            tree,
        ),
    decreases tree,
{
    match tree {
        Tree::Ref(name) => {
            lemma_reference_back(network, markers, name, later, depth);
        },
        Tree::Link(id, values) => {
            let (named, identifier) = match id {
                Some(name) => with_reference(network, markers, name),
                None => (network, markers.nil),
            };
            let (filled, items) = with_trees(named, markers, values);
            let (listed, list) = with_list(filled, markers, items);
            let (bodied, body) = listed.with_link(identifier, list);
            let (after, index) = bodied.with_link(markers.link, body);
            if let Some(name) = id {
                lemma_with_reference(network, markers, name);
            }
            lemma_with_trees(named, markers, values);
            lemma_with_list(filled, markers, items);
            lemma_with_link(listed, identifier, list);
            lemma_with_link(bodied, markers.link, body);
            lemma_grows(bodied, after, later);
            lemma_grows(listed, bodied, later);
            lemma_grows(filled, listed, later);
            lemma_grows(named, filled, later);
            lemma_grows(network, named, later);
            lemma_grows(network, named, filled);
            lemma_kept(network, named, markers.nil as int);
            lemma_kept(network, filled, markers.nil as int);
            lemma_kept(after, later, index as int);
            lemma_kept(bodied, later, body as int);
            if let Some(name) = id {
                lemma_reference_back(network, markers, name, later, (depth - 1) as nat);
                lemma_reference_is_no_marker(network, markers, name);
            }
            lemma_whole_list_back(filled, markers, items, later);
            if values.len() > 0 {
                lemma_trees_back(named, markers, values, later, (depth - 1) as nat);
            } else {
                assert(items =~= Seq::<LinkIndex>::empty());
                assert(values =~= Seq::<Tree>::empty());
            }
        },
    }
}

/// Stored trees are read back, given enough levels.
proof fn lemma_trees_back(
    network: Network,
    markers: Markers,
    values: Seq<Tree>,
    later: Network,
    depth: nat,
)
    requires
        network.sound(),
        later.links.len() <= usize::MAX,
        network.links.len() + weights(values) <= usize::MAX,
        told_apart(network, markers),
        grows(with_trees(network, markers, values).0, later),
        depth >= most_levels(values),
    ensures
        trees_at(later, markers, with_trees(network, markers, values).1, depth) == Ok::<
            Seq<Tree>,
            Fault,
        >(values),
    decreases values,
{
    if values.len() == 0 {
        assert(values =~= Seq::<Tree>::empty());
    } else {
        let (before, items) = with_trees(network, markers, values.drop_last());
        let (after, item) = with_tree(before, markers, values.last());
        lemma_with_trees(network, markers, values.drop_last());
        lemma_with_tree(before, markers, values.last());
        lemma_kept(network, before, markers.nil as int);
        lemma_grows(before, after, later);
        lemma_trees_back(network, markers, values.drop_last(), later, depth);
        lemma_tree_back(before, markers, values.last(), later, depth);
        assert(items.push(item).drop_last() =~= items);
        assert(values.drop_last().push(values.last()) =~= values);
    }
}

/// A stored reference is read back.
proof fn lemma_reference_back(
    network: Network,
    markers: Markers,
    name: Seq<char>,
    later: Network,
    depth: nat,
)
    requires
        network.sound(),
        network.links.len() + 2 <= usize::MAX,
        grows(with_reference(network, markers, name).0, later),
    ensures
        tree_at(later, markers, with_reference(network, markers, name).1, depth) == Ok::<
            Tree,
            Fault,
        >(Tree::Ref(name)),
{
    let (named, symbol) = network.with_symbol(name);
    let (after, index) = named.with_link(markers.reference, symbol);
    lemma_with_symbol(network, name);
    lemma_with_link(named, markers.reference, symbol);
    lemma_grows(named, after, later);
    lemma_kept(after, later, index as int);
    assert(named.names.dom().contains(symbol));
    assert(later.names.dom().contains(symbol));
}

/// No reference takes the place of the list terminator.
proof fn lemma_reference_is_no_marker(network: Network, markers: Markers, name: Seq<char>)
    requires
        network.sound(),
        network.links.len() + 2 <= usize::MAX,
        told_apart(network, markers),
    ensures
        with_reference(network, markers, name).1 != markers.nil,
{
    let (named, symbol) = network.with_symbol(name);
    let (after, index) = named.with_link(markers.reference, symbol);
    lemma_with_symbol(network, name);
    lemma_with_link(named, markers.reference, symbol);
    lemma_kept(network, named, markers.nil as int);
    lemma_kept(named, after, markers.nil as int);
}

/// What is read with some levels is read with more of them.
proof fn lemma_deeper(network: Network, markers: Markers, index: LinkIndex, depth: nat, more: nat)
    requires
        tree_at(network, markers, index, depth) is Ok,
        depth <= more,
    ensures
        tree_at(network, markers, index, more) == tree_at(network, markers, index, depth),
    decreases depth, 0nat,
{
    let node = network.at(index as int).unwrap();
    if node.source != markers.reference {
        let body = network.at(node.target as int).unwrap();
        if body.source != markers.nil {
            lemma_deeper(
                network,
                markers,
                body.source,
                (depth - 1) as nat,
                (more - 1) as nat,
            );
        }
        let items = list_at(network, markers, body.target, Seq::empty(), network.links.len())->Ok_0;
        if items.len() > 0 {
            lemma_all_deeper(network, markers, items, (depth - 1) as nat, (more - 1) as nat);
        }
    }
}

/// What is read of several with some levels is read with more of them.
proof fn lemma_all_deeper(
    network: Network,
    markers: Markers,
    items: Seq<LinkIndex>,
    depth: nat,
    more: nat,
)
    requires
        trees_at(network, markers, items, depth) is Ok,
        depth <= more,
    ensures
        trees_at(network, markers, items, more) == trees_at(network, markers, items, depth),
    decreases depth, items.len() + 1,
{
    if items.len() > 0 {
        lemma_all_deeper(network, markers, items.drop_last(), depth, more);
        lemma_deeper(network, markers, items.last(), depth, more);
    }
}

/// Each of several trees is read at its own address.
proof fn lemma_each_is_read(
    network: Network,
    markers: Markers,
    items: Seq<LinkIndex>,
    depth: nat,
    index: int,
)
    requires
        trees_at(network, markers, items, depth) is Ok,
        0 <= index < items.len(),
    ensures
        trees_at(network, markers, items, depth)->Ok_0.len() == items.len(),
        tree_at(network, markers, items[index], depth) == Ok::<Tree, Fault>(
            trees_at(network, markers, items, depth)->Ok_0[index],
        ),
    decreases items.len(),
{
    let front = items.drop_last();
    if front.len() > 0 {
        lemma_each_is_read(
            network,
            markers,
            front,
            depth,
            if index < front.len() {
                index
            } else {
                0
            },
        );
    } else {
        assert(trees_at(network, markers, front, depth) == Ok::<Seq<Tree>, Fault>(Seq::empty()));
    }
}

/// One of several trees has the most levels.
proof fn lemma_deepest(values: Seq<Tree>) -> (index: int)
    requires
        values.len() > 0,
    ensures
        0 <= index < values.len(),
        levels(values[index]) == most_levels(values),
    decreases values.len(),
{
    let front = values.drop_last();
    if front.len() > 0 {
        let index = lemma_deepest(front);
        if most_levels(front) > levels(values.last()) {
            index
        } else {
            values.len() - 1
        }
    } else {
        assert(most_levels(front) == 0);
        0
    }
}

/// Whether a tree with at most a number of levels is read at an address.
pub open spec fn reads_within(
    network: Network,
    markers: Markers,
    link: int,
    bound: nat,
) -> bool {
    &&& 1 <= link <= network.links.len()
    &&& exists|depth: nat|
        {
            &&& #[trigger] tree_at(network, markers, link as usize, depth) is Ok
            &&& levels(tree_at(network, markers, link as usize, depth)->Ok_0) <= bound
        }
}

/// An address at which a tree is read is none at which shallower trees are.
proof fn lemma_not_shallower(
    network: Network,
    markers: Markers,
    index: LinkIndex,
    depth: nat,
    bound: nat,
)
    requires
        tree_at(network, markers, index, depth) is Ok,
        levels(tree_at(network, markers, index, depth)->Ok_0) > bound,
    ensures
        !reads_within(network, markers, index as int, bound),
{
    if reads_within(network, markers, index as int, bound) {
        let other = choose|other: nat|
            {
                &&& #[trigger] tree_at(network, markers, index as int as usize, other) is Ok
                &&& levels(tree_at(network, markers, index as int as usize, other)->Ok_0) <= bound
            };
        if depth <= other {
            lemma_deeper(network, markers, index, depth, other);
        } else {
            lemma_deeper(network, markers, index, other, depth);
        }
    }
}

/// The links that a tree runs through are at least as many as it has levels.
proof fn lemma_tree_links(
    network: Network,
    markers: Markers,
    index: LinkIndex,
    depth: nat,
) -> (links: Set<int>)
    requires
        network.links.len() <= usize::MAX,
        tree_at(network, markers, index, depth) is Ok,
    ensures
        links.finite(),
        links.len() == levels(tree_at(network, markers, index, depth)->Ok_0) + 1,
        forall|link: int| #[trigger]
            links.contains(link) ==> reads_within(
                network,
                markers,
                link,
                levels(tree_at(network, markers, index, depth)->Ok_0),
            ),
    decreases depth,
{
    let tree = tree_at(network, markers, index, depth)->Ok_0;
    let bound = levels(tree);
    assert(tree_at(network, markers, index as int as usize, depth) is Ok);
    assert(reads_within(network, markers, index as int, bound));
    if bound == 0 {
        Set::empty().insert(index as int)
    } else {
        let node = network.at(index as int).unwrap();
        let body = network.at(node.target as int).unwrap();
        let values = tree->Link_1;
        let below = (depth - 1) as nat;
        let child = if values.len() > 0 {
            let items =
                list_at(network, markers, body.target, Seq::empty(), network.links.len())->Ok_0;
            let position = lemma_deepest(values);
            lemma_each_is_read(network, markers, items, below, 0);
            lemma_each_is_read(network, markers, items, below, position);
            items[position]
        } else {
            body.source
        };
        assert(levels(tree_at(network, markers, child, below)->Ok_0) == bound - 1);
        let rest = lemma_tree_links(network, markers, child, below);
        lemma_not_shallower(network, markers, index, depth, (bound - 1) as nat);
        let links = rest.insert(index as int);
        assert forall|link: int| #[trigger] links.contains(link) implies reads_within(
            network,
            markers,
            link,
            bound,
        ) by {
            if link != index {
                assert(reads_within(network, markers, link, (bound - 1) as nat));
            }
        }
        links
    }
}

/// A tree that is read has fewer levels than there are links.
proof fn lemma_tree_bound(network: Network, markers: Markers, index: LinkIndex, depth: nat)
    requires
        network.links.len() <= usize::MAX,
        tree_at(network, markers, index, depth) is Ok,
    ensures
        levels(tree_at(network, markers, index, depth)->Ok_0) < network.links.len(),
{
    let links = lemma_tree_links(network, markers, index, depth);
    assert forall|link: int| #[trigger] links.contains(link) implies 1 <= link
        <= network.links.len() by {
        assert(reads_within(
            network,
            markers,
            link,
            levels(tree_at(network, markers, index, depth)->Ok_0),
        ));
    }
    lemma_addresses(network, links);
}

/// Trees that are read have no more levels than there are links.
proof fn lemma_trees_bound(
    network: Network,
    markers: Markers,
    items: Seq<LinkIndex>,
    depth: nat,
)
    requires
        network.links.len() <= usize::MAX,
        trees_at(network, markers, items, depth) is Ok,
    ensures
        most_levels(trees_at(network, markers, items, depth)->Ok_0) <= network.links.len(),
{
    let values = trees_at(network, markers, items, depth)->Ok_0;
    if values.len() > 0 {
        let position = lemma_deepest(values);
        lemma_each_is_read(network, markers, items, depth, 0);
        lemma_each_is_read(network, markers, items, depth, position);
        lemma_tree_bound(network, markers, items[position], depth);
    }
}

/// What interning the markers does.
proof fn lemma_interned(network: Network)
    requires
        network.sound(),
        network.links.len() + 5 <= usize::MAX,
    ensures
        ({
            let (after, markers) = interned(network);
            &&& after.sound()
            &&& grows(network, after)
            &&& after.links.len() <= network.links.len() + 5
            &&& told_apart(after, markers)
            &&& marked(after) == Ok::<Markers, Fault>(markers)
        }),
{
    let (first, reference) = network.with_symbol("lino:ref"@);
    let (second, cons) = first.with_symbol("lino:cons"@);
    let (third, nil) = second.with_symbol("lino:nil"@);
    let (fourth, link) = third.with_symbol("lino:link"@);
    let (fifth, document) = fourth.with_symbol("lino:document"@);
    lemma_with_symbol(network, "lino:ref"@);
    lemma_with_symbol(first, "lino:cons"@);
    lemma_with_symbol(second, "lino:nil"@);
    lemma_with_symbol(third, "lino:link"@);
    lemma_with_symbol(fourth, "lino:document"@);
    lemma_grows(fourth, fifth, fifth);
    lemma_grows(third, fourth, fifth);
    lemma_grows(second, third, fifth);
    lemma_grows(first, second, fifth);
    lemma_grows(network, first, fifth);
    lemma_symbol_kept(first, fifth, "lino:ref"@);
    lemma_symbol_kept(second, fifth, "lino:cons"@);
    lemma_symbol_kept(third, fifth, "lino:nil"@);
    lemma_symbol_kept(fourth, fifth, "lino:link"@);
    lemma_kept(third, fifth, nil as int);
    reveal_strlit("lino:ref");
    reveal_strlit("lino:cons");
    reveal_strlit("lino:nil");
    reveal_strlit("lino:link");
    assert("lino:ref"@.len() == 8);
    assert("lino:cons"@.len() == 9);
    assert("lino:nil"@.len() == 8);
    assert("lino:link"@.len() == 9);
    assert("lino:ref"@[5] == 'r');
    assert("lino:nil"@[5] == 'n');
}

/// A symbol keeps its address and its name.
proof fn lemma_symbol_kept(before: Network, after: Network, name: Seq<char>)
    requires
        before.sound(),
        grows(before, after),
        before.symbols.contains_key(name),
    ensures
        after.symbols.contains_key(name),
        after.symbols[name] == before.symbols[name],
        after.names.contains_key(before.symbols[name]),
        after.names[before.symbols[name]] == name,
{
    assert(before.symbols.dom().contains(name) && after.symbols.dom().contains(name));
    let index = before.symbols[name];
    assert(before.names.dom().contains(index) && after.names.dom().contains(index));
}

/// Projecting a document into the network and back yields the same document,
/// whatever else the network holds and whatever is added to it later.
pub proof fn law_documents_survive_the_network(
    network: Network,
    document: Seq<Tree>,
    later: Network,
)
    requires
        network.sound(),
        network.links.len() + weights(document) + 2 * document.len() + 6 <= usize::MAX,
        later.sound(),
        grows(with_document(network, document).0, later),
    ensures
        with_document(network, document).0.sound(),
        grows(network, with_document(network, document).0),
        document_at(later, with_document(network, document).1) == Ok::<Seq<Tree>, Fault>(document),
{
    let (marked_network, markers) = interned(network);
    let (filled, items) = with_trees(marked_network, markers, document);
    let (listed, list) = with_list(filled, markers, items);
    let (after, root) = listed.with_link(markers.document, list);
    lemma_interned(network);
    lemma_with_trees(marked_network, markers, document);
    lemma_with_list(filled, markers, items);
    lemma_with_link(listed, markers.document, list);
    lemma_grows(network, marked_network, filled);
    lemma_grows(network, filled, listed);
    lemma_grows(network, listed, after);
    lemma_grows(listed, after, later);
    lemma_grows(filled, listed, later);
    lemma_grows(marked_network, filled, later);
    lemma_kept(marked_network, filled, markers.nil as int);
    lemma_kept(after, later, root as int);
    lemma_symbol_kept(marked_network, later, "lino:ref"@);
    lemma_symbol_kept(marked_network, later, "lino:cons"@);
    lemma_symbol_kept(marked_network, later, "lino:nil"@);
    lemma_symbol_kept(marked_network, later, "lino:link"@);
    lemma_symbol_kept(marked_network, later, "lino:document"@);
    assert(marked(later) == Ok::<Markers, Fault>(markers));
    lemma_whole_list_back(filled, markers, items, later);
    lemma_trees_back(marked_network, markers, document, later, most_levels(document));
    lemma_trees_bound(later, markers, items, most_levels(document));
    lemma_all_deeper(later, markers, items, most_levels(document), later.links.len());
}

} // verus!
